use base64::Engine;
use mcpod::output::truncate::MAX_BYTES;
use mcpod::tools::read::image::{choose_image, detect_image_mime, encode_image_for_content};
use mcpod::tools::read::{check_file, read_window, run, validate, FileInfo};
use mcpod::tools::{ReadOutput, WriteParams};

fn read_bytes(
    path: &str,
    bytes: &[u8],
    offset: Option<u32>,
    limit: Option<u32>,
) -> Result<ReadOutput, String> {
    let info = FileInfo { is_dir: false, len: bytes.len() as u64 };
    run(path, offset, limit, Some(info), Ok(bytes.to_vec()))
}

fn read(content: &str, offset: Option<u32>, limit: Option<u32>) -> Result<String, String> {
    read_bytes("big.txt", content.as_bytes(), offset, limit).map(|output| output.content)
}

fn numbered(count: usize) -> String {
    (1..=count).map(|i| format!("line {i}\n")).collect()
}

#[test]
fn small_file_returns_everything() {
    let output = read_bytes("hello.txt", b"line1\nline2\nline3\n", None, None).unwrap();
    assert_eq!(output.content, "line1\nline2\nline3\n");
    assert_eq!(output.path, "hello.txt");
    assert_eq!((output.start_line, output.end_line), (Some(1), Some(3)));
    assert_eq!(output.total_lines, Some(3));
    assert_eq!(output.image_mime_type, None);
}

#[test]
fn paginates_large_file_by_lines() {
    let content = numbered(5000);
    let first = read(&content, None, None).unwrap();
    assert!(first.starts_with("line 1\n"));
    assert!(first.contains("line 2000\n"));
    assert!(!first.contains("line 2001\n"));
    assert!(first.ends_with("[Showing lines 1-2000 of 5000. Use offset=2001 to continue.]"));

    let second = read(&content, Some(2001), None).unwrap();
    assert!(second.starts_with("line 2001\n"));
    assert!(second.ends_with("[Showing lines 2001-4000 of 5000. Use offset=4001 to continue.]"));

    // Final page reaches EOF: no continuation note.
    let last = read(&content, Some(4001), None).unwrap();
    assert!(last.starts_with("line 4001\n"));
    assert!(last.ends_with("line 5000\n"));
    assert!(!last.contains("Use offset="));
}

#[test]
fn offset_and_limit_window() {
    let page = read(&numbered(5000), Some(100), Some(50)).unwrap();
    assert!(page.starts_with("line 100\n"));
    assert!(page.contains("line 149\n"));
    assert!(!page.contains("line 150\n"));
    assert!(page.ends_with("[4851 more lines in file. Use offset=150 to continue.]"));
}

#[test]
fn a_limit_above_the_maximum_is_the_maximum() {
    let content = numbered(5000);
    assert_eq!(read(&content, None, Some(2000)), read(&content, None, None));
    assert_eq!(read(&content, None, Some(u32::MAX)), read(&content, None, None));
}

#[test]
fn byte_cap_shows_kb_limit() {
    let line = format!("{}\n", "a".repeat(300)); // 301 bytes per line
    let content = line.repeat(300); // ~90KB total
    let text = read(&content, None, None).unwrap();
    assert!(text.contains("[Showing lines 1-"));
    assert!(text.contains("(50.0KB limit). Use offset="));
    assert!(text.contains("to continue.]"));
    assert!(text.len() < MAX_BYTES + 500);
    assert!(text.ends_with(
        "\n\n[Showing lines 1-170 of 300 (50.0KB limit). Use offset=171 to continue.]"
    ));
}

#[test]
fn offset_beyond_eof_is_error() {
    assert_eq!(
        read("1\n2\n", Some(5000), None).unwrap_err(),
        "Offset 5000 is beyond end of file (2 lines total)"
    );
}

#[test]
fn empty_file_notice() {
    let output = read_bytes("empty.txt", b"", None, None).unwrap();
    assert_eq!(output.content, "(file is empty)");
    assert_eq!((output.start_line, output.end_line), (None, None));
    assert_eq!(output.total_lines, Some(0));
}

#[test]
fn unicode_content_preserved() {
    assert_eq!(read("héllo → 世界 🦀\n", None, None).unwrap(), "héllo → 世界 🦀\n");
}

#[test]
fn crlf_content_preserved() {
    assert_eq!(read("a\r\nb\r\n", None, None).unwrap(), "a\r\nb\r\n");
}

#[test]
fn giant_single_line_notice() {
    let giant = format!("x{}\nb\n", "y".repeat(60 * 1024));
    // Reading from the giant line yields a notice, never half a line.
    let text = read(&giant, Some(1), None).unwrap();
    assert!(text.contains("[Line 1 is 60.0KB, exceeds 50.0KB limit."));
    assert!(text.contains("Use bash to inspect the line in chunks.]"));
    assert!(!text.contains("yyyy"));
    let output = read_bytes("g", giant.as_bytes(), None, None).unwrap();
    assert_eq!((output.start_line, output.end_line), (Some(1), Some(1)));
    assert_eq!(output.total_lines, Some(2));

    // Reading from line 2 works normally.
    assert_eq!(read(&giant, Some(2), None).unwrap(), "b\n");
}

#[test]
fn following_the_notes_gives_the_whole_file() {
    let content: String =
        (0..900).map(|i| format!("{}\n", "z".repeat(i % 211))).collect();
    for limit in [None, Some(1), Some(7), Some(450)] {
        let mut collected = String::new();
        let mut offset = 1;
        loop {
            let page = read_window("f", &content, offset, limit).unwrap();
            let (start, end) = (page.start_line.unwrap(), page.end_line.unwrap());
            assert_eq!(start, offset);
            let lines: Vec<&str> = content.split_inclusive('\n').collect();
            let shown = lines[start as usize - 1..end as usize].concat();
            assert!(page.content.starts_with(shown.trim_end()));
            collected.push_str(&shown);
            offset = end + 1;
            if end == page.total_lines.unwrap() {
                assert_eq!(page.content, shown);
                break;
            }
            assert!(page.content.contains(&format!("Use offset={offset} to continue.]")));
        }
        assert_eq!(collected, content);
    }
}

#[test]
fn binary_non_image_rejected() {
    let error = read_bytes("blob.bin", &[0u8, 1, 0, 2], None, None).unwrap_err();
    assert!(error.contains("binary"));
    assert_eq!(error, "blob.bin appears to be a binary file; use bash to inspect it");
    let error = read_bytes("latin.txt", &[0xE9], None, None).unwrap_err();
    assert_eq!(error, "latin.txt is not valid UTF-8 text");
}

#[test]
fn file_not_found_message() {
    let error = run("missing.txt", None, None, None, Ok(vec![])).unwrap_err();
    assert_eq!(error, "File not found: missing.txt");
}

#[test]
fn unreadable_files() {
    let directory = FileInfo { is_dir: true, len: 0 };
    assert_eq!(
        check_file("src", Some(directory)).unwrap_err(),
        "src is a directory; use bash (e.g. `ls -la src`) to inspect it"
    );
    let large = FileInfo { is_dir: false, len: 64 * 1024 * 1024 + 1 };
    assert_eq!(
        check_file("big", Some(large)).unwrap_err(),
        "big is 67108865 bytes, above the 67108864 byte read limit; use bash to read it in chunks"
    );
    let limit = FileInfo { is_dir: false, len: 64 * 1024 * 1024 };
    assert!(check_file("ok", Some(limit)).is_ok());
    assert_eq!(
        run("f", None, None, Some(limit), Err("denied".to_string())).unwrap_err(),
        "failed to read f: denied"
    );
}

#[test]
fn zero_offset_and_limit_rejected() {
    assert!(read("1\n", Some(0), None).unwrap_err().contains("Invalid offset"));
    assert!(read("1\n", None, Some(0)).unwrap_err().contains("Invalid limit"));
    assert_eq!(
        validate(Some(0), Some(0)).unwrap_err(),
        "Invalid offset: must be at least 1 (lines are 1-based)"
    );
    assert_eq!(validate(None, Some(0)).unwrap_err(), "Invalid limit: must be at least 1");
    assert!(validate(Some(1), Some(1)).is_ok());
    // The window is checked before the file.
    assert!(run("gone", Some(0), None, None, Ok(vec![])).unwrap_err().contains("Invalid offset"));
}

// ---------------------------------------------------------------------------
// Images
// ---------------------------------------------------------------------------

fn encode(image: image::DynamicImage, format: image::ImageFormat) -> Vec<u8> {
    let mut buffer = std::io::Cursor::new(Vec::new());
    image.write_to(&mut buffer, format).unwrap();
    buffer.into_inner()
}

fn encode_png(width: u32, height: u32) -> Vec<u8> {
    encode(image::DynamicImage::new_rgb8(width, height), image::ImageFormat::Png)
}

fn decode_base64(text: &str) -> Vec<u8> {
    base64::engine::general_purpose::STANDARD.decode(text).unwrap()
}

#[test]
fn reads_png_image() {
    let png = encode_png(10, 12);
    let output = read_bytes("pic.png", &png, None, None).unwrap();
    assert_eq!(output.image_mime_type.as_deref(), Some("image/png"));
    assert_eq!(output.content, "Read image file [image/png]");
    assert_eq!(output.total_lines, None);

    // The image encoder round-trips the pixels.
    let (encoded, mime) = encode_image_for_content("pic.png", &png).unwrap();
    assert_eq!(mime, "image/png");
    let bytes = decode_base64(&encoded);
    assert_eq!(bytes, png);
    let img = image::load_from_memory(&bytes).unwrap();
    assert_eq!((img.width(), img.height()), (10, 12));
}

#[test]
fn downscales_oversized_image() {
    let png = encode_png(3000, 1000);
    let (encoded, mime) = encode_image_for_content("big.png", &png).unwrap();
    assert_eq!(mime, "image/png"); // resized images re-encode as PNG
    let img = image::load_from_memory(&decode_base64(&encoded)).unwrap();
    assert!(img.width() <= 2000 && img.height() <= 2000);
    // aspect ratio roughly preserved (3000:1000 -> 2000:667)
    assert_eq!(img.height(), 667);
}

#[test]
fn oversized_images_of_other_kinds_become_png() {
    let jpeg = encode(image::DynamicImage::new_rgb8(20, 2100), image::ImageFormat::Jpeg);
    let (encoded, mime) = encode_image_for_content("tall.jpg", &jpeg).unwrap();
    assert_eq!(mime, "image/png");
    let png = decode_base64(&encoded);
    assert_eq!(detect_image_mime(&png), Some("image/png"));
    let img = image::load_from_memory(&png).unwrap();
    assert_eq!((img.width(), img.height()), (19, 2000));
}

#[test]
fn reads_back_what_was_written() {
    let content = "héllo → 世界 🦀\r\nsecond\nlast";
    let params = WriteParams { path: "uni.txt".to_string(), content: content.to_string() };
    let (bytes, output) = mcpod::tools::write::run(&params);
    assert_eq!(output.bytes, content.len());
    let page = read_bytes("uni.txt", &bytes, None, None).unwrap();
    assert_eq!(page.content, content);
    assert_eq!((page.start_line, page.end_line, page.total_lines), (Some(1), Some(3), Some(3)));
}

#[test]
fn downscaled_images_keep_their_shape() {
    for (size, scaled) in [((2100, 2100), (2000, 2000)), ((6000, 1), (2000, 1))] {
        let png = encode_png(size.0, size.1);
        let (encoded, _) = encode_image_for_content("big.png", &png).unwrap();
        let img = image::load_from_memory(&decode_base64(&encoded)).unwrap();
        assert_eq!((img.width(), img.height()), scaled);
    }
}

#[test]
fn reads_jpeg_and_gif_images() {
    let jpeg = encode(image::DynamicImage::new_rgb8(4, 4), image::ImageFormat::Jpeg);
    let output = read_bytes("pic.jpg", &jpeg, None, None).unwrap();
    assert_eq!(output.image_mime_type.as_deref(), Some("image/jpeg"));
    let gif = encode(image::DynamicImage::new_rgba8(4, 4), image::ImageFormat::Gif);
    let output = read_bytes("anim.gif", &gif, None, None).unwrap();
    assert_eq!(output.image_mime_type.as_deref(), Some("image/gif"));
    let (encoded, mime) = encode_image_for_content("anim.gif", &gif).unwrap();
    assert_eq!((decode_base64(&encoded), mime), (gif, "image/gif"));
}

#[test]
fn images_are_detected_by_their_first_bytes() {
    assert_eq!(detect_image_mime(b"RIFF\x10\x00\x00\x00WEBPVP8 "), Some("image/webp"));
    assert_eq!(detect_image_mime(b"RIFF\x10\x00\x00\x00WAVEfmt "), None);
    assert_eq!(detect_image_mime(b"GIF87a"), Some("image/gif"));
    assert_eq!(detect_image_mime(b"BM"), Some("image/bmp"));
    assert_eq!(detect_image_mime(&[0xFF, 0xD8, 0xFF]), Some("image/jpeg"));
    assert_eq!(detect_image_mime(&[0xFF, 0xD8]), None);
    // Known to the decoder, but read as text or refused as binary.
    assert_eq!(detect_image_mime(b"P1\n1 1\n0\n"), None);
    assert_eq!(detect_image_mime(b"II*\x00"), None);
    assert_eq!(detect_image_mime(b""), None);
}

#[test]
fn image_failures() {
    assert_eq!(
        encode_image_for_content("notes.txt", b"hello").unwrap_err(),
        "failed to detect image notes.txt: The image format could not be determined"
    );
    let truncated = &encode_png(10, 12)[..20];
    let error = encode_image_for_content("cut.png", truncated).unwrap_err();
    assert!(error.starts_with("failed to decode image cut.png: "), "{error}");
}

#[test]
fn the_reply_follows_the_outcomes() {
    let bmp = b"BMxyz";
    let none = || Err("unused".to_string());
    let (data, mime) = choose_image("p", bmp, Ok((2000, 2000)), none()).unwrap();
    assert_eq!((data.as_slice(), mime), (bmp.as_slice(), "image/bmp"));
    let (data, mime) = choose_image("p", bmp, Ok((2001, 1)), Ok(vec![1, 2])).unwrap();
    assert_eq!((data.as_slice(), mime), ([1u8, 2].as_slice(), "image/png"));
    assert_eq!(
        choose_image("p", bmp, Ok((1, 2001)), Err("full".to_string())).unwrap_err(),
        "failed to re-encode image p: full"
    );
    assert_eq!(
        choose_image("p", bmp, Err("bad".to_string()), none()).unwrap_err(),
        "failed to decode image p: bad"
    );
    assert_eq!(
        choose_image("p", b"text", Err("bad".to_string()), none()).unwrap_err(),
        "failed to detect image p: The image format could not be determined"
    );
    // A format without a MIME type of its own.
    let (_, mime) = choose_image("p", b"P6 1 1 255 abc", Ok((1, 1)), none()).unwrap();
    assert_eq!(mime, "image/png");
}
