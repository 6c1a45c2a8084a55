//! Images: detection by content, downscaling and base64 encoding.

use base64::Engine;
use vstd::prelude::*;
use vstd::string::*;

use crate::bytes;

verus! {

/// Images larger than this in either direction are downscaled.
pub const IMAGE_MAX_DIM: u32 = 2000;

/// What an image file is, by its first bytes.
#[derive(Debug, Clone, Copy, PartialEq, Eq, Structural)]
pub enum ImageKind {
    Png,
    Jpeg,
    Gif,
    WebP,
    Bmp,
    Other,
}

/// Whether `bytes` holds `part` at `at`.
pub open spec fn holds_at(bytes: Seq<u8>, at: int, part: Seq<u8>) -> bool {
    at + part.len() <= bytes.len() && bytes.subrange(at, at + part.len()) == part
}

/// The kind of image that the first bytes announce; nothing where they are
/// those of no image format.
pub open spec fn image_kind(bytes: Seq<u8>) -> Option<ImageKind> {
    if holds_at(bytes, 0, seq![0x89u8, 0x50, 0x4E, 0x47, 0x0D, 0x0A, 0x1A, 0x0A]) {
        Some(ImageKind::Png)
    } else if holds_at(bytes, 0, seq![0xFFu8, 0xD8, 0xFF]) {
        Some(ImageKind::Jpeg)
    } else if holds_at(bytes, 0, seq![0x47u8, 0x49, 0x46, 0x38, 0x39, 0x61]) || holds_at(
        bytes,
        0,
        seq![0x47u8, 0x49, 0x46, 0x38, 0x37, 0x61],
    ) {
        Some(ImageKind::Gif)
    } else if holds_at(bytes, 0, seq![0x52u8, 0x49, 0x46, 0x46]) && holds_at(
        bytes,
        8,
        seq![0x57u8, 0x45, 0x42, 0x50],
    ) {
        Some(ImageKind::WebP)
    } else if holds_at(bytes, 0, seq![0x42u8, 0x4D]) {
        Some(ImageKind::Bmp)
    } else if other_signature(bytes) {
        Some(ImageKind::Other)
    } else {
        None
    }
}

/// The first bytes of TIFF, DDS, ICO, Radiance HDR, AVIF, OpenEXR, QOI, PNM and
/// farbfeld files.
pub open spec fn other_signature(bytes: Seq<u8>) -> bool {
    ||| holds_at(bytes, 0, seq![0x4Du8, 0x4D, 0x00, 0x2A])
    ||| holds_at(bytes, 0, seq![0x49u8, 0x49, 0x2A, 0x00])
    ||| holds_at(bytes, 0, seq![0x44u8, 0x44, 0x53, 0x20])
    ||| holds_at(bytes, 0, seq![0x00u8, 0x00, 0x01, 0x00])
    ||| holds_at(bytes, 0, seq![0x23u8, 0x3F, 0x52, 0x41, 0x44, 0x49, 0x41, 0x4E, 0x43, 0x45])
    ||| holds_at(bytes, 0, seq![0x00u8, 0x00]) && holds_at(
        bytes,
        4,
        seq![0x66u8, 0x74, 0x79, 0x70, 0x61, 0x76, 0x69, 0x66],
    )
    ||| holds_at(bytes, 0, seq![0x76u8, 0x2F, 0x31, 0x01])
    ||| holds_at(bytes, 0, seq![0x71u8, 0x6F, 0x69, 0x66])
    ||| bytes.len() >= 2 && bytes[0] == 0x50 && 0x31 <= bytes[1] <= 0x37
    ||| holds_at(bytes, 0, seq![0x66u8, 0x61, 0x72, 0x62, 0x66, 0x65, 0x6C, 0x64])
}

/// `image::guess_format`: the format whose signature the bytes begin with, and
/// where there is none an error with a fixed text.
#[verifier::external_body]
fn guess_kind(bytes: &[u8]) -> (r: Result<ImageKind, String>)
    ensures
        match r {
            Ok(kind) => image_kind(bytes@) == Some(kind),
            Err(e) => image_kind(bytes@) is None && e@
                == "The image format could not be determined"@,
        },
{
    match ::image::guess_format(bytes) {
        Ok(::image::ImageFormat::Png) => Ok(ImageKind::Png),
        Ok(::image::ImageFormat::Jpeg) => Ok(ImageKind::Jpeg),
        Ok(::image::ImageFormat::Gif) => Ok(ImageKind::Gif),
        Ok(::image::ImageFormat::WebP) => Ok(ImageKind::WebP),
        Ok(::image::ImageFormat::Bmp) => Ok(ImageKind::Bmp),
        Ok(_) => Ok(ImageKind::Other),
        Err(e) => Err(e.to_string()),
    }
}

/// What decoding an image file in the format that its first bytes announce
/// gives: its width and height, or an error text.
pub uninterp spec fn decoded(bytes: Seq<u8>) -> Result<(u32, u32), Seq<char>>;

/// `image::load_from_memory_with_format`, in the format that
/// `image::guess_format` finds, and `DynamicImage::width` and `height`: the size
/// of the decoded image, or the text of the error where there is no format or
/// the bytes cannot be decoded. Both go by built-in formats only, so the outcome
/// depends on the bytes alone.
#[verifier::external_body]
fn decode_size(bytes: &[u8]) -> (r: Result<(u32, u32), String>)
    ensures
        match r {
            Ok(size) => decoded(bytes@) == Ok::<(u32, u32), Seq<char>>(size),
            Err(e) => decoded(bytes@) == Err::<(u32, u32), Seq<char>>(e@),
        },
{
    let image = ::image::guess_format(bytes).and_then(
        |format| ::image::load_from_memory_with_format(bytes, format),
    );
    match image {
        Ok(image) => Ok((image.width(), image.height())),
        Err(e) => Err(e.to_string()),
    }
}

/// Whether the bytes decode to an image that is nowhere larger than `max_dim`.
pub open spec fn fits(bytes: Seq<u8>, max_dim: u32) -> bool {
    match decoded(bytes) {
        Ok((width, height)) => width <= max_dim && height <= max_dim,
        Err(_) => false,
    }
}

/// Whether `side` stands to `max_dim` as `short` stands to `long`, rounded to
/// the nearest whole number, and to one where that would be none at all.
pub open spec fn in_proportion(short: int, long: int, side: int, max_dim: int) -> bool {
    ||| side >= 1 && -long <= 2 * (side * long - short * max_dim) <= long
    ||| side == 1 && 2 * (short * max_dim) <= long
}

/// Whether an image of one size was scaled to the other: the longer side takes
/// up `max_dim`, and the shorter one is in proportion.
pub open spec fn is_scaled(size: (u32, u32), scaled: (u32, u32), max_dim: u32) -> bool {
    if size.0 >= size.1 {
        scaled.0 == max_dim && in_proportion(
            size.1 as int,
            size.0 as int,
            scaled.1 as int,
            max_dim as int,
        )
    } else {
        scaled.1 == max_dim && in_proportion(
            size.0 as int,
            size.1 as int,
            scaled.0 as int,
            max_dim as int,
        )
    }
}

/// Whether `png` is a PNG file that holds the image in `bytes` scaled to fit a
/// square, as far as its size goes.
pub open spec fn is_downscaled(bytes: Seq<u8>, png: Seq<u8>, max_dim: u32) -> bool {
    &&& image_kind(png) == Some(ImageKind::Png)
    &&& fits(png, max_dim)
    &&& match (decoded(bytes), decoded(png)) {
        (Ok(size), Ok(scaled)) => (size.0 > 0 || size.1 > 0) ==> is_scaled(size, scaled, max_dim),
        _ => false,
    }
}

/// Decodes as `decode_size` does, and then `DynamicImage::resize` to fit a
/// square, with the Lanczos3 filter, and `DynamicImage::write_to` as PNG. What comes out begins with the PNG
/// signature, and decodes to an image whose longer side is that of the square
/// and whose shorter side is in proportion. Only bytes that cannot be decoded
/// give an error, which is that of decoding them: the formats that are built in
/// decode to 8 or 16 bits per channel, which PNG can hold, and the resized image
/// is written into memory. The pixels depend on floating-point arithmetic, so
/// nothing is said of them.
#[verifier::external_body]
fn shrink_to_png(bytes: &[u8], max_dim: u32) -> (r: Result<Vec<u8>, String>)
    requires
        0 < max_dim <= IMAGE_MAX_DIM,
    ensures
        match r {
            Ok(png) => is_downscaled(bytes@, png@, max_dim),
            Err(m) => decoded(bytes@) matches Err(e) && m@ == e,
        },
{
    let format = ::image::guess_format(bytes).map_err(|e| e.to_string())?;
    let image = ::image::load_from_memory_with_format(bytes, format).map_err(|e| e.to_string())?;
    let resized = image.resize(max_dim, max_dim, ::image::imageops::FilterType::Lanczos3);
    let mut buffer = std::io::Cursor::new(Vec::new());
    match resized.write_to(&mut buffer, ::image::ImageFormat::Png) {
        Ok(()) => Ok(buffer.into_inner()),
        Err(e) => Err(e.to_string()),
    }
}

// ---------------------------------------------------------------------------
// Base64
// ---------------------------------------------------------------------------

/// The base64 digit for a number below 64.
pub open spec fn base64_digit(v: int) -> char {
    if v < 26 {
        (0x41 + v) as char
    } else if v < 52 {
        (0x61 + v - 26) as char
    } else if v < 62 {
        (0x30 + v - 52) as char
    } else if v == 62 {
        '+'
    } else {
        '/'
    }
}

/// The base64 form of a byte sequence, with padding.
pub open spec fn base64_text(bytes: Seq<u8>) -> Seq<char>
    decreases bytes.len(),
{
    if bytes.len() == 0 {
        Seq::empty()
    } else {
        let a = bytes[0] as int;
        let b = if bytes.len() > 1 {
            bytes[1] as int
        } else {
            0
        };
        let c = if bytes.len() > 2 {
            bytes[2] as int
        } else {
            0
        };
        let group = seq![
            base64_digit(a / 4),
            base64_digit((a % 4) * 16 + b / 16),
            if bytes.len() > 1 {
                base64_digit((b % 16) * 4 + c / 64)
            } else {
                '='
            },
            if bytes.len() > 2 {
                base64_digit(c % 64)
            } else {
                '='
            },
        ];
        if bytes.len() > 3 {
            group + base64_text(bytes.skip(3))
        } else {
            group
        }
    }
}

/// How many characters the base64 form of `len` bytes has: four for every three
/// bytes that are begun.
pub open spec fn base64_len(len: nat) -> nat {
    (len + 2) / 3 * 4
}

/// `base64::engine::general_purpose::STANDARD.encode`: the standard alphabet
/// with padding. The encoded text has to fit into one allocation.
#[verifier::external_body]
fn encode_base64(data: &[u8]) -> (r: String)
    requires
        base64_len(data@.len()) <= isize::MAX,
    ensures
        r@ == base64_text(data@),
{
    base64::engine::general_purpose::STANDARD.encode(data)
}

// ---------------------------------------------------------------------------
// Image replies
// ---------------------------------------------------------------------------

/// The MIME type that is reported for a file; nothing where it is read as text.
pub open spec fn mime_of(bytes: Seq<u8>) -> Option<Seq<char>> {
    match image_kind(bytes) {
        Some(ImageKind::Png) => Some("image/png"@),
        Some(ImageKind::Jpeg) => Some("image/jpeg"@),
        Some(ImageKind::Gif) => Some("image/gif"@),
        Some(ImageKind::WebP) => Some("image/webp"@),
        Some(ImageKind::Bmp) => Some("image/bmp"@),
        _ => None,
    }
}

/// Detect whether the bytes are a supported image; gives the MIME type.
pub fn detect_image_mime(bytes: &[u8]) -> (r: Option<&'static str>)
    ensures
        match r {
            Some(mime) => mime_of(bytes@) == Some(mime@),
            None => mime_of(bytes@) is None,
        },
{
    match guess_kind(bytes) {
        Ok(ImageKind::Png) => Some("image/png"),
        Ok(ImageKind::Jpeg) => Some("image/jpeg"),
        Ok(ImageKind::Gif) => Some("image/gif"),
        Ok(ImageKind::WebP) => Some("image/webp"),
        Ok(ImageKind::Bmp) => Some("image/bmp"),
        _ => None,
    }
}

/// Whether an image has to be downscaled.
pub open spec fn is_oversized(size: (u32, u32)) -> bool {
    size.0 > IMAGE_MAX_DIM || size.1 > IMAGE_MAX_DIM
}

/// The data and the MIME type of an image reply, or the message that says why
/// there is none: given the bytes of the file, the outcome of decoding them
/// and, for an oversized image, the outcome of downscaling.
pub open spec fn image_reply(
    path: Seq<char>,
    bytes: Seq<u8>,
    size: Result<(u32, u32), Seq<char>>,
    shrunk: Result<Seq<u8>, Seq<char>>,
) -> Result<(Seq<u8>, Seq<char>), Seq<char>> {
    match (image_kind(bytes), size) {
        (None, _) => Err(
            "failed to detect image "@ + path + ": "@
                + "The image format could not be determined"@,
        ),
        (Some(_), Err(e)) => Err("failed to decode image "@ + path + ": "@ + e),
        (Some(_), Ok(size)) => if is_oversized(size) {
            match shrunk {
                Err(e) => Err("failed to re-encode image "@ + path + ": "@ + e),
                Ok(png) => Ok((png, "image/png"@)),
            }
        } else {
            Ok(
                (
                    bytes,
                    match mime_of(bytes) {
                        Some(mime) => mime,
                        None => "image/png"@,
                    },
                ),
            )
        },
    }
}

/// The outcome of an outside call with its texts as sequences.
pub open spec fn size_view(size: Result<(u32, u32), String>) -> Result<(u32, u32), Seq<char>> {
    match size {
        Ok(size) => Ok(size),
        Err(e) => Err(e@),
    }
}

/// The outcome of an outside call with its texts as sequences.
pub open spec fn data_view(data: Result<Vec<u8>, String>) -> Result<Seq<u8>, Seq<char>> {
    match data {
        Ok(data) => Ok(data@),
        Err(e) => Err(e@),
    }
}

/// The message `prefix` + path + ": " + error.
fn failure(prefix: &str, path: &str, error: &str) -> (r: String)
    ensures
        r@ == prefix@ + path@ + ": "@ + error@,
{
    let mut m: String = String::from_str(prefix);
    m.append(path);
    m.append(": ");
    m.append(error);
    m
}

/// Choose what an image reply carries, given the outcome of decoding the file
/// and, for an oversized image, of downscaling it.
pub fn choose_image(
    path: &str,
    bytes: &[u8],
    size: Result<(u32, u32), String>,
    shrunk: Result<Vec<u8>, String>,
) -> (r: Result<(Vec<u8>, &'static str), String>)
    ensures
        match r {
            Ok((data, mime)) => image_reply(path@, bytes@, size_view(size), data_view(shrunk))
                == Ok::<(Seq<u8>, Seq<char>), Seq<char>>((data@, mime@)),
            Err(m) => image_reply(path@, bytes@, size_view(size), data_view(shrunk)) == Err::<
                (Seq<u8>, Seq<char>),
                Seq<char>,
            >(m@),
        },
{
    match guess_kind(bytes) {
        Err(e) => {
            return Err(failure("failed to detect image ", path, e.as_str()));
        },
        Ok(_) => {},
    }
    let size: (u32, u32) = match size {
        Err(e) => {
            return Err(failure("failed to decode image ", path, e.as_str()));
        },
        Ok(size) => size,
    };
    if size.0 > IMAGE_MAX_DIM || size.1 > IMAGE_MAX_DIM {
        match shrunk {
            Err(e) => Err(failure("failed to re-encode image ", path, e.as_str())),
            Ok(png) => Ok((png, "image/png")),
        }
    } else {
        let mime: &'static str = match detect_image_mime(bytes) {
            Some(mime) => mime,
            None => "image/png",
        };
        Ok((bytes::copy(bytes), mime))
    }
}

/// The base64 text of a reply, or the message for data whose text no allocation
/// can hold.
pub open spec fn encoded_reply(
    path: Seq<char>,
    reply: Result<(Seq<u8>, Seq<char>), Seq<char>>,
) -> Result<(Seq<char>, Seq<char>), Seq<char>> {
    match reply {
        Err(m) => Err(m),
        Ok((data, mime)) => if base64_len(data.len()) > isize::MAX {
            Err("failed to encode image "@ + path + ": "@ + "too large"@)
        } else {
            Ok((base64_text(data), mime))
        },
    }
}

/// Load, downscale (aspect ratio preserved) and base64-encode an image for the
/// MCP image content block. Re-encodes as PNG when resized.
pub fn encode_image_for_content(path: &str, bytes: &[u8]) -> (r: Result<
    (String, &'static str),
    String,
>)
    ensures
        exists|shrunk: Result<Seq<u8>, Seq<char>>|
            {
                &&& shrunk matches Ok(png) ==> is_downscaled(bytes@, png, IMAGE_MAX_DIM)
                &&& decoded(bytes@) is Ok && is_oversized(decoded(bytes@)->Ok_0) ==> shrunk is Ok
                &&& match r {
                    Ok((text, mime)) => encoded_reply(
                        path@,
                        #[trigger] image_reply(path@, bytes@, decoded(bytes@), shrunk),
                    ) == Ok::<(Seq<char>, Seq<char>), Seq<char>>((text@, mime@)),
                    Err(m) => encoded_reply(
                        path@,
                        image_reply(path@, bytes@, decoded(bytes@), shrunk),
                    ) == Err::<(Seq<char>, Seq<char>), Seq<char>>(m@),
                }
            },
{
    let size: Result<(u32, u32), String> = decode_size(bytes);
    let shrunk: Result<Vec<u8>, String> = match &size {
        Ok((width, height)) => if *width > IMAGE_MAX_DIM || *height > IMAGE_MAX_DIM {
            shrink_to_png(bytes, IMAGE_MAX_DIM)
        } else {
            Err(String::new())
        },
        Err(_) => Err(String::new()),
    };
    let ghost outcome = data_view(shrunk);
    assert(size_view(size) == decoded(bytes@));
    match choose_image(path, bytes, size, shrunk) {
        Err(m) => {
            assert(image_reply(path@, bytes@, decoded(bytes@), outcome) is Err);
            Err(m)
        },
        Ok((data, mime)) => {
            assert(image_reply(path@, bytes@, decoded(bytes@), outcome) is Ok);
            let len: usize = data.len();
            let groups: usize = len / 3 + if len % 3 > 0 {
                1
            } else {
                0
            };
            let limit: usize = isize::MAX as usize / 4;
            assert(groups == (len + 2) / 3);
            if groups > limit {
                return Err(failure("failed to encode image ", path, "too large"));
            }
            Ok((encode_base64(data.as_slice()), mime))
        },
    }
}

/// What a reply says an image is, it is: the MIME type is that of the data,
/// for every supported image and every downscaled one, and the data is never
/// oversized.
pub proof fn reply_is_what_it_says(
    path: Seq<char>,
    bytes: Seq<u8>,
    size: Result<(u32, u32), Seq<char>>,
    shrunk: Result<Seq<u8>, Seq<char>>,
)
    requires
        mime_of(bytes) is Some,
        size == decoded(bytes),
        shrunk matches Ok(png) ==> is_downscaled(bytes, png, IMAGE_MAX_DIM),
    ensures
        image_reply(path, bytes, size, shrunk) matches Ok((data, mime)) ==> mime_of(data)
            == Some(mime) && fits(data, IMAGE_MAX_DIM),
{
}

/// A downscaled image keeps its shape: what was wide stays wide, what was tall
/// stays tall, a square stays a square, and the longer side is as long as is
/// allowed.
pub proof fn downscaling_keeps_the_shape(bytes: Seq<u8>, png: Seq<u8>)
    requires
        decoded(bytes) matches Ok(size) && is_oversized(size),
        is_downscaled(bytes, png, IMAGE_MAX_DIM),
    ensures
        decoded(bytes) matches Ok((width, height)) && decoded(png) matches Ok(
            (new_width, new_height),
        ) && {
            &&& width >= height ==> IMAGE_MAX_DIM == new_width >= new_height >= 1
            &&& width <= height ==> IMAGE_MAX_DIM == new_height >= new_width >= 1
            &&& width == height ==> new_width == new_height
        },
{
    let size = decoded(bytes)->Ok_0;
    let scaled = decoded(png)->Ok_0;
    if size.0 == size.1 {
        let long = size.0 as int;
        let side = scaled.1 as int;
        assert(side == 2000) by (nonlinear_arith)
            requires
                long > 0,
                (side >= 1 && -long <= 2 * (side * long - long * 2000) <= long) || (side == 1 && 2
                    * (long * 2000) <= long),
        ;
    }
}

/// The base64 form has four characters for every three bytes that are begun.
pub proof fn base64_text_has_its_length(bytes: Seq<u8>)
    ensures
        base64_text(bytes).len() == base64_len(bytes.len()),
    decreases bytes.len(),
{
    if bytes.len() > 3 {
        base64_text_has_its_length(bytes.skip(3));
    }
}

/// A file is told to be an image by its signature, whatever follows it.
pub proof fn signature_tells_the_type(rest: Seq<u8>, size: Seq<u8>)
    requires
        size.len() == 4,
    ensures
        mime_of(seq![0x89u8, 0x50, 0x4E, 0x47, 0x0D, 0x0A, 0x1A, 0x0A] + rest) == Some(
            "image/png"@,
        ),
        mime_of(seq![0xFFu8, 0xD8, 0xFF] + rest) == Some("image/jpeg"@),
        mime_of(seq![0x47u8, 0x49, 0x46, 0x38, 0x39, 0x61] + rest) == Some("image/gif"@),
        mime_of(seq![0x47u8, 0x49, 0x46, 0x38, 0x37, 0x61] + rest) == Some("image/gif"@),
        mime_of(seq![0x52u8, 0x49, 0x46, 0x46] + size + seq![0x57u8, 0x45, 0x42, 0x50] + rest)
            == Some("image/webp"@),
        mime_of(seq![0x42u8, 0x4D] + rest) == Some("image/bmp"@),
        mime_of(Seq::empty()) is None,
{
    let png = seq![0x89u8, 0x50, 0x4E, 0x47, 0x0D, 0x0A, 0x1A, 0x0A];
    let jpeg = seq![0xFFu8, 0xD8, 0xFF];
    let gif = seq![0x47u8, 0x49, 0x46, 0x38, 0x39, 0x61];
    let old_gif = seq![0x47u8, 0x49, 0x46, 0x38, 0x37, 0x61];
    let riff = seq![0x52u8, 0x49, 0x46, 0x46];
    let webp = seq![0x57u8, 0x45, 0x42, 0x50];
    let bmp = seq![0x42u8, 0x4D];
    lemma_begins(png, rest);
    lemma_begins(jpeg, rest);
    lemma_begins(gif, rest);
    lemma_begins(old_gif, rest);
    lemma_begins(bmp, rest);
    let whole = riff + size + webp + rest;
    lemma_begins(riff, size + webp + rest);
    assert(whole == riff + (size + webp + rest));
    assert(whole.subrange(8, 12) == webp);
    lemma_differs(jpeg + rest, png);
    lemma_differs(gif + rest, png);
    lemma_differs(gif + rest, jpeg);
    lemma_differs(old_gif + rest, png);
    lemma_differs(old_gif + rest, jpeg);
    lemma_differs(whole, png);
    lemma_differs(whole, jpeg);
    lemma_differs(whole, gif);
    lemma_differs(whole, old_gif);
    lemma_differs(bmp + rest, png);
    lemma_differs(bmp + rest, jpeg);
    lemma_differs(bmp + rest, gif);
    lemma_differs(bmp + rest, old_gif);
    lemma_differs(bmp + rest, riff);
}

proof fn lemma_begins(part: Seq<u8>, rest: Seq<u8>)
    ensures
        holds_at(part + rest, 0, part),
{
    assert((part + rest).subrange(0, part.len() as int) == part);
}

proof fn lemma_differs(bytes: Seq<u8>, part: Seq<u8>)
    requires
        bytes.len() > 0,
        part.len() > 0,
        bytes[0] != part[0],
    ensures
        !holds_at(bytes, 0, part),
{
    if holds_at(bytes, 0, part) {
        assert(bytes.subrange(0, part.len() as int)[0] == bytes[0]);
    }
}

/// A supported image of no more than 2000 pixels in each direction is sent as
/// it is, under its own type; a larger one is sent downscaled, as PNG; and one
/// that cannot be decoded is refused with the reason.
pub proof fn image_is_sent_or_refused(
    path: Seq<char>,
    bytes: Seq<u8>,
    size: (u32, u32),
    shrunk: Result<Seq<u8>, Seq<char>>,
    png: Seq<u8>,
    error: Seq<char>,
    mime: Seq<char>,
)
    requires
        mime_of(bytes) == Some(mime),
    ensures
        size.0 <= 2000 && size.1 <= 2000 ==> image_reply(path, bytes, Ok(size), shrunk) == Ok::<
            (Seq<u8>, Seq<char>),
            Seq<char>,
        >((bytes, mime)),
        size.0 > 2000 || size.1 > 2000 ==> image_reply(path, bytes, Ok(size), Ok(png)) == Ok::<
            (Seq<u8>, Seq<char>),
            Seq<char>,
        >((png, "image/png"@)),
        image_reply(path, bytes, Err(error), shrunk) == Err::<(Seq<u8>, Seq<char>), Seq<char>>(
            "failed to decode image "@ + path + ": "@ + error,
        ),
{
}

/// The data of a reply is sent in base64, unless its text is too long for any
/// allocation, and a refusal stays a refusal.
pub proof fn reply_is_sent_in_base64(
    path: Seq<char>,
    data: Seq<u8>,
    mime: Seq<char>,
    message: Seq<char>,
)
    ensures
        (data.len() + 2) / 3 * 4 <= isize::MAX ==> encoded_reply(path, Ok((data, mime))) == Ok::<
            (Seq<char>, Seq<char>),
            Seq<char>,
        >((base64_text(data), mime)),
        encoded_reply(path, Err(message)) == Err::<(Seq<char>, Seq<char>), Seq<char>>(message),
{
}

/// The number that a base64 digit stands for.
pub open spec fn base64_value(c: char) -> int {
    if 'A' <= c <= 'Z' {
        c as int - 'A' as int
    } else if 'a' <= c <= 'z' {
        c as int - 'a' as int + 26
    } else if '0' <= c <= '9' {
        c as int - '0' as int + 52
    } else if c == '+' {
        62
    } else {
        63
    }
}

/// Base64 writes three bytes at a time, as four digits that stand for the same
/// 24 bits; at the end two bytes give three digits and one byte two, filled up
/// with equals signs.
pub proof fn base64_digits_stand_for_the_bytes(a: u8, b: u8, c: u8, rest: Seq<u8>)
    ensures
        ({
            let t = base64_text(seq![a, b, c] + rest);
            &&& t.len() >= 4
            &&& base64_value(t[0]) * 262144 + base64_value(t[1]) * 4096 + base64_value(t[2]) * 64
                + base64_value(t[3]) == a * 65536 + b * 256 + c
            &&& t.skip(4) == base64_text(rest)
        }),
        ({
            let t = base64_text(seq![a, b]);
            &&& t.len() == 4
            &&& base64_value(t[0]) * 4096 + base64_value(t[1]) * 64 + base64_value(t[2]) == (a * 256
                + b) * 4
            &&& t[3] == '='
        }),
        ({
            let t = base64_text(seq![a]);
            &&& t.len() == 4
            &&& base64_value(t[0]) * 64 + base64_value(t[1]) == a * 16
            &&& t[2] == '='
            &&& t[3] == '='
        }),
        base64_text(Seq::empty()) == Seq::<char>::empty(),
{
    let (x, y, z) = (a as int, b as int, c as int);
    lemma_base64_digit(x / 4);
    lemma_base64_digit((x % 4) * 16 + y / 16);
    lemma_base64_digit((y % 16) * 4 + z / 64);
    lemma_base64_digit(z % 64);
    lemma_base64_digit((y % 16) * 4);
    lemma_base64_digit((x % 4) * 16);
    let whole = seq![a, b, c] + rest;
    let t = base64_text(whole);
    assert(whole[0] == a && whole[1] == b && whole[2] == c);
    if rest.len() > 0 {
        assert(whole.skip(3) == rest);
        assert(t.skip(4) == base64_text(rest));
    } else {
        assert(t.skip(4) == Seq::<char>::empty());
        assert(base64_text(rest) == Seq::<char>::empty());
    }
    let two = seq![a, b];
    assert(two[0] == a && two[1] == b && two.len() == 2);
    let one = seq![a];
    assert(one[0] == a && one.len() == 1);
}

proof fn lemma_base64_digit(v: int)
    requires
        0 <= v < 64,
    ensures
        base64_value(base64_digit(v)) == v,
{
}

} // verus!
