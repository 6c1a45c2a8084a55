use mcpod::output::truncate::{
    count_lines, format_kb, take_head, take_tail, MAX_BYTES, MAX_LINES,
};

#[test]
fn head_small_text_untouched() {
    let head = take_head("a\nb\nc\n", MAX_LINES, MAX_BYTES);
    assert_eq!(head.text, "a\nb\nc\n");
    assert_eq!(head.kept_lines, 3);
    assert!(!head.byte_limited);
    assert!(!head.first_line_too_big);
}

#[test]
fn head_line_cap() {
    let text: String = (1..=5000).map(|i| format!("line {i}\n")).collect();
    let head = take_head(&text, MAX_LINES, MAX_BYTES);
    assert_eq!(head.kept_lines, 2000);
    assert!(head.text.starts_with("line 1\n"));
    assert!(head.text.ends_with("line 2000\n"));
    assert!(!head.byte_limited);
}

#[test]
fn head_byte_cap() {
    let line = format!("{}\n", "a".repeat(300));
    let text = line.repeat(300); // 300 lines × 301 bytes ≈ 90KB
    let head = take_head(&text, MAX_LINES, MAX_BYTES);
    assert!(head.kept_lines < 300);
    assert!(head.byte_limited);
    assert_eq!(head.text.lines().count(), head.kept_lines);
    assert!(head.text.len() <= MAX_BYTES);
}

#[test]
fn head_first_line_too_big() {
    let text = format!("{}\nb\n", "x".repeat(60 * 1024));
    let head = take_head(&text, MAX_LINES, MAX_BYTES);
    assert!(head.first_line_too_big);
    assert_eq!(head.kept_lines, 0);
    assert!(head.text.is_empty());
}

#[test]
fn tail_small_text_untouched() {
    let tail = take_tail("a\nb\n", MAX_LINES, MAX_BYTES);
    assert!(!tail.truncated);
    assert_eq!(tail.text, "a\nb\n");
}

#[test]
fn tail_line_cap_keeps_last_2000() {
    let text: String = (1..=30000).map(|i| format!("line {i}\n")).collect();
    let tail = take_tail(&text, MAX_LINES, MAX_BYTES);
    assert!(tail.truncated);
    assert!(!tail.byte_limited);
    assert_eq!(tail.first_line, 28001);
    assert_eq!(tail.kept_lines, 2000);
    assert!(tail.text.starts_with("line 28001\n"));
    assert!(tail.text.ends_with("line 30000\n"));
}

#[test]
fn tail_byte_cap_drops_front_lines() {
    let line = format!("{}\n", "a".repeat(100));
    let text = line.repeat(3000); // last 2000 lines = 200KB > 50KB
    let tail = take_tail(&text, MAX_LINES, MAX_BYTES);
    assert!(tail.truncated);
    assert!(tail.byte_limited);
    assert!(!tail.cut_mid_line);
    assert!(tail.text.len() <= MAX_BYTES);
    assert!(tail.text.ends_with(&line));
    // shown range must be reported for the message
    assert_eq!(tail.first_line + tail.kept_lines - 1, 3000);
}

#[test]
fn tail_giant_single_line_cut_at_utf8_boundary() {
    let text = "é".repeat(30000); // 60000 bytes, no newline
    let tail = take_tail(&text, MAX_LINES, MAX_BYTES);
    assert!(tail.truncated);
    assert!(tail.cut_mid_line);
    assert!(tail.byte_limited);
    assert_eq!(tail.first_line, 1);
    let kept_chars = tail.text.chars().count();
    assert!((25590..=25610).contains(&kept_chars), "kept {kept_chars} chars");
    assert!(tail.text.len() >= MAX_BYTES - 4 && tail.text.len() <= MAX_BYTES + 4);
    // every kept char is a complete é
    assert!(tail.text.chars().all(|c| c == 'é'));
}

#[test]
fn count_lines_variants() {
    assert_eq!(count_lines(""), 0);
    assert_eq!(count_lines("one"), 1);
    assert_eq!(count_lines("one\n"), 1);
    assert_eq!(count_lines("one\ntwo"), 2);
    assert_eq!(count_lines("one\ntwo\n"), 2);
}

#[test]
fn kb_formatting() {
    assert_eq!(format_kb(50 * 1024), "50.0KB");
    assert_eq!(format_kb(60 * 1024), "60.0KB");
    assert_eq!(format_kb(85350), "83.3KB");
}

#[test]
fn kb_text_is_the_rounded_quotient() {
    let mut sizes: Vec<usize> = (0..5000).collect();
    // Halves between two tenths, and sizes beyond the precision of a double.
    sizes.extend([256, 768, 1280, 1792, 51200, 51251, 51252, 1 << 40, (1 << 53) + 1]);
    sizes.extend([(1 << 60) + 12345, usize::MAX, usize::MAX - 1, usize::MAX - 1023]);
    for n in sizes {
        assert_eq!(format_kb(n), format!("{:.1}KB", n as f64 / 1024.0), "{n} bytes");
    }
}

#[test]
fn limits_of_zero() {
    let head = take_head("a\nb\n", 0, 100);
    assert_eq!((head.text.as_str(), head.kept_lines, head.byte_limited), ("", 0, false));
    // The first line is not shown, but it is not too long either.
    assert!(!head.first_line_too_big);
    assert!(take_head("a\nb\n", 0, 1).first_line_too_big);
    assert!(!take_head("", 0, 0).first_line_too_big);
    // No lines at all counts as one line.
    let tail = take_tail("a\nb\n", 0, 100);
    assert_eq!((tail.text.as_str(), tail.first_line, tail.kept_lines), ("b\n", 2, 1));
    assert!(tail.truncated);
    let tail = take_tail("", 10, 10);
    assert_eq!((tail.text.as_str(), tail.first_line, tail.truncated), ("", 1, false));
}

#[test]
fn head_and_tail_are_ends_of_the_text() {
    let text = "first\nsecond\nthird\nfourth";
    for lines in 1..6 {
        for bytes in 0..30 {
            let head = take_head(text, lines, bytes);
            assert!(text.starts_with(&head.text));
            assert!(head.text.len() <= bytes);
            let tail = take_tail(text, lines, bytes);
            assert!(text.ends_with(&tail.text));
            assert!(tail.text.len() <= bytes);
            assert_eq!(tail.truncated, tail.text != text);
        }
    }
}
