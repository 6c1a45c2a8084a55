use mcpod::fs::text::{adopt_line_endings, is_crlf, restore_bom, strip_bom, BOM};

#[test]
fn bom_strip_and_restore_roundtrip() {
    assert_eq!(strip_bom("hello"), (false, "hello"));
    let (had, rest) = strip_bom("\u{FEFF}hello");
    assert!(had);
    assert_eq!(rest, "hello");
    assert_eq!(restore_bom(had, rest), "\u{FEFF}hello".as_bytes());
    assert_eq!(restore_bom(false, "x"), b"x");
}

#[test]
fn crlf_detection() {
    assert!(is_crlf("a\r\nb\r\n"));
    assert!(is_crlf("a\r\nb\r\nc\r\nd\r\n")); // dominant CRLF
    assert!(!is_crlf("a\nb\n"));
    assert!(!is_crlf("single line"));
    assert!(!is_crlf(""));
    // mixed: lone LF dominates -> LF file
    assert!(!is_crlf("a\r\nb\nc\nd\n"));
}

#[test]
fn adopt_line_endings_matches_target_style() {
    assert_eq!(adopt_line_endings("x\ny", true), "x\r\ny");
    assert_eq!(adopt_line_endings("x\r\ny", true), "x\r\ny"); // no doubling
    assert_eq!(adopt_line_endings("x\r\ny", false), "x\ny");
    assert_eq!(adopt_line_endings("x\ny", false), "x\ny");
}

#[test]
fn bom_only_at_the_front() {
    assert_eq!(strip_bom(BOM), (true, ""));
    assert_eq!(strip_bom(""), (false, ""));
    assert_eq!(strip_bom("a\u{FEFF}"), (false, "a\u{FEFF}"));
    assert_eq!(strip_bom("\u{FEFF}\u{FEFF}b"), (true, "\u{FEFF}b"));
    assert_eq!(restore_bom(true, ""), [0xEF, 0xBB, 0xBF]);
}

#[test]
fn a_tie_of_line_endings_is_lf() {
    assert!(!is_crlf("a\r\nb\n"));
    assert!(is_crlf("a\r\nb\r\nc\n"));
    assert!(!is_crlf("\r\r\r"));
}

#[test]
fn adopting_a_style_twice_changes_nothing_more() {
    for text in ["", "\n", "\r\n", "\r", "a\rb\nc\r\n\n", "\r\r\n"] {
        let once = adopt_line_endings(text, true);
        assert_eq!(adopt_line_endings(&once, true), once);
        assert_eq!(once.matches('\n').count(), once.matches("\r\n").count());
    }
    for text in ["", "\n", "\r\n", "\r", "a\rb\nc\r\n\n", "\r\r\n", "x\r\r\r\n\r"] {
        let once = adopt_line_endings(text, false);
        assert_eq!(adopt_line_endings(&once, false), once);
        assert!(!once.contains("\r\n"));
    }
    // No carriage return is left in front of a line feed.
    assert_eq!(adopt_line_endings("x\r\r\ny", false), "x\ny");
    assert_eq!(adopt_line_endings("x\ry\r", false), "x\ry\r");
}
