use mcpod::tools::edit::diff::{can_diff, count_different_lines, Change};
use mcpod::tools::edit::matching::{
    find_all_char_positions, find_normalized, find_unique_range, map_char, normalize_chars,
    MatchError, NormalizedText,
};
use mcpod::tools::edit::{apply, first_changed_line, join_hunks, report, run, validate};
use mcpod::tools::{EditEntry, EditOutput, EditParams};

fn entries(list: &[(&str, &str)]) -> Vec<EditEntry> {
    list.iter()
        .map(|(old, new)| EditEntry { old_text: old.to_string(), new_text: new.to_string() })
        .collect()
}

fn params(path: &str, list: &[(&str, &str)]) -> EditParams {
    EditParams { path: path.to_string(), edits: entries(list) }
}

/// Edit a file that holds `content`; gives its new content and the report.
fn edit(content: &str, list: &[(&str, &str)]) -> Result<(String, EditOutput), String> {
    let (bytes, output) = run(&params("f.rs", list), Some(content.as_bytes().to_vec()))?;
    Ok((String::from_utf8(bytes).unwrap(), output))
}

fn edited(content: &str, list: &[(&str, &str)]) -> String {
    edit(content, list).unwrap().0
}

fn error(content: &str, list: &[(&str, &str)]) -> String {
    edit(content, list).unwrap_err()
}

fn chars(s: &str) -> Vec<char> {
    s.chars().collect()
}

#[test]
fn single_replacement_with_diff() {
    let (content, output) =
        edit("fn main() {\n    todo!()\n}\n", &[("todo!()", "unimplemented!()")]).unwrap();
    assert_eq!(output.replacements, 1);
    assert!(output.diff.contains("-    todo!()"));
    assert!(output.diff.contains("+    unimplemented!()"));
    assert_eq!(content, "fn main() {\n    unimplemented!()\n}\n");
    assert!(output.success);
    assert_eq!(output.path, "f.rs");
    assert_eq!(output.first_changed_line, Some(2));
    assert!(output.patch.contains("--- a/f.rs"));
    assert!(output.patch.contains("+++ b/f.rs"));
}

#[test]
fn diff_and_patch_are_unified() {
    let (_, output) = edit("1\n2\n3\n4\n5\n6\n7\n8\n9\n", &[("5\n", "five\n")]).unwrap();
    let hunk = "@@ -2,7 +2,7 @@\n 2\n 3\n 4\n-5\n+five\n 6\n 7\n 8\n";
    assert_eq!(output.diff, hunk);
    assert_eq!(output.patch, format!("--- a/f.rs\n+++ b/f.rs\n{hunk}"));
    assert_eq!(output.first_changed_line, Some(5));
}

#[test]
fn distant_changes_make_two_hunks() {
    let content: String = (1..=30).map(|i| format!("line {i}\n")).collect();
    let (_, output) = edit(&content, &[("line 2\n", "two\n"), ("line 29\n", "x\n")]).unwrap();
    assert_eq!(output.diff.matches("@@ -").count(), 2);
    assert_eq!(output.first_changed_line, Some(2));
    assert_eq!(output.patch.matches("--- a/f.rs").count(), 1);
}

#[test]
fn multiple_disjoint_replacements() {
    let (content, output) = edit(
        "const PORT: u16 = 3000;\n\nfn hello() {\n    println!(\"hello\");\n}\n\nfn goodbye() {\n    println!(\"bye\");\n}\n",
        &[
            ("const PORT: u16 = 3000;", "const PORT: u16 = 8080;"),
            ("println!(\"bye\");", "println!(\"goodbye\");"),
        ],
    )
    .unwrap();
    assert_eq!(output.replacements, 2);
    assert_eq!(
        content,
        "const PORT: u16 = 8080;\n\nfn hello() {\n    println!(\"hello\");\n}\n\nfn goodbye() {\n    println!(\"goodbye\");\n}\n"
    );
}

#[test]
fn all_edits_match_against_original_content() {
    // edit 1's newText introduces a second copy of edit 2's oldText; if
    // edits were applied sequentially, edit 2 would no longer be unique.
    assert_eq!(edited("X1 X2\n", &[("X1", "Q X2"), ("X2", "Z")]), "Q X2 Z\n");
}

#[test]
fn edits_may_be_listed_in_any_order() {
    let content = "alpha beta gamma delta\n";
    let forward = [("alpha", "a"), ("gamma", "ggg"), ("delta", "")];
    let backward = [("delta", ""), ("alpha", "a"), ("gamma", "ggg")];
    assert_eq!(edited(content, &forward), "a beta ggg \n");
    assert_eq!(edited(content, &forward), edited(content, &backward));
}

#[test]
fn adjacent_edits_do_not_overlap() {
    assert_eq!(edited("abcdef", &[("abc", "X"), ("def", "Y")]), "XY");
}

#[test]
fn not_found_messages() {
    assert_eq!(
        error("alpha\n", &[("delta", "x")]),
        "Could not find the text in f.rs.\nThe oldText must identify the intended text in the file."
    );
    assert_eq!(
        error("alpha\n", &[("alpha", "ok"), ("delta", "x")]),
        "Could not find edits[1] in f.rs.\nProvide a larger unique oldText block from the current file contents."
    );
}

#[test]
fn duplicate_match_message() {
    assert_eq!(
        error("ha ha ha\n", &[("ha", "x")]),
        "Found 3 occurrences of the text in f.rs.\nEach oldText must be unique. Please provide more context to make it unique."
    );
    let message = error("unique\nha ha ha ha\n", &[("unique", "u"), ("ha", "x")]);
    assert!(message.starts_with("Found 4 occurrences of edits[1] in f.rs."));
}

#[test]
fn empty_old_text_rejected() {
    assert_eq!(error("a\n", &[("", "x")]), "oldText must not be empty");
    assert_eq!(error("a\n", &[("a", "b"), ("", "x")]), "oldText must not be empty");
    assert_eq!(validate(&entries(&[("", "x")])).unwrap_err(), "oldText must not be empty");
    assert!(validate(&entries(&[("a", "")])).is_ok());
}

#[test]
fn no_edits_rejected() {
    assert_eq!(error("a\n", &[]), "edits must contain at least one replacement");
}

#[test]
fn no_op_replacement_rejected() {
    assert_eq!(
        error("same\n", &[("same", "same")]),
        "No changes made to f.rs.\nThe replacement produced identical content."
    );
}

#[test]
fn overlapping_edits_rejected_without_modification() {
    assert_eq!(
        error("abcdef\n", &[("abcd", "X"), ("cdef", "Y")]),
        "edits[0] and edits[1] overlap in f.rs.\nMerge them into one edit or target disjoint regions."
    );
    // The lower index is named first, whichever starts first.
    assert_eq!(
        error("abcdef\n", &[("cdef", "X"), ("abcd", "Y")]),
        "edits[0] and edits[1] overlap in f.rs.\nMerge them into one edit or target disjoint regions."
    );
    // The first pair in file order is reported.
    assert!(error("abcdef uvwxyz", &[("uvw", "1"), ("vwx", "2"), ("abc", "3"), ("bc", "4")])
        .starts_with("edits[2] and edits[3] overlap"));
    // The same region twice.
    assert!(error("abc", &[("abc", "1"), ("abc", "2")]).starts_with("edits[0] and edits[1]"));
}

#[test]
fn crlf_preserved_and_matched() {
    // oldText uses LF while the file uses CRLF: exact match fails,
    // normalized fallback finds it, and CRLF is preserved.
    assert_eq!(edited("a\r\nb\r\nc\r\n", &[("a\nb", "X\nY")]), "X\r\nY\r\nc\r\n");
    // Exact match with CRLF inside oldText also works.
    assert_eq!(edited("a\r\nb\r\n", &[("a\r\nb", "Z")]), "Z\r\n");
}

#[test]
fn bom_preserved() {
    // oldText without the BOM still matches.
    assert_eq!(
        edited("\u{FEFF}hello world\n", &[("hello", "goodbye")]),
        "\u{FEFF}goodbye world\n"
    );
}

#[test]
fn unicode_exact_match() {
    assert_eq!(
        edited("fn héllo() { 世界 }\n", &[("世界", "世界 🦀")]),
        "fn héllo() { 世界 🦀 }\n"
    );
}

#[test]
fn smart_quote_normalization() {
    assert_eq!(
        edited("print(‘hello’);\n", &[("print('hello');", "print(\"hi\");")]),
        "print(\"hi\");\n"
    );
}

#[test]
fn unicode_dash_normalization() {
    assert_eq!(edited("foo—bar\n", &[("foo-bar", "X")]), "X\n");
}

#[test]
fn trailing_whitespace_normalization() {
    assert_eq!(edited("hello   \nworld\n", &[("hello\n", "hi\n")]), "hi\nworld\n");
}

#[test]
fn special_space_normalization() {
    assert_eq!(edited("a\u{00A0}b\n", &[("a b", "X")]), "X\n");
}

#[test]
fn normalized_ambiguous_match_still_errors() {
    assert!(error("‘a’ ‘a’\n", &[("'a'", "x")]).starts_with("Found 2 occurrences"));
}

#[test]
fn compatibility_characters_match_their_expansion() {
    // One ligature stands for two letters: the whole character is replaced.
    assert_eq!(edited("de\u{FB01}ne it", &[("define", "DEFINE")]), "DEFINE it");
    assert_eq!(edited("a\u{FB01}b", &[("afi", "X")]), "Xb");
    assert_eq!(normalize_chars(&['\u{FB01}', '\u{2460}', 'x']), vec!['f', 'i', '1', 'x']);
}

#[test]
fn file_not_found_and_binary() {
    let list = [("a", "b")];
    assert_eq!(run(&params("nope.txt", &list), None).unwrap_err(), "File not found: nope.txt");
    let message = run(&params("blob.bin", &list), Some(vec![0u8, 1, 0, 2])).unwrap_err();
    assert_eq!(message, "blob.bin appears to be a binary file");
    let message = run(&params("latin.txt", &list), Some(vec![0x61, 0xE9, 0x62])).unwrap_err();
    assert_eq!(message, "latin.txt is not valid UTF-8 text");
    // A zero byte further on does not make a file binary.
    let mut bytes = vec![b'x'; 8192];
    bytes.push(0);
    bytes.extend(b"tail");
    let (new, _) = run(&params("f", &[("tail", "end")]), Some(bytes)).unwrap();
    assert!(new.ends_with(b"\0end"));
}

#[test]
fn concurrent_edits_same_file_no_lost_update() {
    // Edits take turns on a file: each one starts from what the last one left.
    let mut content: String = (1..=5).map(|i| format!("line{i}\n")).collect();
    for i in [3, 1, 5, 2, 4] {
        let entry = (format!("line{i}"), format!("line{i}-edited"));
        content = edited(&content, &[(&entry.0, &entry.1)]);
    }
    for i in 1..=5 {
        assert!(content.contains(&format!("line{i}-edited")), "{content}");
    }
}

#[test]
fn edit_keeps_what_it_does_not_name() {
    let content = "one two three four five";
    let new = edited(content, &[("two", "2"), ("four", "vier!")]);
    assert_eq!(new, "one 2 three vier! five");
    let refused = apply("f", &entries(&[("two", "2"), ("six", "6")]), content);
    assert!(refused.is_err());
}

#[test]
fn overlapping_places_are_several() {
    assert_eq!(find_unique_range(&chars("aaa"), &chars("aa")), Err(MatchError::Multiple(2)));
    assert_eq!(find_unique_range(&chars("aaaa"), &chars("aa")), Err(MatchError::Multiple(3)));
    assert_eq!(find_unique_range(&chars("aab"), &chars("aa")), Ok((0, 2)));
    assert_eq!(find_all_char_positions(&chars("aaaa"), &chars("aa")), vec![0, 1, 2]);
    assert_eq!(find_all_char_positions(&chars("abc"), &chars("")), Vec::<usize>::new());
    assert_eq!(find_all_char_positions(&chars("a"), &chars("ab")), Vec::<usize>::new());
}

#[test]
fn line_ends_normalize_to_line_feeds() {
    let text = "a \tb\n\nc\t \n d \t";
    let normal = normalize_chars(&chars(text));
    assert_eq!(normal, chars("a  b\n\nc\n d"));
    for mark in ["\r\n", "\r", " \t\n"] {
        assert_eq!(normalize_chars(&chars(&text.replace('\n', mark))), normal);
    }
    assert_eq!(normalize_chars(&normal), normal);
}

#[test]
fn located_part_normalizes_to_the_searched_text() {
    let content = chars("if (a)  \r\n\tb = “x” ;\r\nend\t");
    for (old, part) in [
        ("(a)\n b = \"x\" ;\n", (3, 22)),
        ("\n", (0, 0)),
        (" b =\t\"x\"", (10, 18)),
        ("end \t", (22, 25)),
    ] {
        match find_unique_range(&content, &chars(old)) {
            Ok((from, to)) => {
                assert_eq!((from, to), part, "{old:?}");
                assert_eq!(
                    normalize_chars(&content[from..to]),
                    normalize_chars(&chars(old))
                );
            }
            Err(_) => assert_eq!(part, (0, 0), "{old:?}"),
        }
    }
}

#[test]
fn different_lines_are_counted() {
    let count = |old: &str, new: &str| count_different_lines(&chars(old), &chars(new));
    assert_eq!(count("", ""), 0);
    assert_eq!(count("a\nb\na\n", "b\nc"), 3);
    assert_eq!(count("a\ra\r\na\na", ""), 4);
    assert_eq!(count("\r\r\n\n", "\n"), 3);
    assert!(can_diff("a\nb\n", ""));
}

#[test]
fn blanks_alone_are_not_found() {
    // Nothing is left of blanks after normalization.
    assert_eq!(find_unique_range(&chars("a\tb"), &chars(" ")), Err(MatchError::NotFound));
}

#[test]
fn normalized_text_points_back() {
    let original = chars("a  \r\nb\u{00A0}\u{2014}c \t");
    let normalized = NormalizedText::new(&original);
    assert_eq!(normalized.chars, chars("a\nb -c"));
    assert_eq!(normalized.map, vec![(0, 1), (1, 5), (5, 6), (6, 7), (7, 8), (8, 9)]);
    assert_eq!(normalized.original_range(0, 2), (0, 5));
    assert_eq!(find_normalized(&normalized, &chars("b -")), Ok((5, 8)));
    assert_eq!(find_normalized(&normalized, &chars("z")), Err(MatchError::NotFound));
}

#[test]
fn given_expansions_are_used_beyond_ascii() {
    let original = ['a', 'Ω', '—', 'b'];
    let expansions = vec![vec!['?'], vec!['o', 'h', 'm'], vec!['?'], vec!['?']];
    let normalized = NormalizedText::with_expansions(&original, &expansions);
    assert_eq!(normalized.chars, chars("aohm-b"));
    assert_eq!(find_normalized(&normalized, &chars("hm-")), Ok((1, 3)));
    assert_eq!(find_normalized(&normalized, &chars("ohm")), Ok((1, 2)));
}

#[test]
fn line_breaks_collapse() {
    assert_eq!(normalize_chars(&chars("a\r\nb\rc\r\r\nd\n\ne")), chars("a\nb\nc\n\nd\n\ne"));
    assert_eq!(normalize_chars(&chars("\t x\t\n")), chars("  x\n"));
}

#[test]
fn mapped_characters() {
    for c in "‘’‚‛".chars() {
        assert_eq!(map_char(c), '\'');
    }
    for c in "“”„‟".chars() {
        assert_eq!(map_char(c), '"');
    }
    for c in "‐‑‒–—―−﹘﹣－".chars() {
        assert_eq!(map_char(c), '-');
    }
    for c in "\u{A0}\u{2000}\u{2007}\u{200A}\u{202F}\u{205F}\u{3000}".chars() {
        assert_eq!(map_char(c), ' ');
    }
    for c in ['a', '\'', '\u{200B}', '\u{2016}', '世', '\n'] {
        assert_eq!(map_char(c), c);
    }
}

#[test]
fn the_report_is_made_of_the_diff() {
    let ops = [(Change::Equal, 0), (Change::Delete, 4), (Change::Equal, 4), (Change::Insert, 9)];
    assert_eq!(first_changed_line(&ops), Some(5));
    assert_eq!(first_changed_line(&ops[..1]), None);
    assert_eq!(first_changed_line(&[(Change::Replace, 0)]), Some(1));
    let hunks = vec!["one".to_string(), "two".to_string()];
    assert_eq!(join_hunks(&hunks), "onetwo");
    let output = report("p", 2, &ops, &hunks, "patch".to_string());
    assert!(output.success);
    assert_eq!((output.path.as_str(), output.replacements), ("p", 2));
    assert_eq!((output.diff.as_str(), output.patch.as_str()), ("onetwo", "patch"));
    assert_eq!(output.first_changed_line, Some(5));
}
