use mcpod::chars::is_whitespace;
use mcpod::server::{
    bash_reply, check_resource, edit_reply, list_tools, log_clip, read_reply, tool_error,
    write_reply,
};
use mcpod::tools::write::{commit_failure_message, parent_failure_message, run};
use mcpod::tools::{BashOutput, EditOutput, ReadOutput, WriteParams};
use mcpod::util::{hex_of, random_hex};

#[test]
fn log_clip_truncates_long_subjects() {
    assert_eq!(log_clip("short"), "short");
    let long = "x".repeat(400);
    assert_eq!(log_clip(&long).chars().count(), 301); // 300 chars + ellipsis
}

#[test]
fn log_clip_cuts_between_characters() {
    assert_eq!(log_clip(&"é".repeat(150)), "é".repeat(150));
    assert_eq!(log_clip(&"é".repeat(151)), format!("{}…", "é".repeat(150)));
    assert_eq!(log_clip(&"世".repeat(101)), format!("{}…", "世".repeat(100)));
    let mixed = format!("x{}", "世".repeat(100));
    assert_eq!(log_clip(&mixed), format!("x{}…", "世".repeat(99)));
    assert_eq!(log_clip(""), "");
}

fn bash_output(exit_code: i32, timed_out: Option<bool>) -> BashOutput {
    BashOutput {
        exit_code,
        output: "out".to_string(),
        stdout: String::new(),
        stderr: String::new(),
        full_output_log: None,
        timed_out,
    }
}

#[test]
fn failed_commands_are_errors() {
    assert!(!bash_reply(&bash_output(0, None)).is_error);
    assert!(!bash_reply(&bash_output(0, Some(false))).is_error);
    assert!(bash_reply(&bash_output(1, None)).is_error);
    assert!(bash_reply(&bash_output(-1, None)).is_error);
    assert!(bash_reply(&bash_output(0, Some(true))).is_error);
    assert_eq!(bash_reply(&bash_output(124, Some(true))).text, "out");
}

#[test]
fn replies_in_words() {
    let edit = EditOutput {
        success: true,
        path: "src/a.rs".to_string(),
        replacements: 12,
        first_changed_line: None,
        diff: String::new(),
        patch: String::new(),
    };
    let reply = edit_reply(&edit);
    assert_eq!(reply.text, "Successfully replaced 12 block(s) in src/a.rs.");
    assert!(!reply.is_error);
    let read = ReadOutput {
        path: "p".to_string(),
        content: "text".to_string(),
        start_line: None,
        end_line: None,
        total_lines: None,
        image_mime_type: None,
    };
    assert_eq!(read_reply(&read).text, "text");
    let error = tool_error("went wrong".to_string());
    assert_eq!((error.text.as_str(), error.is_error), ("went wrong", true));
}

fn write(path: &str, content: &str) -> (Vec<u8>, String) {
    let params = WriteParams { path: path.to_string(), content: content.to_string() };
    let (bytes, output) = run(&params);
    assert!(output.success);
    assert_eq!(output.path, path);
    assert_eq!(output.bytes, content.len());
    (bytes, write_reply(&output).text)
}

#[test]
fn creates_and_overwrites() {
    assert_eq!(
        write("src/deep/nested/new.txt", "first"),
        (
            b"first".to_vec(),
            "Successfully wrote 5 bytes to src/deep/nested/new.txt".to_string()
        )
    );
    assert_eq!(write("src/deep/nested/new.txt", "second edition").0, b"second edition");
}

#[test]
fn empty_and_unicode_content() {
    assert_eq!(write("empty.txt", "").0, b"");
    let content = "héllo → 世界 🦀";
    assert_eq!(write("uni.txt", content).0, content.as_bytes());
    assert_eq!(write("u", "é").1, "Successfully wrote 2 bytes to u");
}

#[test]
fn write_failures() {
    assert_eq!(
        parent_failure_message("a/b", "denied"),
        "failed to create parent directory for a/b: denied"
    );
    assert_eq!(commit_failure_message("a/b", "full"), "failed to write a/b: full");
}

#[test]
fn tools_come_in_a_fixed_order() {
    let list = |names: &[&str]| {
        let names: Vec<String> = names.iter().map(|n| n.to_string()).collect();
        let order = list_tools(&names);
        order.into_iter().map(|i| names[i].clone()).collect::<Vec<_>>()
    };
    assert_eq!(list(&["bash", "edit", "read", "write"]), ["read", "bash", "edit", "write"]);
    assert_eq!(list(&["zip", "write", "apt", "read"]), ["read", "write", "zip", "apt"]);
    assert!(list(&[]).is_empty());
}

#[test]
fn one_resource_is_known() {
    assert!(check_resource("resource://environment").is_ok());
    assert_eq!(
        check_resource("resource://other").unwrap_err(),
        "unknown resource: resource://other"
    );
}

#[test]
fn produces_distinct_hex_strings() {
    let a = random_hex(4, Some(&[0xDE, 0xAD, 0x00, 0x0F]), 0, 0);
    let b = random_hex(4, Some(&[0xDE, 0xAD, 0x00, 0x1F]), 0, 0);
    assert_eq!(a.len(), 8);
    assert_eq!(a, "dead000f");
    assert!(a.chars().all(|c| c.is_ascii_hexdigit()));
    assert_ne!(a, b);
    assert_eq!(hex_of(&[]), "");
}

#[test]
fn names_from_the_clock() {
    for (nanos, counter) in
        [(0u64, 0u64), (1, 0), (0x1234_5678_9abc_def0, 0), (77, 1), (u64::MAX, 3), (5, u64::MAX)]
    {
        for byte_len in [0usize, 1, 4, 8, 20] {
            let n = nanos ^ counter.wrapping_mul(0x9E37_79B9_7F4A_7C15);
            // Two digits per byte: the lowest ones.
            let all = format!("{n:016x}");
            let name = random_hex(byte_len, None, nanos, counter);
            assert_eq!(name, all[16 - byte_len.min(8) * 2..]);
        }
    }
}

#[test]
fn whitespace_is_that_of_unicode() {
    for v in 0..0x11_0000u32 {
        if let Some(c) = char::from_u32(v) {
            assert_eq!(is_whitespace(c), c.is_whitespace(), "{v:x}");
        }
    }
}
