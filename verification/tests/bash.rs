use mcpod::process::process_group::{exit_code_of, GroupChild};
use mcpod::tools::append_note;
use mcpod::tools::bash::{
    failure_message, log_failure_message, log_for, log_path, merge, needs_log, run, stream_view, Chunk,
    Ending, Failure,
};
use mcpod::tools::BashOutput;

fn chunk(seq: u64, stderr: bool, text: &str) -> Chunk {
    Chunk { seq, stderr, bytes: text.as_bytes().to_vec() }
}

fn finish(chunks: &[Chunk], ending: Ending) -> BashOutput {
    let merged = merge(chunks);
    let log = log_for(&merged.combined, "0123abcd");
    assert_eq!(log, needs_log(&merged.combined).then(|| log_path("0123abcd")));
    run(&merged, ending, log)
}

fn exited(stdout: &str, code: i32) -> BashOutput {
    finish(&[chunk(0, false, stdout)], Ending::Exited(code))
}

#[test]
fn echo_hello_exit_code_stdout_stderr() {
    let result =
        finish(&[chunk(0, false, "hello\n"), chunk(1, true, "oops\n")], Ending::Exited(3));
    assert_eq!(result.exit_code, 3);
    assert_eq!(result.stdout.trim(), "hello");
    assert_eq!(result.stderr.trim(), "oops");
    assert_eq!(result.output, "hello\noops\n\nCommand exited with code 3");
    assert_eq!(result.timed_out, None);
    assert_eq!(result.full_output_log, None);
}

#[test]
fn no_output_success() {
    let result = finish(&[], Ending::Exited(0));
    assert_eq!(result.exit_code, 0);
    assert_eq!(result.output, "(no output)");
    assert_eq!((result.stdout.as_str(), result.stderr.as_str()), ("", ""));
}

#[test]
fn no_output_failure_keeps_message() {
    let result = finish(&[], Ending::Exited(7));
    assert_eq!(result.output, "Command exited with code 7");
    assert_eq!(result.exit_code, 7);
    assert_eq!(exited("", -1).output, "Command exited with code -1");
    assert_eq!(exited("", i32::MIN).output, format!("Command exited with code {}", i32::MIN));
}

#[test]
fn combined_output_in_arrival_order() {
    // The pieces are listed by stream; their numbers say when they came.
    let chunks = [
        chunk(0, false, "out1\n"),
        chunk(5, false, "out2\n"),
        chunk(3, true, "err1\n"),
        chunk(9, true, "err2\n"),
    ];
    let result = finish(&chunks, Ending::Exited(0));
    assert_eq!(result.output, "out1\nerr1\nout2\nerr2\n");
    assert_eq!(result.stdout, "out1\nout2\n");
    assert_eq!(result.stderr, "err1\nerr2\n");
    let merged = merge(&chunks);
    assert_eq!(merged.bytes, b"out1\nerr1\nout2\nerr2\n");
    assert_eq!(merged.bytes.len(), merged.stdout.len() + merged.stderr.len());
}

#[test]
fn line_tail_truncation_saves_full_output() {
    let all: String = (1..=30000).map(|i| format!("{i}\n")).collect();
    let result = exited(&all, 0);
    let text = &result.output;
    assert!(text.contains(
        "[Showing lines 28001-30000 of 30000. Full output: /tmp/mcpod-bash-0123abcd.log]"
    ));
    assert!(text.contains("30000\n"));
    assert!(!text.contains("\n1\n2\n3\n"));
    assert_eq!(result.full_output_log.as_deref(), Some("/tmp/mcpod-bash-0123abcd.log"));
    assert!(result.stdout.ends_with("30000\n\n[...truncated]"));
    assert_eq!(merge(&[chunk(0, false, &all)]).bytes, all.as_bytes());
}

#[test]
fn byte_tail_truncation_on_giant_last_line() {
    // One 60000-byte line of 'é' (2 bytes each), no trailing newline.
    let result = exited(&"é".repeat(30000), 0);
    assert!(result
        .output
        .contains("[Showing lines 1-1 of 1 (50.0KB limit). Full output: /tmp/mcpod-bash-"));
    let kept = result.output.chars().filter(|c| *c == 'é').count();
    assert!((25590..=25610).contains(&kept), "kept {kept} é chars");
}

#[test]
fn without_a_log_the_note_names_none() {
    let merged = merge(&[chunk(0, false, &"x\n".repeat(2001))]);
    assert!(needs_log(&merged.combined));
    let result = run(&merged, Ending::Exited(0), None);
    assert!(result.output.ends_with("x\n\n[Showing lines 2-2001 of 2001.]"));
}

#[test]
fn timeout_preserves_partial_output() {
    let result = finish(
        &[chunk(0, false, "starting\ntest1\n")],
        Ending::TimedOut("2".to_string()),
    );
    assert_eq!(result.output, "starting\ntest1\n\nCommand timed out after 2 seconds");
    assert_eq!(result.exit_code, 124);
    assert_eq!(result.timed_out, Some(true));
}

#[test]
fn fractional_timeout_message() {
    let result = finish(&[], Ending::TimedOut("0.5".to_string()));
    assert_eq!(result.output, "Command timed out after 0.5 seconds");
}

#[test]
fn no_timeout_runs_to_completion() {
    let result = exited("done\n", 0);
    assert_eq!((result.exit_code, result.output.as_str()), (0, "done\n"));
}

#[test]
fn bytes_that_are_no_text_are_replaced() {
    let chunks = [Chunk { seq: 0, stderr: false, bytes: vec![b'a', 0xFF, b'b'] }];
    let merged = merge(&chunks);
    assert_eq!(merged.combined, "a\u{FFFD}b");
    assert_eq!(merged.stdout, "a\u{FFFD}b");
    assert_eq!(merged.bytes, vec![b'a', 0xFF, b'b']);
    // A character that arrives in two pieces is put together again.
    let halves = [
        Chunk { seq: 1, stderr: false, bytes: vec![0xA9] },
        Chunk { seq: 0, stderr: false, bytes: vec![0xC3] },
    ];
    assert_eq!(merge(&halves).combined, "é");
}

#[test]
fn a_stream_is_shown_from_its_end() {
    assert_eq!(stream_view("short\n"), "short\n");
    assert_eq!(stream_view(""), "");
    let long = "y\n".repeat(2500);
    assert_eq!(stream_view(&long), format!("{}\n[...truncated]", "y\n".repeat(2000)));
    assert!(!needs_log("short"));
    assert!(needs_log(&long));
}

#[test]
fn notes_follow_a_blank_line() {
    let mut text = "out\r\n\n".to_string();
    append_note(&mut text, "note".to_string());
    assert_eq!(text, "out\n\nnote");
    let mut blank = " \n\t\u{3000}".to_string();
    append_note(&mut blank, "note".to_string());
    assert_eq!(blank, "note");
    let mut empty = String::new();
    append_note(&mut empty, "note".to_string());
    assert_eq!(empty, "note");
}

#[test]
fn failures_in_words() {
    assert_eq!(failure_message(Failure::Spawn, "e"), "failed to spawn /bin/bash: e");
    assert_eq!(failure_message(Failure::Wait, "e"), "failed to wait for bash: e");
    assert_eq!(failure_message(Failure::Kill, "e"), "failed to kill process group: e");
    assert_eq!(
        log_failure_message("/tmp/x.log", "full"),
        "failed to save full output to /tmp/x.log: full"
    );
}

#[test]
fn waits_and_disarms() {
    let mut child = GroupChild::new(Some(42));
    assert!(!child.defused);
    assert_eq!(child.group_to_kill(), Some(42));
    child.reaped();
    assert!(child.defused);
    assert_eq!(child.group_to_kill(), None);
    assert_eq!(GroupChild::new(None).group_to_kill(), None);
}

#[test]
fn exit_codes() {
    assert_eq!(exit_code_of(Some(0), None), 0);
    assert_eq!(exit_code_of(Some(3), Some(9)), 3);
    assert_eq!(exit_code_of(None, Some(9)), 137);
    assert_eq!(exit_code_of(None, None), -1);
}
