use tapir_code::tools::bash::{
    bash_result, combine, combine_text, or_no_output_note, report, timeout_secs, truncate_tail,
    BashArgs, Outcome, DEFAULT_TIMEOUT_SECS, MAX_BYTES,
};

#[test]
fn timeout_defaults_to_two_minutes() {
    let args = BashArgs {
        command: "ls".to_string(),
        timeout_seconds: None,
    };
    assert_eq!(timeout_secs(&args), DEFAULT_TIMEOUT_SECS);
    assert_eq!(DEFAULT_TIMEOUT_SECS, 120);
    let args = BashArgs {
        command: "ls".to_string(),
        timeout_seconds: Some(5),
    };
    assert_eq!(timeout_secs(&args), 5);
}

#[test]
fn combines_stdout_then_stderr() {
    assert_eq!(combine(b"out", b"err\n"), "out\nerr\n");
    assert_eq!(combine(b"out\n", b"err\n"), "out\nerr\n");
    assert_eq!(combine(b"", b"err"), "err");
    assert_eq!(combine(b"out", b""), "out");
    assert_eq!(combine(b"a\xffb", b""), "a\u{fffd}b");
}

#[test]
fn short_output_passes_through() {
    assert_eq!(truncate_tail("hello\n"), "hello\n");
    assert_eq!(truncate_tail("a\r\nb"), "a\nb");
    assert_eq!(truncate_tail(""), "");
    assert_eq!(truncate_tail("\n"), "");
}

#[test]
fn keeps_the_tail_of_many_lines() {
    let text: String = (1..=3000).map(|i| format!("{i}\n")).collect();
    let out = truncate_tail(&text);
    assert!(out.starts_with("[truncated: showing the tail of the output]\n"));
    assert!(out.contains("\n3000\n"));
    assert!(!out.contains("\n1\n"));
    assert!(out.starts_with("[truncated: showing the tail of the output]\n1001\n"));
}

#[test]
fn keeps_the_tail_within_the_byte_ceiling() {
    let line = "x".repeat(2000);
    let text: String = (1..=300).map(|i| format!("{i} {line}\n")).collect();
    let out = truncate_tail(&text);
    assert!(out.starts_with("[truncated: showing the tail of the output]\n"));
    assert!(out.len() <= MAX_BYTES + 64);
    assert!(out.contains("300 "));
    assert!(out.ends_with("x\n"));
}

#[test]
fn notes_empty_output() {
    assert_eq!(or_no_output_note(String::new()), "(command produced no output)");
    assert_eq!(or_no_output_note("x".to_string()), "x");
}

#[test]
fn reports_each_way_a_command_ends() {
    assert_eq!(bash_result(Outcome::Exited(Some(0)), 120, b"hello\n", b""), Ok("hello\n".to_string()));
    assert_eq!(
        bash_result(Outcome::Exited(Some(0)), 120, b"", b""),
        Ok("(command produced no output)".to_string())
    );
    assert_eq!(
        bash_result(Outcome::Exited(Some(3)), 120, b"", b"oops\n"),
        Err("command exited with status 3\noops\n".to_string())
    );
    assert_eq!(
        bash_result(Outcome::Exited(Some(-2)), 120, b"", b""),
        Err("command exited with status -2\n".to_string())
    );
    assert_eq!(
        bash_result(Outcome::Exited(None), 120, b"x", b""),
        Err("command exited with status signal\nx".to_string())
    );
    assert_eq!(
        bash_result(Outcome::TimedOut, 1, b"", b""),
        Err("command timed out after 1s and its process group was killed\n".to_string())
    );
    assert_eq!(
        bash_result(Outcome::Cancelled, 1, b"part", b""),
        Err("command was cancelled\npart".to_string())
    );
}

#[test]
fn combines_decoded_text() {
    assert_eq!(combine_text("a".to_string(), "b"), "a\nb");
    assert_eq!(combine_text("a\n".to_string(), "b"), "a\nb");
    assert_eq!(combine_text(String::new(), ""), "");
    assert_eq!(combine_text("\u{fffd}".to_string(), ""), "\u{fffd}");
}

#[test]
fn reports_a_truncated_body() {
    assert_eq!(report(Outcome::Exited(Some(0)), 9, "ok\n".to_string()), Ok("ok\n".to_string()));
    assert_eq!(
        report(Outcome::Exited(Some(0)), 9, String::new()),
        Ok("(command produced no output)".to_string())
    );
    assert_eq!(
        report(Outcome::Exited(Some(1)), 9, "no\n".to_string()),
        Err("command exited with status 1\nno\n".to_string())
    );
    assert_eq!(
        report(Outcome::TimedOut, 30, String::new()),
        Err("command timed out after 30s and its process group was killed\n".to_string())
    );
}

#[test]
fn valid_output_decodes_exactly() {
    assert_eq!(combine("héllo\n".as_bytes(), "".as_bytes()), "héllo\n");
    assert_eq!(
        bash_result(Outcome::Exited(Some(0)), 120, "ünïcode\n".as_bytes(), b"warn\n"),
        Ok("ünïcode\nwarn\n".to_string())
    );
}
