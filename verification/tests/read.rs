use tapir_code::tools::read::{read_text, ReadArgs, ReadError, MAX_BYTES, MAX_LINES};

fn args(path: &str, offset: Option<usize>, limit: Option<usize>) -> ReadArgs {
    ReadArgs {
        path: path.to_string(),
        offset,
        limit,
    }
}

#[test]
fn renders_a_whole_small_text() {
    let out = read_text(&args("f.txt", None, None), b"one\ntwo\nthree\n").unwrap();
    assert_eq!(out, "one\ntwo\nthree\n");
    let out = read_text(&args("f.txt", None, None), b"no newline").unwrap();
    assert_eq!(out, "no newline\n");
    let out = read_text(&args("f.txt", None, None), b"").unwrap();
    assert_eq!(out, "");
}

#[test]
fn slices_by_offset_and_limit() {
    let out = read_text(&args("f.txt", Some(2), Some(2)), b"a\nb\nc\nd\ne\n").unwrap();
    assert_eq!(out, "b\nc\n");
    let out = read_text(&args("f.txt", Some(0), Some(1)), b"a\nb\n").unwrap();
    assert_eq!(out, "a\n");
    let out = read_text(&args("f.txt", Some(2), Some(99)), b"a\r\nb\r\nc").unwrap();
    assert_eq!(out, "b\nc\n");
    let out = read_text(&args("f.txt", Some(3), None), b"a\nb\n").unwrap();
    assert_eq!(out, "");
}

#[test]
fn truncates_at_the_line_ceiling_with_a_notice() {
    let body: String = (0..MAX_LINES + 500).map(|i| format!("line{i}\n")).collect();
    let out = read_text(&args("big.txt", None, None), body.as_bytes()).unwrap();
    assert!(out.contains(&format!("truncated after {MAX_LINES} lines")));
    assert!(out.contains(&format!("continue with offset {}", MAX_LINES + 1)));
    assert!(out.starts_with("line0\nline1\n"));
    assert!(out.ends_with("\n[truncated after 2000 lines; continue with offset 2001]\n"));
    let out = read_text(&args("big.txt", Some(11), None), body.as_bytes()).unwrap();
    assert!(out.starts_with("line10\n"));
    assert!(out.ends_with("continue with offset 2011]\n"));
}

#[test]
fn refuses_an_offset_past_the_end() {
    let err = read_text(&args("f.txt", Some(99), None), b"a\nb\n").unwrap_err();
    assert_eq!(err, ReadError::OffsetPastEnd { offset: 99, lines: 2 });
    assert_eq!(err.message("f.txt"), "offset 99 is past the end of `f.txt` (2 lines)");
    assert!(err.message("f.txt").contains("past the end"));
}

#[test]
fn notes_binary_contents() {
    let out = read_text(&args("b.bin", None, None), &[0u8, 1, 2, 3]).unwrap();
    assert!(out.contains("not a UTF-8 text file"));
    assert_eq!(out, "`b.bin` is not a UTF-8 text file (4 bytes); not shown.");
}

#[test]
fn notes_non_utf8_contents() {
    let out = read_text(&args("l.txt", None, None), &[b'h', b'i', 0xFF]).unwrap();
    assert_eq!(out, "`l.txt` is not UTF-8 text; not shown.");
}

#[test]
fn a_nul_past_the_sniffed_head_is_not_binary() {
    let mut bytes = vec![b'a'; 9000];
    bytes[8500] = 0;
    let out = read_text(&args("n.txt", None, None), &bytes).unwrap();
    assert!(out.ends_with("\n"));
    assert!(!out.contains("not a UTF-8 text file"));
}

#[test]
fn cuts_a_single_oversized_line_and_advances() {
    let giant = "a".repeat(MAX_BYTES * 2);
    let out = read_text(&args("one.txt", None, None), giant.as_bytes()).unwrap();
    assert!(out.contains("truncated after 1 lines"));
    assert!(out.contains("continue with offset 2"));
    assert!(out.len() < giant.len());
    assert!(out.starts_with(&"a".repeat(MAX_BYTES - 1)));
    assert_eq!(out.len(), MAX_BYTES + "\n[truncated after 1 lines; continue with offset 2]\n".len());
}

#[test]
fn cuts_an_oversized_line_on_a_character_boundary() {
    // Three-byte characters: the cut keeps whole characters only.
    let giant = "é€".repeat(MAX_BYTES);
    let out = read_text(&args("u.txt", None, None), giant.as_bytes()).unwrap();
    let shown = out.split('\n').next().unwrap();
    assert!(shown.len() <= MAX_BYTES - 1);
    assert!(shown.len() > MAX_BYTES - 6);
}

#[test]
fn stops_at_the_byte_ceiling_between_lines() {
    let line = "b".repeat(1000);
    let body: String = (0..300).map(|_| format!("{line}\n")).collect();
    let out = read_text(&args("w.txt", None, None), body.as_bytes()).unwrap();
    // 261 lines of 1001 bytes fit in 256 KiB; the 262nd does not.
    assert!(out.ends_with("\n[truncated after 261 lines; continue with offset 262]\n"));
}

#[test]
fn following_the_notice_skips_and_repeats_nothing() {
    let text: String = (1..=4500).map(|i| format!("line {i}\n")).collect();
    let first = read_text(&args("f.txt", Some(3), None), text.as_bytes()).unwrap();
    assert!(first.starts_with("line 3\n"));
    assert!(first.ends_with("line 2002\n\n[truncated after 2000 lines; continue with offset 2003]\n"));
    let second = read_text(&args("f.txt", Some(2003), None), text.as_bytes()).unwrap();
    assert!(second.starts_with("line 2003\n"));
    assert!(second.ends_with("line 4002\n\n[truncated after 2000 lines; continue with offset 4003]\n"));
    let third = read_text(&args("f.txt", Some(4003), None), text.as_bytes()).unwrap();
    assert!(third.starts_with("line 4003\n"));
    assert!(third.ends_with("line 4500\n"));
    assert_eq!(MAX_LINES, 2000);
}
