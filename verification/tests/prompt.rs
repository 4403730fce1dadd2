use tapir_code::prompt::{
    assemble_prompt, build_system_prompt, expand_tilde, inline_file_contents, split_positionals,
    strip_bom,
};

#[test]
fn splits_files_from_message_words() {
    let args = [
        "@main.rs".to_string(),
        "where".to_string(),
        "is".to_string(),
        "@lib.rs".to_string(),
        "the bug?".to_string(),
    ];
    let split = split_positionals(&args);
    assert_eq!(split.files, ["main.rs", "lib.rs"]);
    assert_eq!(split.message, "where is the bug?");
}

#[test]
fn split_with_no_files_is_just_the_message() {
    let args = ["explain".to_string(), "this".to_string()];
    let split = split_positionals(&args);
    assert!(split.files.is_empty());
    assert_eq!(split.message, "explain this");
}

#[test]
fn build_system_prompt_joins_base_and_appends() {
    let out = build_system_prompt(Some("base"), &["one".to_string(), "two".to_string()]);
    assert_eq!(out.as_deref(), Some("base\n\none\n\ntwo"));
}

#[test]
fn build_system_prompt_is_none_when_empty() {
    assert_eq!(build_system_prompt(None, &[]), None);
}

#[test]
fn assemble_orders_stdin_then_files_then_message() {
    let out = assemble_prompt(
        Some("piped\n"),
        "<file name=\"a\">\nx\n</file>\n",
        "the question",
    );
    assert_eq!(out, "piped\n\n<file name=\"a\">\nx\n</file>\n\nthe question");
}

#[test]
fn assemble_drops_empty_segments() {
    assert_eq!(assemble_prompt(None, "", "only message"), "only message");
    assert_eq!(assemble_prompt(Some("  "), "", ""), "");
}

#[test]
fn split_keeps_a_lone_at_sign_as_an_empty_path() {
    let args = ["@".to_string(), "hi".to_string()];
    let split = split_positionals(&args);
    assert_eq!(split.files, [""]);
    assert_eq!(split.message, "hi");
}

#[test]
fn split_of_nothing_is_empty() {
    let split = split_positionals(&[]);
    assert!(split.files.is_empty());
    assert_eq!(split.message, "");
}

#[test]
fn build_system_prompt_with_only_appends() {
    let out = build_system_prompt(None, &["a".to_string()]);
    assert_eq!(out.as_deref(), Some("a"));
    let out = build_system_prompt(Some(""), &[]);
    assert_eq!(out.as_deref(), Some(""));
}

#[test]
fn strip_bom_removes_only_a_leading_mark() {
    assert_eq!(strip_bom("\u{feff}from file"), "from file");
    assert_eq!(strip_bom("plain"), "plain");
    assert_eq!(strip_bom("a\u{feff}b"), "a\u{feff}b");
    assert_eq!(strip_bom(""), "");
}

#[test]
fn expand_tilde_uses_the_home_directory() {
    assert_eq!(expand_tilde("~/notes.txt", Some("/home/me")), "/home/me/notes.txt");
    assert_eq!(expand_tilde("~/notes.txt", Some("/home/me/")), "/home/me/notes.txt");
    assert_eq!(expand_tilde("~/notes.txt", None), "~/notes.txt");
    assert_eq!(expand_tilde("~notes", Some("/home/me")), "~notes");
    assert_eq!(expand_tilde("/etc/x", Some("/home/me")), "/etc/x");
}

#[test]
fn inline_file_contents_wraps_and_skips_blank_files() {
    let paths = ["/w/a.txt".to_string(), "/w/b.txt".to_string()];
    let contents = ["hello".to_string(), "   \n".to_string()];
    let out = inline_file_contents(&paths, &contents);
    assert_eq!(out, "<file name=\"/w/a.txt\">\nhello\n</file>\n");
}

#[test]
fn inline_file_contents_strips_a_bom_and_keeps_order() {
    let paths = ["x".to_string(), "y".to_string()];
    let contents = ["\u{feff}one".to_string(), "two\n".to_string()];
    let out = inline_file_contents(&paths, &contents);
    assert_eq!(
        out,
        "<file name=\"x\">\none\n</file>\n<file name=\"y\">\ntwo\n\n</file>\n"
    );
    let out = inline_file_contents(&["z".to_string()], &["\u{feff}  ".to_string()]);
    assert_eq!(out, "");
}

#[test]
fn assemble_trims_stdin_and_files_but_not_the_message() {
    let out = assemble_prompt(Some("\u{3000} in \t"), "\n blk \n", " msg ");
    assert_eq!(out, "in\n\nblk\n\n msg ");
    assert_eq!(assemble_prompt(Some("s"), "", ""), "s");
}
