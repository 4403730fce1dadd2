use tapir_code::tools::edit::{
    apply_edits, edit_summary, require_edits, translate, EditBlock, EditError,
};

fn block(old: &str, new: &str) -> EditBlock {
    EditBlock {
        old_text: old.to_string(),
        new_text: new.to_string(),
    }
}

#[test]
fn applies_one_unique_replacement() {
    let out = apply_edits("hello world\n", &[block("world", "there")]).unwrap();
    assert_eq!(out, "hello there\n");
    assert_eq!(edit_summary(1, "f.txt"), "applied 1 edit to `f.txt`");
}

#[test]
fn applies_several_blocks_against_the_original() {
    let out = apply_edits(
        "alpha\nbeta\ngamma\n",
        &[block("gamma", "GAMMA"), block("alpha", "ALPHA")],
    )
    .unwrap();
    assert_eq!(out, "ALPHA\nbeta\nGAMMA\n");
    assert_eq!(edit_summary(2, "f.txt"), "applied 2 edits to `f.txt`");
}

#[test]
fn blocks_do_not_see_each_others_replacements() {
    // The second block's text only exists after the first applies; matching
    // against the original contents refuses it.
    let err = apply_edits("a b\n", &[block("a", "c"), block("c", "d")]).unwrap_err();
    assert_eq!(err, EditError::NotFound(2));
}

#[test]
fn refuses_an_ambiguous_text() {
    let err = apply_edits("x\nx\n", &[block("x", "y")]).unwrap_err();
    assert_eq!(err, EditError::Ambiguous(1));
    assert!(err.message("f.txt").contains("more than once"));
    assert_eq!(
        err.message("f.txt"),
        "edit 1: old_text matches more than once in `f.txt`; provide more surrounding context to make it unique"
    );
}

#[test]
fn overlapping_occurrences_are_ambiguous() {
    // "aa" occurs twice in "aaa", at 0 and at 1.
    let err = apply_edits("aaa", &[block("aa", "b")]).unwrap_err();
    assert_eq!(err, EditError::Ambiguous(1));
    assert_eq!(apply_edits("aab", &[block("aa", "c")]).unwrap(), "cb");
}

#[test]
fn refuses_a_missing_text() {
    let err = apply_edits("hello\n", &[block("goodbye", "hi")]).unwrap_err();
    assert_eq!(err, EditError::NotFound(1));
    assert_eq!(
        err.message("f.txt"),
        "edit 1: old_text not found in `f.txt`; provide more surrounding context"
    );
}

#[test]
fn refuses_overlapping_blocks() {
    let err = apply_edits("abcdef\n", &[block("abcd", "X"), block("cdef", "Y")]).unwrap_err();
    assert_eq!(err, EditError::Overlap);
    assert_eq!(
        err.message("f.txt"),
        "edits overlap in `f.txt`; overlapping or nested edits are not allowed"
    );
    let err = apply_edits("abcdef", &[block("bc", "X"), block("abcd", "Y")]).unwrap_err();
    assert_eq!(err, EditError::Overlap);
}

#[test]
fn adjacent_blocks_do_not_overlap() {
    let out = apply_edits("abcd", &[block("cd", "2"), block("ab", "1")]).unwrap();
    assert_eq!(out, "12");
}

#[test]
fn keeps_crlf_line_endings() {
    let out = apply_edits("one\r\ntwo\r\n", &[block("two", "TWO")]).unwrap();
    assert_eq!(out, "one\r\nTWO\r\n");
    let out = apply_edits("one\r\ntwo\r\n", &[block("one\ntwo", "1\n2")]).unwrap();
    assert_eq!(out, "1\r\n2\r\n");
}

#[test]
fn keeps_a_byte_order_mark() {
    let out = apply_edits("\u{feff}abc", &[block("b", "B")]).unwrap();
    assert_eq!(out, "\u{feff}aBc");
}

#[test]
fn refuses_an_empty_old_text_and_no_edits() {
    let err = apply_edits("abc", &[block("a", "b"), block("", "x")]).unwrap_err();
    assert_eq!(err, EditError::EmptyOldText(2));
    assert_eq!(err.message("p"), "edit 2: old_text is empty");
    assert_eq!(apply_edits("abc", &[]).unwrap_err(), EditError::NoEdits);
    assert_eq!(EditError::NoEdits.message("p"), "no edits supplied");
    assert_eq!(require_edits(&[]), Err(EditError::NoEdits));
    assert_eq!(require_edits(&[block("a", "b")]), Ok(()));
}

#[test]
fn reports_the_first_failing_block() {
    let err = apply_edits("abc", &[block("zz", "1"), block("", "2")]).unwrap_err();
    assert_eq!(err, EditError::NotFound(1));
}

#[test]
fn the_order_of_the_blocks_does_not_matter() {
    let original = "one two three four\n";
    let forward = vec![block("one", "1"), block("three", "3"), block("four", "4")];
    let shuffled = vec![block("four", "4"), block("one", "1"), block("three", "3")];
    let a = apply_edits(original, &forward).unwrap();
    assert_eq!(a, "1 two 3 4\n");
    assert_eq!(apply_edits(original, &shuffled).unwrap(), a);
    let overlapping = vec![block("two three", "x"), block("one two", "y")];
    let swapped = vec![block("one two", "y"), block("two three", "x")];
    assert_eq!(apply_edits(original, &overlapping), Err(EditError::Overlap));
    assert_eq!(apply_edits(original, &swapped), Err(EditError::Overlap));
}

#[test]
fn crlf_translation_does_not_double_endings() {
    let file = "x\r\ny\r\n";
    let want = "a\r\nb\r\nc\r\n";
    assert_eq!(apply_edits(file, &[block("x\r\ny", "a\r\nb\nc")]).unwrap(), want);
    assert_eq!(apply_edits(file, &[block("x\ny", "a\nb\r\nc")]).unwrap(), want);
    assert_eq!(apply_edits("x\ny\n", &[block("x\ny", "a\r\nb")]).unwrap(), "a\r\nb\n");
}

#[test]
fn translation_is_stable() {
    let t = "a\r\nb\nc";
    let once = translate(t, true);
    assert_eq!(once, "a\r\nb\r\nc");
    assert_eq!(translate(&once, true), once);
    assert_eq!(translate(t, false), t);
    assert_eq!(once.replace("\r\n", "\n"), t.replace("\r\n", "\n"));
}
