//! The `bash` tool's decisions: the timeout a command gets, how its captured
//! output is combined and tail-truncated, and what each way of ending is
//! reported as.
//!
//! Spawning the command, draining its pipes, the timeout and killing its
//! process group are the caller's part.

use vstd::prelude::*;
use vstd::utf8::{decode_utf8, valid_utf8};

use crate::text::{
    byte_len, char_bytes, char_texts, char_width, chars_of, fits_bytes, join, join_chars, lines,
    lines_of, push_char, push_chars, push_range, push_signed_decimal, push_decimal, push_str,
    signed_decimal, decimal, copy_chars,
};

verus! {

/// Default seconds a command may run before it is killed.
pub const DEFAULT_TIMEOUT_SECS: u64 = 120;

/// Tail-truncation ceiling on lines of the combined output.
pub const MAX_LINES: usize = 2000;

/// Tail-truncation ceiling on bytes of the combined output.
pub const MAX_BYTES: usize = 262144;

/// Arguments to the `bash` tool.
#[derive(Debug)]
pub struct BashArgs {
    /// The shell command, run with `sh -c` from the workspace root.
    pub command: String,
    /// Seconds before the command is killed. Defaults to 120.
    pub timeout_seconds: Option<u64>,
}

/// How the command run ended.
#[derive(Debug, Clone, Copy, PartialEq, Eq, Structural)]
pub enum Outcome {
    /// Exited with this status code (`None` if killed by a signal).
    Exited(Option<i32>),
    /// Ran past its timeout and was killed.
    TimedOut,
    /// The run was cancelled and the command killed.
    Cancelled,
}

/// The seconds the command may run: the requested timeout, or the default.
pub fn timeout_secs(args: &BashArgs) -> (t: u64)
    ensures
        t == match args.timeout_seconds {
            Some(s) => s,
            None => DEFAULT_TIMEOUT_SECS,
        },
{
    match args.timeout_seconds {
        Some(s) => s,
        None => DEFAULT_TIMEOUT_SECS,
    }
}

/// The text that `String::from_utf8_lossy` makes of `bytes`: valid sequences
/// decoded, each invalid one replaced by `U+FFFD`.
pub uninterp spec fn lossy_utf8(bytes: Seq<u8>) -> Seq<char>;

/// `String::from_utf8_lossy`: decodes `bytes`, replacing invalid sequences
/// with `U+FFFD`; valid UTF-8 decodes exactly.
#[verifier::external_body]
fn utf8_lossy(bytes: &[u8]) -> (r: String)
    ensures
        r@ == lossy_utf8(bytes@),
        valid_utf8(bytes@) ==> r@ == decode_utf8(bytes@),
{
    String::from_utf8_lossy(bytes).into_owned()
}

/// Captured stdout then stderr as one text: stderr follows on a line of its
/// own when both are present.
pub open spec fn combined(out: Seq<char>, err: Seq<char>) -> Seq<char> {
    if err.len() == 0 {
        out
    } else if out.len() > 0 && out.last() != '\n' {
        out.push('\n') + err
    } else {
        out + err
    }
}

/// Captured stdout then stderr, as text, in one: stderr follows on a line of
/// its own when both are present.
pub fn combine_text(out: String, err: &str) -> (r: String)
    ensures
        r@ == combined(out@, err@),
{
    let mut text = out;
    let ev = chars_of(err);
    if ev.len() > 0 {
        let tv = chars_of(text.as_str());
        if tv.len() > 0 && tv[tv.len() - 1] != '\n' {
            push_char(&mut text, '\n');
        }
        push_str(&mut text, err);
    }
    text
}

/// Combine captured stdout then stderr into one lossy-UTF-8 string.
pub fn combine(out: &[u8], err: &[u8]) -> (r: String)
    ensures
        r@ == combined(lossy_utf8(out@), lossy_utf8(err@)),
        valid_utf8(out@) && valid_utf8(err@) ==> r@ == combined(
            decode_utf8(out@),
            decode_utf8(err@),
        ),
{
    let text = utf8_lossy(out);
    let e = utf8_lossy(err);
    combine_text(text, e.as_str())
}

/// The last `MAX_LINES` of `ls`, or all of them when there are no more.
pub open spec fn kept_lines(ls: Seq<Seq<char>>) -> Seq<Seq<char>> {
    if ls.len() > MAX_LINES {
        ls.skip(ls.len() - MAX_LINES)
    } else {
        ls
    }
}

/// The kept lines joined back, ending with a newline when `text` did.
pub open spec fn tail_body(text: Seq<char>) -> Seq<char> {
    let body = join(kept_lines(lines(text)), seq!['\n']);
    if text.len() > 0 && text.last() == '\n' && body.len() > 0 {
        body.push('\n')
    } else {
        body
    }
}

/// The longest suffix of `s` whose encoding fits in `budget` bytes.
pub open spec fn suffix_within(s: Seq<char>, budget: int) -> Seq<char>
    decreases s.len(),
{
    if s.len() == 0 || char_bytes(s.last()) > budget {
        seq![]
    } else {
        suffix_within(s.drop_last(), budget - char_bytes(s.last())).push(s.last())
    }
}

/// The notice put before output whose head was dropped.
pub open spec fn tail_notice() -> Seq<char> {
    "[truncated: showing the tail of the output]\n"@
}

/// The tail of `text` that survives: the kept lines, cut to the longest
/// suffix within the byte ceiling when they exceed it.
pub open spec fn tail_part(text: Seq<char>) -> Seq<char> {
    let b = tail_body(text);
    if byte_len(b) > MAX_BYTES {
        suffix_within(b, MAX_BYTES as int)
    } else {
        b
    }
}

/// Whether anything of `text` was dropped: lines past the line ceiling, or
/// bytes past the byte ceiling.
pub open spec fn tail_was_cut(text: Seq<char>) -> bool {
    lines(text).len() > MAX_LINES || byte_len(tail_body(text)) > MAX_BYTES
}

/// The tail of `text` within the line and byte ceilings, with the notice in
/// front when anything was dropped.
pub open spec fn truncated_tail(text: Seq<char>) -> Seq<char> {
    if tail_was_cut(text) {
        tail_notice() + tail_part(text)
    } else {
        tail_part(text)
    }
}

proof fn lemma_suffix_step(v: Seq<char>, j: int, left: int)
    requires
        0 < j <= v.len(),
        char_bytes(v[j - 1]) <= left,
    ensures
        suffix_within(v.take(j), left) + v.skip(j) == suffix_within(
            v.take(j - 1),
            left - char_bytes(v[j - 1]),
        ) + v.skip(j - 1),
{
    assert(v.take(j).drop_last() =~= v.take(j - 1));
    assert(v.take(j).last() == v[j - 1]);
    assert(suffix_within(v.take(j), left) == suffix_within(
        v.take(j - 1),
        left - char_bytes(v[j - 1]),
    ).push(v[j - 1]));
    assert(v.skip(j - 1) =~= seq![v[j - 1]] + v.skip(j));
    let a = suffix_within(v.take(j - 1), left - char_bytes(v[j - 1]));
    assert(a.push(v[j - 1]) + v.skip(j) =~= a + v.skip(j - 1));
}

/// Where the longest suffix of `v` within `budget` bytes starts.
fn suffix_start(v: &Vec<char>, budget: usize) -> (r: usize)
    ensures
        r <= v@.len(),
        v@.skip(r as int) == suffix_within(v@, budget as int),
{
    let n = v.len();
    let mut j = n;
    let mut left = budget;
    assert(v@.take(n as int) =~= v@);
    assert(v@.skip(n as int) =~= Seq::<char>::empty());
    while j > 0
        invariant
            j <= n == v@.len(),
            suffix_within(v@, budget as int) == suffix_within(v@.take(j as int), left as int)
                + v@.skip(j as int),
        decreases j,
    {
        let w = char_width(v[j - 1]);
        if w > left {
            assert(v@.take(j as int).last() == v@[j - 1]);
            assert(suffix_within(v@.take(j as int), left as int) =~= Seq::<char>::empty());
            assert(Seq::<char>::empty() + v@.skip(j as int) =~= v@.skip(j as int));
            return j;
        }
        proof {
            lemma_suffix_step(v@, j as int, left as int);
        }
        left = left - w;
        j = j - 1;
    }
    assert(suffix_within(v@.take(0), left as int) =~= Seq::<char>::empty());
    assert(Seq::<char>::empty() + v@.skip(0) =~= v@.skip(0));
    0
}

/// Keep the tail of `text` within the line and byte ceilings, prepending a
/// notice when anything is dropped — so the error at the end of a noisy
/// command survives.
pub fn truncate_tail(text: &str) -> (r: String)
    ensures
        r@ == truncated_tail(text@),
{
    let tv = chars_of(text);
    let all = lines_of(&tv);
    let n = all.len();
    let cut_lines = n > MAX_LINES;
    let mut kept: Vec<Vec<char>> = Vec::new();
    let from: usize = if cut_lines {
        n - MAX_LINES
    } else {
        0
    };
    let ghost ls = lines(text@);
    assert(ls.skip(0) =~= ls);
    for j in from..n
        invariant
            from <= n == all@.len(),
            ls == char_texts(all@),
            char_texts(kept@) == ls.subrange(from as int, j as int),
    {
        let ghost before = char_texts(kept@);
        kept.push(copy_chars(&all[j]));
        assert(char_texts(kept@) =~= before.push(ls[j as int]));
        assert(ls.subrange(from as int, j + 1) =~= ls.subrange(from as int, j as int).push(
            ls[j as int],
        ));
    }
    assert(ls.subrange(from as int, n as int) =~= kept_lines(ls));
    let mut body = join_chars(&kept, "\n");
    proof {
        reveal_strlit("\n");
        assert("\n"@ =~= seq!['\n']);
    }
    let bv0 = chars_of(body.as_str());
    if tv.len() > 0 && tv[tv.len() - 1] == '\n' && bv0.len() > 0 {
        push_char(&mut body, '\n');
    }
    assert(body@ == tail_body(text@));
    let bv = chars_of(body.as_str());
    let cut_bytes = !fits_bytes(&bv, MAX_BYTES);
    let mut r = String::new();
    if cut_lines || cut_bytes {
        push_str(&mut r, "[truncated: showing the tail of the output]\n");
    }
    if cut_bytes {
        let s = suffix_start(&bv, MAX_BYTES);
        push_range(&mut r, &bv, s, bv.len());
        assert(bv@.subrange(s as int, bv@.len() as int) =~= bv@.skip(s as int));
    } else {
        push_chars(&mut r, &bv);
    }
    assert(r@ =~= truncated_tail(text@));
    r
}

/// The note that stands for empty output.
pub open spec fn no_output_note() -> Seq<char> {
    "(command produced no output)"@
}

/// Substitute a note for empty output, so a successful command still returns
/// something legible.
pub fn or_no_output_note(body: String) -> (r: String)
    ensures
        r@ == if body@.len() == 0 {
            no_output_note()
        } else {
            body@
        },
{
    if body.as_str().is_empty() {
        let mut r = String::new();
        push_str(&mut r, "(command produced no output)");
        assert(r@ =~= no_output_note());
        r
    } else {
        body
    }
}

/// What the run that ended as `outcome` reports, given the truncated output
/// `body`: the output on a zero exit, otherwise an error that carries it.
pub open spec fn outcome_report(outcome: Outcome, timeout_secs: u64, body: Seq<char>) -> Result<
    Seq<char>,
    Seq<char>,
> {
    match outcome {
        Outcome::Exited(Some(0)) => Ok(
            if body.len() == 0 {
                no_output_note()
            } else {
                body
            },
        ),
        Outcome::Exited(code) => Err(
            "command exited with status "@ + match code {
                Some(c) => signed_decimal(c as int),
                None => "signal"@,
            } + "\n"@ + body,
        ),
        Outcome::TimedOut => Err(
            "command timed out after "@ + decimal(timeout_secs as nat)
                + "s and its process group was killed\n"@ + body,
        ),
        Outcome::Cancelled => Err("command was cancelled\n"@ + body),
    }
}

/// What the run that ended as `outcome` reports, given its truncated output
/// `body`: `Ok` with the output (or the no-output note) on a zero exit, an
/// error message carrying the output otherwise.
pub fn report(outcome: Outcome, timeout_secs: u64, body: String) -> (r: Result<String, String>)
    ensures
        match r {
            Ok(s) => outcome_report(outcome, timeout_secs, body@) == Ok::<Seq<char>, Seq<char>>(
                s@,
            ),
            Err(s) => outcome_report(outcome, timeout_secs, body@) == Err::<
                Seq<char>,
                Seq<char>,
            >(s@),
        },
{
    match outcome {
        Outcome::Exited(Some(0)) => Ok(or_no_output_note(body)),
        Outcome::Exited(code) => {
            let mut m = String::new();
            push_str(&mut m, "command exited with status ");
            match code {
                Some(c) => push_signed_decimal(&mut m, c),
                None => push_str(&mut m, "signal"),
            }
            push_str(&mut m, "\n");
            push_str(&mut m, body.as_str());
            Err(m)
        },
        Outcome::TimedOut => {
            let mut m = String::new();
            push_str(&mut m, "command timed out after ");
            push_decimal(&mut m, timeout_secs);
            push_str(&mut m, "s and its process group was killed\n");
            push_str(&mut m, body.as_str());
            Err(m)
        },
        Outcome::Cancelled => {
            let mut m = String::new();
            push_str(&mut m, "command was cancelled\n");
            push_str(&mut m, body.as_str());
            Err(m)
        },
    }
}

/// What a command that ended as `outcome` after capturing `out` and `err`
/// reports: its combined output, tail-truncated, reported as `report` does.
pub fn bash_result(outcome: Outcome, timeout_secs: u64, out: &[u8], err: &[u8]) -> (r: Result<
    String,
    String,
>)
    ensures
        ({
            let body = truncated_tail(combined(lossy_utf8(out@), lossy_utf8(err@)));
            match r {
                Ok(s) => outcome_report(outcome, timeout_secs, body) == Ok::<
                    Seq<char>,
                    Seq<char>,
                >(s@),
                Err(s) => outcome_report(outcome, timeout_secs, body) == Err::<
                    Seq<char>,
                    Seq<char>,
                >(s@),
            }
        }),
        valid_utf8(out@) && valid_utf8(err@) ==> truncated_tail(
            combined(lossy_utf8(out@), lossy_utf8(err@)),
        ) == truncated_tail(combined(decode_utf8(out@), decode_utf8(err@))),
{
    let text = combine(out, err);
    let body = truncate_tail(text.as_str());
    report(outcome, timeout_secs, body)
}

// ---------------------------------------------------------------------------
// Laws
// ---------------------------------------------------------------------------

proof fn lemma_suffix_within(s: Seq<char>, budget: int)
    requires
        budget >= 0,
    ensures
        byte_len(suffix_within(s, budget)) <= budget,
        suffix_within(s, budget).len() <= s.len(),
        suffix_within(s, budget) == s.skip(s.len() - suffix_within(s, budget).len()),
    decreases s.len(),
{
    if s.len() == 0 || char_bytes(s.last()) > budget {
        assert(suffix_within(s, budget) =~= Seq::<char>::empty());
        assert(s.skip(s.len() as int) =~= Seq::<char>::empty());
        assert(byte_len(Seq::<char>::empty()) == 0);
    } else {
        let r = suffix_within(s.drop_last(), budget - char_bytes(s.last()));
        lemma_suffix_within(s.drop_last(), budget - char_bytes(s.last()));
        crate::text::lemma_byte_len_push(r, s.last());
        assert(r.push(s.last()) =~= s.skip(s.len() - r.len() - 1));
    }
}

/// The tail truncation keeps the end of the output: what survives is a suffix
/// of the kept lines, at most `MAX_BYTES` bytes long, and the kept lines are
/// the last at most `MAX_LINES` lines of the output.
pub proof fn lemma_tail_within_ceilings(text: Seq<char>)
    ensures
        byte_len(tail_part(text)) <= MAX_BYTES,
        exists|k: int| 0 <= k <= tail_body(text).len() && tail_part(text) == tail_body(text).skip(k),
        kept_lines(lines(text)).len() <= MAX_LINES,
        kept_lines(lines(text)) == lines(text).skip(lines(text).len() - kept_lines(lines(text)).len()),
        truncated_tail(text) == if tail_was_cut(text) {
            tail_notice() + tail_part(text)
        } else {
            tail_body(text)
        },
{
    let b = tail_body(text);
    let ls = lines(text);
    if byte_len(b) > MAX_BYTES {
        lemma_suffix_within(b, MAX_BYTES as int);
        let k = b.len() - suffix_within(b, MAX_BYTES as int).len();
        assert(tail_part(text) == b.skip(k));
    } else {
        assert(b.skip(0) =~= b);
    }
    if ls.len() <= MAX_LINES {
        assert(ls.skip(0) =~= ls);
    }
}

/// Combining keeps both texts whole and in order: stdout intact as a prefix,
/// stderr intact as a suffix, starting on a line of its own; a newline is
/// added between them exactly when stdout is non-empty and does not end in
/// one, and an empty side adds nothing.
pub proof fn lemma_stderr_starts_a_line(out: Seq<char>, err: Seq<char>)
    ensures
        ({
            let c = combined(out, err);
            let gap: int = if out.len() > 0 && err.len() > 0 && out.last() != '\n' {
                1
            } else {
                0
            };
            &&& c.len() == out.len() + gap + err.len()
            &&& c.take(out.len() as int) == out
            &&& c.skip(out.len() + gap) == err
            &&& gap == 1 ==> c[out.len() as int] == '\n'
            &&& out.len() > 0 && err.len() > 0 ==> c[out.len() + gap - 1] == '\n'
        }),
{
    let c = combined(out, err);
    if err.len() == 0 {
        assert(c.take(out.len() as int) =~= out);
        assert(c.skip(out.len() as int) =~= err);
    } else if out.len() > 0 && out.last() != '\n' {
        assert(c.take(out.len() as int) =~= out);
        assert(c.skip(out.len() + 1int) =~= err);
    } else {
        assert(c.take(out.len() as int) =~= out);
        assert(c.skip(out.len() as int) =~= err);
        if out.len() > 0 {
            assert(c[out.len() - 1] == out.last());
        }
    }
}

} // verus!

