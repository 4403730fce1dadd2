//! The `read` tool's text logic: turn a file's bytes into a slice of its
//! lines, head-truncated so a huge file never blows up a run.
//!
//! Resolving the path and reading the bytes are the caller's part.

use vstd::prelude::*;
use vstd::utf8::{decode_utf8, decode_utf8_encode_utf8, valid_utf8};

use crate::text::{
    byte_len, bytes_exact, char_bytes, char_texts, char_width, chars_of, copy_chars, decimal,
    fits_bytes, lemma_byte_len_at_least_chars, lemma_byte_len_push, lemma_lines_len, lines, lines_of, push_char, push_chars, push_decimal,
    push_str,
};

verus! {

/// Head-truncation ceiling on lines: whichever ceiling is hit first ends the
/// output.
pub const MAX_LINES: usize = 2000;

/// Head-truncation ceiling on bytes.
pub const MAX_BYTES: usize = 262144;

/// How many leading bytes the binary sniff inspects.
pub const SNIFF_BYTES: usize = 8192;

/// Arguments to the `read` tool.
#[derive(Debug)]
pub struct ReadArgs {
    /// Path to the file, relative to the workspace root.
    pub path: String,
    /// 1-indexed line to start reading from. Defaults to the first line.
    pub offset: Option<usize>,
    /// Maximum number of lines to return from the offset.
    pub limit: Option<usize>,
}

/// Why a read was refused.
#[derive(Debug, Clone, Copy, PartialEq, Eq, Structural)]
pub enum ReadError {
    /// The requested offset lies past the last line of the file.
    OffsetPastEnd {
        /// The offset asked for (0 when none was given).
        offset: usize,
        /// How many lines the file has.
        lines: usize,
    },
}

// ---------------------------------------------------------------------------
// The model
// ---------------------------------------------------------------------------

/// A file is treated as binary if a NUL byte appears in its head.
pub open spec fn sniffs_binary(bytes: Seq<u8>) -> bool {
    exists|i: int| 0 <= i < bytes.len() && i < SNIFF_BYTES && #[trigger] bytes[i] == 0
}

/// The note returned for a binary file of `len` bytes.
pub open spec fn binary_note(path: Seq<char>, len: nat) -> Seq<char> {
    "`"@ + path + "` is not a UTF-8 text file ("@ + decimal(len) + " bytes); not shown."@
}

/// The note returned for a file whose bytes are not UTF-8.
pub open spec fn non_utf8_note(path: Seq<char>) -> Seq<char> {
    "`"@ + path + "` is not UTF-8 text; not shown."@
}

/// How many leading lines of `w` fit within `lines_left` lines and
/// `bytes_left` bytes, each line counted with its newline.
pub open spec fn fitting(w: Seq<Seq<char>>, lines_left: nat, bytes_left: int) -> nat
    decreases w.len(),
{
    if w.len() == 0 || lines_left == 0 || byte_len(w[0]) + 1 > bytes_left {
        0
    } else {
        1 + fitting(w.drop_first(), (lines_left - 1) as nat, bytes_left - byte_len(w[0]) - 1)
    }
}

/// The lines `w`, each followed by a newline.
pub open spec fn with_newlines(w: Seq<Seq<char>>) -> Seq<char>
    decreases w.len(),
{
    if w.len() == 0 {
        seq![]
    } else {
        with_newlines(w.drop_last()) + w.last() + seq!['\n']
    }
}

/// The longest prefix of `l` whose encoding fits in `budget` bytes.
pub open spec fn prefix_within(l: Seq<char>, budget: int) -> Seq<char>
    decreases l.len(),
{
    if l.len() == 0 || char_bytes(l[0]) > budget {
        seq![]
    } else {
        seq![l[0]] + prefix_within(l.drop_first(), budget - char_bytes(l[0]))
    }
}

/// The continuation notice after `shown` lines, pointing at 1-indexed line
/// `next`.
pub open spec fn continuation_notice(shown: nat, next: nat) -> Seq<char> {
    "\n[truncated after "@ + decimal(shown) + " lines; continue with offset "@ + decimal(next)
        + "]\n"@
}

/// How many lines of the window `w` are shown: those that fit both
/// ceilings, or the first line cut to fit when even it alone does not.
pub open spec fn shown_count(w: Seq<Seq<char>>) -> nat {
    let k = fitting(w, MAX_LINES as nat, MAX_BYTES as int);
    if k == 0 && w.len() > 0 {
        1
    } else {
        k
    }
}

/// The shown lines of the window `w`, each with its newline: the lines that
/// fit both ceilings, or the longest prefix of the first line that fits the
/// byte ceiling when even that line alone does not.
pub open spec fn shown_text(w: Seq<Seq<char>>) -> Seq<char> {
    let k = fitting(w, MAX_LINES as nat, MAX_BYTES as int);
    if k == 0 && w.len() > 0 {
        prefix_within(w[0], MAX_BYTES - 1).push('\n')
    } else {
        with_newlines(w.take(k as int))
    }
}

/// The rendering of the window `w` that starts at 0-indexed line `start`:
/// the shown text, followed by a continuation notice pointing past it when the
/// window is cut short.
pub open spec fn render_window(w: Seq<Seq<char>>, start: nat) -> Seq<char> {
    if fitting(w, MAX_LINES as nat, MAX_BYTES as int) == w.len() {
        shown_text(w)
    } else {
        shown_text(w) + continuation_notice(shown_count(w), start + shown_count(w) + 1)
    }
}

/// The 0-indexed first line that a 1-indexed `offset` asks for.
pub open spec fn start_line(offset: Option<usize>) -> nat {
    match offset {
        Some(o) => if o == 0 {
            0
        } else {
            (o - 1) as nat
        },
        None => 0,
    }
}

/// The outcome of reading `bytes` from the file `path` with the given offset
/// and limit.
pub open spec fn read_outcome(
    path: Seq<char>,
    bytes: Seq<u8>,
    offset: Option<usize>,
    limit: Option<usize>,
) -> Result<Seq<char>, ReadError> {
    if sniffs_binary(bytes) {
        Ok(binary_note(path, bytes.len()))
    } else if !valid_utf8(bytes) {
        Ok(non_utf8_note(path))
    } else {
        let ls = lines(decode_utf8(bytes));
        let start = start_line(offset);
        if start > ls.len() {
            Err(
                ReadError::OffsetPastEnd {
                    offset: match offset {
                        Some(o) => o,
                        None => 0,
                    },
                    lines: ls.len() as usize,
                },
            )
        } else {
            let after = ls.skip(start as int);
            let lim = match limit {
                Some(l) => if l < after.len() {
                    l as int
                } else {
                    after.len() as int
                },
                None => after.len() as int,
            };
            Ok(render_window(after.take(lim), start))
        }
    }
}

// ---------------------------------------------------------------------------
// Implementation
// ---------------------------------------------------------------------------

/// `std::str::from_utf8`: the text that `bytes` encode, when they are valid
/// UTF-8 (the standard library accepts exactly the valid encodings).
#[verifier::external_body]
fn utf8_text(bytes: &[u8]) -> (r: Option<&str>)
    ensures
        r is Some <==> valid_utf8(bytes@),
        r matches Some(s) ==> s@ == decode_utf8(bytes@),
{
    std::str::from_utf8(bytes).ok()
}

/// Whether a NUL byte appears in the first `SNIFF_BYTES` bytes.
fn looks_binary(bytes: &[u8]) -> (b: bool)
    ensures
        b == sniffs_binary(bytes@),
{
    let n = bytes.len();
    let mut i: usize = 0;
    while i < n && i < SNIFF_BYTES
        invariant
            i <= n == bytes@.len(),
            forall|j: int| 0 <= j < i ==> bytes@[j] != 0,
        decreases n - i,
    {
        if bytes[i] == 0 {
            return true;
        }
        i = i + 1;
    }
    false
}

proof fn lemma_prefix_within_step(l: Seq<char>, k: int, budget: int)
    requires
        0 <= k < l.len(),
        char_bytes(l[k]) <= budget,
    ensures
        prefix_within(l.skip(k), budget) == seq![l[k]] + prefix_within(
            l.skip(k + 1),
            budget - char_bytes(l[k]),
        ),
{
    assert(l.skip(k).drop_first() =~= l.skip(k + 1));
    assert(l.skip(k)[0] == l[k]);
}

/// The longest prefix of `l` whose encoding fits in `budget` bytes.
fn prefix_fitting(l: &Vec<char>, budget: usize) -> (r: Vec<char>)
    ensures
        r@ == prefix_within(l@, budget as int),
{
    let n = l.len();
    let mut out: Vec<char> = Vec::new();
    let mut left = budget;
    let mut k: usize = 0;
    assert(l@.skip(0) =~= l@);
    while k < n
        invariant
            k <= n == l@.len(),
            out@ + prefix_within(l@.skip(k as int), left as int) == prefix_within(
                l@,
                budget as int,
            ),
        decreases n - k,
    {
        let w = char_width(l[k]);
        if w > left {
            assert(prefix_within(l@.skip(k as int), left as int) =~= Seq::<char>::empty());
            assert(out@ + Seq::<char>::empty() =~= out@);
            return out;
        }
        proof {
            lemma_prefix_within_step(l@, k as int, left as int);
        }
        let ghost before = out@;
        out.push(l[k]);
        assert(out@ + prefix_within(l@.skip(k + 1), (left - w) as int) =~= before + (seq![
            l@[k as int],
        ] + prefix_within(l@.skip(k + 1), (left - w) as int)));
        left = left - w;
        k = k + 1;
    }
    assert(prefix_within(l@.skip(n as int), left as int) =~= Seq::<char>::empty());
    assert(out@ + Seq::<char>::empty() =~= out@);
    out
}

proof fn lemma_fitting_step(w: Seq<Seq<char>>, k: int, lines_left: nat, bytes_left: int)
    requires
        0 <= k < w.len(),
        lines_left > 0,
        byte_len(w[k]) + 1 <= bytes_left,
    ensures
        fitting(w.skip(k), lines_left, bytes_left) == 1 + fitting(
            w.skip(k + 1),
            (lines_left - 1) as nat,
            bytes_left - byte_len(w[k]) - 1,
        ),
{
    assert(w.skip(k).drop_first() =~= w.skip(k + 1));
    assert(w.skip(k)[0] == w[k]);
}

proof fn lemma_fitting_bounded(w: Seq<Seq<char>>, lines_left: nat, bytes_left: int)
    ensures
        fitting(w, lines_left, bytes_left) <= w.len(),
        fitting(w, lines_left, bytes_left) <= lines_left,
    decreases w.len(),
{
    if !(w.len() == 0 || lines_left == 0 || byte_len(w[0]) + 1 > bytes_left) {
        lemma_fitting_bounded(
            w.drop_first(),
            (lines_left - 1) as nat,
            bytes_left - byte_len(w[0]) - 1,
        );
    }
}

/// Join `window` (a slice of lines starting at 0-indexed line `start`) back
/// into text, stopping at the first ceiling and appending a continuation
/// notice when the window is cut short.
fn render(window: &Vec<Vec<char>>, start: usize) -> (r: String)
    requires
        start + MAX_LINES + 2 <= usize::MAX,
    ensures
        r@ == render_window(char_texts(window@), start as nat),
{
    let ghost w = char_texts(window@);
    let n = window.len();
    let mut out = String::new();
    let mut shown: usize = 0;
    let mut left: usize = MAX_BYTES;
    let ghost k = fitting(w, MAX_LINES as nat, MAX_BYTES as int);
    proof {
        lemma_fitting_bounded(w, MAX_LINES as nat, MAX_BYTES as int);
        assert(w.skip(0) =~= w);
        assert(w.take(0) =~= Seq::<Seq<char>>::empty());
    }
    let mut stopped = false;
    while shown < n && !stopped
        invariant
            n == window@.len() == w.len(),
            w == char_texts(window@),
            shown <= n,
            shown <= MAX_LINES,
            left <= MAX_BYTES,
            k == fitting(w, MAX_LINES as nat, MAX_BYTES as int),
            !stopped ==> k == shown + fitting(
                w.skip(shown as int),
                (MAX_LINES - shown) as nat,
                left as int,
            ),
            stopped ==> k == shown,
            out@ == with_newlines(w.take(shown as int)),
        decreases n - shown + (if stopped {
            0int
        } else {
            1int
        }),
    {
        assert(w[shown as int] == window@[shown as int]@);
        assert(w.skip(shown as int)[0] == w[shown as int]);
        if shown == MAX_LINES || left == 0 {
            stopped = true;
        } else if !fits_bytes(&window[shown], left - 1) {
            stopped = true;
        } else {
            let ghost lb = byte_len(w[shown as int]);
            proof {
                lemma_fitting_step(w, shown as int, (MAX_LINES - shown) as nat, left as int);
                assert(w.take(shown + 1).drop_last() =~= w.take(shown as int));
                assert(w.take(shown + 1).last() == w[shown as int]);
            }
            push_chars(&mut out, &window[shown]);
            push_char(&mut out, '\n');
            let used = bytes_exact(&window[shown], left - 1);
            left = left - used - 1;
            shown = shown + 1;
        }
    }
    if shown == n {
        assert(w.take(n as int) =~= w);
        return out;
    }
    // The window was cut short.
    assert(k == shown);
    if shown == 0 {
        let cut = prefix_fitting(&window[0], MAX_BYTES - 1);
        let mut r = String::new();
        push_chars(&mut r, &cut);
        push_char(&mut r, '\n');
        push_notice(&mut r, 1, start + 2);
        assert(r@ =~= prefix_within(w[0], MAX_BYTES - 1).push('\n') + continuation_notice(
            1,
            start as nat + 2,
        ));
        r
    } else {
        push_notice(&mut out, shown, start + shown + 1);
        out
    }
}

/// Appends the continuation notice to `out`.
fn push_notice(out: &mut String, shown: usize, next: usize)
    ensures
        final(out)@ == old(out)@ + continuation_notice(shown as nat, next as nat),
{
    let ghost before = out@;
    push_str(out, "\n[truncated after ");
    push_decimal(out, shown as u64);
    push_str(out, " lines; continue with offset ");
    push_decimal(out, next as u64);
    push_str(out, "]\n");
    assert(out@ =~= before + continuation_notice(shown as nat, next as nat));
}

/// Read a slice of the text in `bytes`, the contents of the file `args.path`:
/// a binary or non-UTF-8 file gets a note in place of its contents; otherwise
/// the lines from the 1-indexed `offset` on, at most `limit` of them, are
/// rendered within the ceilings. An offset past the last line is an error.
pub fn read_text(args: &ReadArgs, bytes: &[u8]) -> (r: Result<String, ReadError>)
    requires
        bytes@.len() <= isize::MAX,
    ensures
        match r {
            Ok(s) => read_outcome(args.path@, bytes@, args.offset, args.limit) == Ok::<
                Seq<char>,
                ReadError,
            >(s@),
            Err(e) => read_outcome(args.path@, bytes@, args.offset, args.limit) == Err::<
                Seq<char>,
                ReadError,
            >(e),
        },
{
    if looks_binary(bytes) {
        let mut r = String::new();
        push_str(&mut r, "`");
        push_str(&mut r, args.path.as_str());
        push_str(&mut r, "` is not a UTF-8 text file (");
        push_decimal(&mut r, bytes.len() as u64);
        push_str(&mut r, " bytes); not shown.");
        assert(r@ =~= binary_note(args.path@, bytes@.len()));
        return Ok(r);
    }
    let text = match utf8_text(bytes) {
        Some(t) => t,
        None => {
            let mut r = String::new();
            push_str(&mut r, "`");
            push_str(&mut r, args.path.as_str());
            push_str(&mut r, "` is not UTF-8 text; not shown.");
            assert(r@ =~= non_utf8_note(args.path@));
            return Ok(r);
        },
    };
    let chars = chars_of(text);
    let all = lines_of(&chars);
    let ghost ls = lines(decode_utf8(bytes@));
    proof {
        decode_utf8_encode_utf8(bytes@);
        lemma_byte_len_at_least_chars(chars@);
        lemma_lines_len(chars@);
        assert(char_texts(all@) == ls);
    }
    let n = all.len();
    let start: usize = match args.offset {
        Some(o) => if o == 0 {
            0
        } else {
            o - 1
        },
        None => 0,
    };
    if start > n {
        let offset = match args.offset {
            Some(o) => o,
            None => 0,
        };
        return Err(ReadError::OffsetPastEnd { offset, lines: n });
    }
    let avail = n - start;
    let lim = match args.limit {
        Some(l) => if l < avail {
            l
        } else {
            avail
        },
        None => avail,
    };
    let mut window: Vec<Vec<char>> = Vec::new();
    for j in 0..lim
        invariant
            start + lim <= n == all@.len(),
            char_texts(window@) == ls.skip(start as int).take(j as int),
            ls == char_texts(all@),
    {
        let ghost before = char_texts(window@);
        window.push(copy_chars(&all[start + j]));
        assert(ls[start + j] == all@[start + j]@);
        assert(ls.skip(start as int).take(j + 1) =~= ls.skip(start as int).take(j as int).push(
            ls[start + j],
        ));
        assert(char_texts(window@) =~= before.push(ls[start + j]));
    }
    Ok(render(&window, start))
}

impl ReadError {
    /// The message reported to the model for this error about `path`.
    pub fn message(&self, path: &str) -> (r: String)
        ensures
            r@ == read_error_message(*self, path@),
    {
        let mut r = String::new();
        match *self {
            ReadError::OffsetPastEnd { offset, lines } => {
                push_str(&mut r, "offset ");
                push_decimal(&mut r, offset as u64);
                push_str(&mut r, " is past the end of `");
                push_str(&mut r, path);
                push_str(&mut r, "` (");
                push_decimal(&mut r, lines as u64);
                push_str(&mut r, " lines)");
            },
        }
        assert(r@ =~= read_error_message(*self, path@));
        r
    }
}

/// The model-facing text of a read error about the file `path`.
pub open spec fn read_error_message(e: ReadError, path: Seq<char>) -> Seq<char> {
    match e {
        ReadError::OffsetPastEnd { offset, lines } => "offset "@ + decimal(offset as nat)
            + " is past the end of `"@ + path + "` ("@ + decimal(lines as nat) + " lines)"@,
    }
}

} // verus!

verus! {

// ---------------------------------------------------------------------------
// Laws
// ---------------------------------------------------------------------------

proof fn lemma_with_newlines_front(w: Seq<Seq<char>>)
    requires
        w.len() > 0,
    ensures
        with_newlines(w) == w[0] + seq!['\n'] + with_newlines(w.drop_first()),
    decreases w.len(),
{
    if w.len() == 1 {
        assert(w.drop_last() =~= Seq::<Seq<char>>::empty());
        assert(w.drop_first() =~= Seq::<Seq<char>>::empty());
        assert(with_newlines(w) =~= w[0] + seq!['\n'] + with_newlines(w.drop_first()));
    } else {
        lemma_with_newlines_front(w.drop_last());
        assert(w.drop_last().drop_first() =~= w.drop_first().drop_last());
        assert(w.drop_first().last() == w.last());
        assert(w.drop_last()[0] == w[0]);
        assert(with_newlines(w) =~= w[0] + seq!['\n'] + with_newlines(w.drop_first()));
    }
}

proof fn lemma_newline_byte()
    ensures
        char_bytes('\n') == 1,
{
}

proof fn lemma_fitting_bytes(w: Seq<Seq<char>>, lines_left: nat, bytes_left: int)
    requires
        bytes_left >= 0,
    ensures
        byte_len(with_newlines(w.take(fitting(w, lines_left, bytes_left) as int))) <= bytes_left,
    decreases w.len(),
{
    let k = fitting(w, lines_left, bytes_left);
    lemma_fitting_bounded(w, lines_left, bytes_left);
    if k == 0 {
        assert(w.take(0) =~= Seq::<Seq<char>>::empty());
        assert(with_newlines(Seq::<Seq<char>>::empty()) =~= Seq::<char>::empty());
    } else {
        let rest = w.drop_first();
        let bl = byte_len(w[0]);
        lemma_fitting_bytes(rest, (lines_left - 1) as nat, bytes_left - bl - 1);
        let t = w.take(k as int);
        assert(t.drop_first() =~= rest.take(k - 1));
        assert(t[0] == w[0]);
        lemma_with_newlines_front(t);
        let tail = with_newlines(rest.take(k - 1));
        crate::text::lemma_byte_len_concat(w[0] + seq!['\n'], tail);
        crate::text::lemma_byte_len_push(w[0], '\n');
        assert(w[0] + seq!['\n'] =~= w[0].push('\n'));
        lemma_newline_byte();
    }
}

proof fn lemma_prefix_within_bytes(l: Seq<char>, budget: int)
    requires
        budget >= 0,
    ensures
        byte_len(prefix_within(l, budget)) <= budget,
    decreases l.len(),
{
    if !(l.len() == 0 || char_bytes(l[0]) > budget) {
        lemma_prefix_within_bytes(l.drop_first(), budget - char_bytes(l[0]));
        crate::text::lemma_byte_len_concat(
            seq![l[0]],
            prefix_within(l.drop_first(), budget - char_bytes(l[0])),
        );
        crate::text::lemma_byte_len_push(Seq::<char>::empty(), l[0]);
        assert(Seq::<char>::empty().push(l[0]) =~= seq![l[0]]);
        assert(encode_empty() == 0);
    } else {
        assert(encode_empty() == 0);
        assert(prefix_within(l, budget) =~= Seq::<char>::empty());
    }
}

spec fn encode_empty() -> nat {
    byte_len(Seq::<char>::empty())
}

/// The head-truncation ceilings: what a read shows of a window (before any
/// continuation notice) is at most `MAX_LINES` lines and at most `MAX_BYTES`
/// bytes, newlines included.
pub proof fn lemma_read_within_ceilings(w: Seq<Seq<char>>)
    ensures
        shown_count(w) <= MAX_LINES,
        shown_count(w) <= w.len(),
        byte_len(shown_text(w)) <= MAX_BYTES,
{
    let k = fitting(w, MAX_LINES as nat, MAX_BYTES as int);
    lemma_fitting_bounded(w, MAX_LINES as nat, MAX_BYTES as int);
    if k == 0 && w.len() > 0 {
        lemma_prefix_within_bytes(w[0], MAX_BYTES - 1);
        crate::text::lemma_byte_len_push(prefix_within(w[0], MAX_BYTES - 1), '\n');
        lemma_newline_byte();
    } else {
        lemma_fitting_bytes(w, MAX_LINES as nat, MAX_BYTES as int);
    }
}

/// A cut-short read always advances: the offset that the continuation notice
/// points at lies past the line the read started from, so following the
/// notices never reads the same lines forever.
pub proof fn lemma_read_advances(w: Seq<Seq<char>>, start: nat)
    requires
        fitting(w, MAX_LINES as nat, MAX_BYTES as int) < w.len(),
    ensures
        shown_count(w) >= 1,
        render_window(w, start) == shown_text(w) + continuation_notice(
            shown_count(w),
            start + shown_count(w) + 1,
        ),
        start + shown_count(w) + 1 > start + 1,
{
}

/// Following a continuation notice loses and repeats nothing: when a read from
/// 1-indexed line `o` is cut short after `k` whole lines, it shows exactly
/// those lines and points at line `o + k`, and the read from there starts
/// with the first line not shown.
pub proof fn lemma_read_continues(path: Seq<char>, bytes: Seq<u8>, o: usize)
    requires
        !sniffs_binary(bytes),
        valid_utf8(bytes),
        1 <= o,
        o - 1 <= lines(decode_utf8(bytes)).len(),
        0 < fitting(lines(decode_utf8(bytes)).skip(o - 1), MAX_LINES as nat, MAX_BYTES as int)
            < lines(decode_utf8(bytes)).skip(o - 1).len(),
        o + fitting(lines(decode_utf8(bytes)).skip(o - 1), MAX_LINES as nat, MAX_BYTES as int)
            <= usize::MAX,
    ensures
        ({
            let ls = lines(decode_utf8(bytes));
            let w = ls.skip(o - 1);
            let k = fitting(w, MAX_LINES as nat, MAX_BYTES as int);
            let n = o + k;
            &&& read_outcome(path, bytes, Some(o), None) == Ok::<Seq<char>, ReadError>(
                with_newlines(w.take(k as int)) + continuation_notice(k, n as nat),
            )
            &&& read_outcome(path, bytes, Some(n as usize), None) == Ok::<Seq<char>, ReadError>(
                render_window(ls.skip(n - 1), (n - 1) as nat),
            )
            &&& w.take(k as int) + ls.skip(n - 1) == w
        }),
{
    let ls = lines(decode_utf8(bytes));
    let w = ls.skip(o - 1);
    let k = fitting(w, MAX_LINES as nat, MAX_BYTES as int);
    let n = o + k;
    assert(start_line(Some(o)) == o - 1);
    assert(w.take(w.len() as int) =~= w);
    assert(start_line(Some(n as usize)) == n - 1);
    let rest = ls.skip(n - 1);
    assert(rest =~= w.skip(k as int));
    assert(rest.take(rest.len() as int) =~= rest);
    assert(w.take(k as int) + rest =~= w);
}

/// A read with no offset is a read from the first line, whatever the limit;
/// and a limit caps the window at that many lines from the start: the window
/// is the first `min(limit, lines left)` lines after the start, with or
/// without an offset, and a limit no smaller than the lines left reads like
/// no limit at all.
pub proof fn lemma_read_limit_caps_the_window(
    path: Seq<char>,
    bytes: Seq<u8>,
    offset: Option<usize>,
    l: usize,
)
    ensures
        read_outcome(path, bytes, None, Some(l)) == read_outcome(path, bytes, Some(1), Some(l)),
        read_outcome(path, bytes, None, None) == read_outcome(path, bytes, Some(1), None),
        ({
            let ls = lines(decode_utf8(bytes));
            let start = start_line(offset);
            let left = ls.len() - start;
            let n = if l < left {
                l as int
            } else {
                left
            };
            !sniffs_binary(bytes) && valid_utf8(bytes) && start <= ls.len() ==> {
                &&& read_outcome(path, bytes, offset, Some(l)) == Ok::<Seq<char>, ReadError>(
                    render_window(ls.skip(start as int).take(n), start),
                )
                &&& ls.skip(start as int).take(n).len() <= l
                &&& (l >= left ==> read_outcome(path, bytes, offset, Some(l)) == read_outcome(
                    path,
                    bytes,
                    offset,
                    None,
                ))
            }
        }),
{
    assert(start_line(None) == start_line(Some(1usize)));
    let ls = lines(decode_utf8(bytes));
    let start = start_line(offset);
    if start <= ls.len() {
        let after = ls.skip(start as int);
        assert(after.take(after.len() as int) =~= after);
    }
}

/// A window that fits both ceilings is shown whole: every line, each followed
/// by a newline, and no notice.
pub proof fn lemma_read_whole_window(w: Seq<Seq<char>>, start: nat)
    requires
        w.len() <= MAX_LINES,
        byte_len(with_newlines(w)) <= MAX_BYTES,
    ensures
        render_window(w, start) == with_newlines(w),
{
    lemma_fitting_all(w, MAX_LINES as nat, MAX_BYTES as int);
    assert(w.take(w.len() as int) =~= w);
}

proof fn lemma_fitting_all(w: Seq<Seq<char>>, lines_left: nat, bytes_left: int)
    requires
        w.len() <= lines_left,
        byte_len(with_newlines(w)) <= bytes_left,
    ensures
        fitting(w, lines_left, bytes_left) == w.len(),
    decreases w.len(),
{
    if w.len() > 0 {
        lemma_with_newlines_front(w);
        let rest = w.drop_first();
        crate::text::lemma_byte_len_concat(w[0] + seq!['\n'], with_newlines(rest));
        crate::text::lemma_byte_len_push(w[0], '\n');
        assert(w[0] + seq!['\n'] =~= w[0].push('\n'));
        lemma_newline_byte();
        lemma_fitting_all(rest, (lines_left - 1) as nat, bytes_left - byte_len(w[0]) - 1);
    }
}

} // verus!
