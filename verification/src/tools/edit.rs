//! The `edit` tool's text logic: apply one or more exact, unique text
//! replacements to a file's contents. Each `old_text` must match the original
//! contents exactly once; zero or many matches is an error, so an edit is
//! never silently applied in the wrong place. All blocks match against the
//! original contents, not incrementally after earlier blocks apply.
//!
//! Resolving the path, reading the file and writing the result back are the
//! caller's part.

use vstd::prelude::*;

use crate::text::{chars_of, decimal, push_chars, push_decimal, push_range, push_str};

verus! {

/// One search-and-replace block.
#[derive(Debug)]
pub struct EditBlock {
    /// Exact text to find. Must occur exactly once in the file.
    pub old_text: String,
    /// Text to replace it with.
    pub new_text: String,
}

/// Arguments to the `edit` tool.
#[derive(Debug)]
pub struct EditArgs {
    /// Path to the file, relative to the workspace root.
    pub path: String,
    /// The replacements to apply. All match against the original contents.
    pub edits: Vec<EditBlock>,
}

/// Why an edit was refused. Block numbers count from 1, as the model sees
/// them.
#[derive(Debug, Clone, Copy, PartialEq, Eq, Structural)]
pub enum EditError {
    /// The call supplied no edits.
    NoEdits,
    /// The numbered block's `old_text` is empty.
    EmptyOldText(usize),
    /// The numbered block's `old_text` occurs nowhere in the file.
    NotFound(usize),
    /// The numbered block's `old_text` occurs more than once.
    Ambiguous(usize),
    /// Two blocks' matches overlap or nest.
    Overlap,
}

// ---------------------------------------------------------------------------
// The model
// ---------------------------------------------------------------------------

/// The (old, new) texts of the blocks.
pub open spec fn block_texts(edits: Seq<EditBlock>) -> Seq<(Seq<char>, Seq<char>)> {
    edits.map_values(|e: EditBlock| (e.old_text@, e.new_text@))
}

/// The length of the byte-order mark that `s` starts with (0 or 1 chars).
pub open spec fn bom_len(s: Seq<char>) -> int {
    if s.len() > 0 && s[0] == '\u{feff}' {
        1
    } else {
        0
    }
}

/// Whether `s` contains a `"\r\n"` line ending.
pub open spec fn has_crlf(s: Seq<char>) -> bool {
    exists|i: int| 0 <= i && i + 1 < s.len() && #[trigger] s[i] == '\r' && s[i + 1] == '\n'
}

/// `t` with every `"\r\n"` replaced by `"\n"`, scanning left to right.
pub open spec fn crlf_to_lf(t: Seq<char>) -> Seq<char>
    decreases t.len(),
{
    if t.len() == 0 {
        seq![]
    } else if t.len() >= 2 && t[0] == '\r' && t[1] == '\n' {
        seq!['\n'] + crlf_to_lf(t.skip(2))
    } else {
        seq![t[0]] + crlf_to_lf(t.skip(1))
    }
}

/// `t` with every `"\n"` replaced by `"\r\n"`.
pub open spec fn lf_to_crlf(t: Seq<char>) -> Seq<char>
    decreases t.len(),
{
    if t.len() == 0 {
        seq![]
    } else if t[0] == '\n' {
        seq!['\r', '\n'] + lf_to_crlf(t.skip(1))
    } else {
        seq![t[0]] + lf_to_crlf(t.skip(1))
    }
}

/// Model-supplied text in the file's line endings: in a CRLF file, every line
/// ending becomes `"\r\n"`; otherwise the text is unchanged.
pub open spec fn translated(t: Seq<char>, crlf: bool) -> Seq<char> {
    if crlf {
        lf_to_crlf(crlf_to_lf(t))
    } else {
        t
    }
}

/// Whether `needle` occurs in `hay` starting at `i`.
pub open spec fn occurs_at(hay: Seq<char>, needle: Seq<char>, i: int) -> bool {
    0 <= i && i + needle.len() <= hay.len() && hay.subrange(i, i + needle.len()) == needle
}

/// Whether `needle` occurs in `hay` at all.
pub open spec fn occurs(hay: Seq<char>, needle: Seq<char>) -> bool {
    exists|i: int| occurs_at(hay, needle, i)
}

/// The position of the first occurrence of `needle` in `hay`.
pub open spec fn first_match(hay: Seq<char>, needle: Seq<char>) -> int {
    choose|i: int| occurs_at(hay, needle, i) && forall|j: int| 0 <= j < i ==> !occurs_at(hay, needle, j)
}

/// Whether `needle` occurs anywhere in `hay` besides its first occurrence,
/// overlapping occurrences included.
pub open spec fn matches_again(hay: Seq<char>, needle: Seq<char>) -> bool {
    exists|j: int| j != first_match(hay, needle) && occurs_at(hay, needle, j)
}

/// What is wrong with block number `number` (its `old_text` is `old`), if
/// anything.
#[verifier::opaque]
pub open spec fn block_error(body: Seq<char>, crlf: bool, number: nat, old: Seq<char>) -> Option<
    EditError,
> {
    let o = translated(old, crlf);
    if old.len() == 0 {
        Some(EditError::EmptyOldText(number as usize))
    } else if !occurs(body, o) {
        Some(EditError::NotFound(number as usize))
    } else if matches_again(body, o) {
        Some(EditError::Ambiguous(number as usize))
    } else {
        None
    }
}

/// The error of the first failing block, checking the blocks in order.
pub open spec fn first_block_error(
    body: Seq<char>,
    crlf: bool,
    blocks: Seq<(Seq<char>, Seq<char>)>,
) -> Option<EditError>
    decreases blocks.len(),
{
    if blocks.len() == 0 {
        None
    } else {
        match first_block_error(body, crlf, blocks.drop_last()) {
            Some(e) => Some(e),
            None => block_error(body, crlf, blocks.len(), blocks.last().0),
        }
    }
}

/// A matched range `[start, end)` and its replacement.
pub type SpanModel = (int, int, Seq<char>);

/// The span of a block whose `old_text` matches uniquely.
pub open spec fn block_span(body: Seq<char>, crlf: bool, block: (Seq<char>, Seq<char>)) -> SpanModel {
    let o = translated(block.0, crlf);
    let start = first_match(body, o);
    (start, start + o.len(), translated(block.1, crlf))
}

/// The spans of all blocks, in block order.
pub open spec fn block_spans(body: Seq<char>, crlf: bool, blocks: Seq<(Seq<char>, Seq<char>)>) -> Seq<
    SpanModel,
> {
    blocks.map_values(|b: (Seq<char>, Seq<char>)| block_span(body, crlf, b))
}

/// `x` placed into `sorted` after every span that starts at or before it.
pub open spec fn insert_by_start(sorted: Seq<SpanModel>, x: SpanModel) -> Seq<SpanModel>
    decreases sorted.len(),
{
    if sorted.len() == 0 {
        seq![x]
    } else if sorted.last().0 <= x.0 {
        sorted.push(x)
    } else {
        insert_by_start(sorted.drop_last(), x).push(sorted.last())
    }
}

/// The spans stably sorted by start.
pub open spec fn sort_by_start(spans: Seq<SpanModel>) -> Seq<SpanModel>
    decreases spans.len(),
{
    if spans.len() == 0 {
        seq![]
    } else {
        insert_by_start(sort_by_start(spans.drop_last()), spans.last())
    }
}

/// Whether two neighbours in the sorted spans overlap or nest.
pub open spec fn has_overlap(sorted: Seq<SpanModel>) -> bool {
    exists|i: int, j: int|
        0 <= i && j == i + 1 && j < sorted.len() && #[trigger] sorted[j].0 < #[trigger] sorted[i].1
}

/// `body` from `cursor` on, with each of the sorted `spans` replaced by its
/// new text.
pub open spec fn splice_from(body: Seq<char>, spans: Seq<SpanModel>, cursor: int) -> Seq<char>
    decreases spans.len(),
{
    if spans.len() == 0 {
        body.skip(cursor)
    } else {
        body.subrange(cursor, spans[0].0) + spans[0].2 + splice_from(
            body,
            spans.drop_first(),
            spans[0].1,
        )
    }
}

/// The outcome of applying `blocks` to the file contents `original`: the new
/// contents, or the error that refuses the edit.
pub open spec fn edit_outcome(original: Seq<char>, blocks: Seq<(Seq<char>, Seq<char>)>) -> Result<
    Seq<char>,
    EditError,
> {
    if blocks.len() == 0 {
        Err(EditError::NoEdits)
    } else {
        let b = bom_len(original);
        let body = original.skip(b);
        let crlf = has_crlf(body);
        match first_block_error(body, crlf, blocks) {
            Some(e) => Err(e),
            None => {
                let sorted = sort_by_start(block_spans(body, crlf, blocks));
                if has_overlap(sorted) {
                    Err(EditError::Overlap)
                } else {
                    Ok(original.take(b) + splice_from(body, sorted, 0))
                }
            },
        }
    }
}

// ---------------------------------------------------------------------------
// Line endings
// ---------------------------------------------------------------------------

/// Whether `s` contains `"\r\n"`.
fn contains_crlf(s: &Vec<char>, from: usize) -> (b: bool)
    requires
        from <= s@.len(),
    ensures
        b == has_crlf(s@.skip(from as int)),
{
    let n = s.len();
    let mut i = from;
    while n > 0 && i < n - 1
        invariant
            from <= i <= n == s@.len(),
            forall|k: int| from <= k < i && k + 1 < n ==> !(#[trigger] s@[k] == '\r' && s@[k + 1] == '\n'),
        decreases n - i,
    {
        if s[i] == '\r' && s[i + 1] == '\n' {
            assert(s@.skip(from as int)[i - from] == '\r');
            assert(s@.skip(from as int)[i - from + 1] == '\n');
            return true;
        }
        i = i + 1;
    }
    assert forall|k: int|
        0 <= k && k + 1 < s@.skip(from as int).len() implies !(#[trigger] s@.skip(from as int)[k]
        == '\r' && s@.skip(from as int)[k + 1] == '\n') by {
        assert(s@.skip(from as int)[k] == s@[from + k]);
        assert(s@.skip(from as int)[k + 1] == s@[from + k + 1]);
    }
    false
}

fn crlf_to_lf_vec(t: &Vec<char>) -> (r: Vec<char>)
    ensures
        r@ == crlf_to_lf(t@),
{
    let mut out: Vec<char> = Vec::new();
    let n = t.len();
    let mut i: usize = 0;
    assert(t@.skip(0) =~= t@);
    while i < n
        invariant
            i <= n == t@.len(),
            out@ + crlf_to_lf(t@.skip(i as int)) == crlf_to_lf(t@),
        decreases n - i,
    {
        let ghost rest = t@.skip(i as int);
        if i + 1 < n && t[i] == '\r' && t[i + 1] == '\n' {
            out.push('\n');
            assert(rest.skip(2) =~= t@.skip(i + 2));
            assert(crlf_to_lf(rest) == seq!['\n'] + crlf_to_lf(rest.skip(2)));
            assert(out@ + crlf_to_lf(t@.skip(i + 2)) =~= out@.drop_last() + crlf_to_lf(rest));
            i = i + 2;
        } else {
            out.push(t[i]);
            assert(rest.skip(1) =~= t@.skip(i + 1));
            assert(crlf_to_lf(rest) == seq![t@[i as int]] + crlf_to_lf(rest.skip(1)));
            assert(out@ + crlf_to_lf(t@.skip(i + 1)) =~= out@.drop_last() + crlf_to_lf(rest));
            i = i + 1;
        }
    }
    assert(crlf_to_lf(t@.skip(i as int)) =~= Seq::<char>::empty());
    assert(out@ + Seq::<char>::empty() =~= out@);
    out
}

fn lf_to_crlf_vec(t: &Vec<char>) -> (r: Vec<char>)
    ensures
        r@ == lf_to_crlf(t@),
{
    let mut out: Vec<char> = Vec::new();
    let n = t.len();
    assert(t@.skip(0) =~= t@);
    for i in 0..n
        invariant
            n == t@.len(),
            out@ + lf_to_crlf(t@.skip(i as int)) == lf_to_crlf(t@),
    {
        let ghost rest = t@.skip(i as int);
        let ghost before = out@;
        assert(rest.skip(1) =~= t@.skip(i + 1));
        if t[i] == '\n' {
            out.push('\r');
            out.push('\n');
            assert(out@ =~= before + seq!['\r', '\n']);
        } else {
            out.push(t[i]);
            assert(out@ =~= before + seq![t@[i as int]]);
        }
        assert(out@ + lf_to_crlf(t@.skip(i + 1)) =~= before + lf_to_crlf(rest));
    }
    assert(lf_to_crlf(t@.skip(n as int)) =~= Seq::<char>::empty());
    assert(out@ + Seq::<char>::empty() =~= out@);
    out
}

/// `translate` on characters.
fn translate_chars(t: &Vec<char>, crlf: bool) -> (r: Vec<char>)
    ensures
        r@ == translated(t@, crlf),
{
    if crlf {
        let lf = crlf_to_lf_vec(t);
        lf_to_crlf_vec(&lf)
    } else {
        t.clone()
    }
}

/// Translate model-supplied `\n` line endings to `\r\n` when the file uses
/// them (`crlf`), so an `old_text` written with `\n` still matches a CRLF
/// file; an existing `\r\n` is not doubled.
pub fn translate(text: &str, crlf: bool) -> (r: String)
    ensures
        r@ == translated(text@, crlf),
{
    let v = chars_of(text);
    let t = translate_chars(&v, crlf);
    let mut r = String::new();
    push_chars(&mut r, &t);
    assert(Seq::<char>::empty() + t@ =~= t@);
    r
}

// ---------------------------------------------------------------------------
// Matching
// ---------------------------------------------------------------------------

/// Whether `needle` occurs in `hay` at `i`.
fn matches_at(hay: &Vec<char>, needle: &Vec<char>, i: usize) -> (b: bool)
    requires
        i + needle@.len() <= hay@.len(),
    ensures
        b == occurs_at(hay@, needle@, i as int),
{
    let m = needle.len();
    let n = hay.len();
    for k in 0..m
        invariant
            n == hay@.len(),
            m == needle@.len(),
            i + m <= hay@.len(),
            forall|j: int| 0 <= j < k ==> hay@[i + j] == needle@[j],
    {
        assert(i + k < hay@.len());
        if hay[i + k] != needle[k] {
            assert(hay@.subrange(i as int, i + m)[k as int] != needle@[k as int]);
            return false;
        }
    }
    assert(hay@.subrange(i as int, i + m) =~= needle@);
    true
}

/// The first occurrence of `needle` in `hay` at or after `from`.
fn find_from(hay: &Vec<char>, needle: &Vec<char>, from: usize) -> (r: Option<usize>)
    ensures
        match r {
            Some(i) => from <= i && occurs_at(hay@, needle@, i as int) && forall|j: int|
                from <= j < i ==> !occurs_at(hay@, needle@, j),
            None => forall|j: int| from <= j ==> !occurs_at(hay@, needle@, j),
        },
{
    let n = hay.len();
    let m = needle.len();
    if m > n {
        return None;
    }
    let last = n - m;
    if from > last {
        return None;
    }
    let mut i = from;
    loop
        invariant
            m <= n == hay@.len(),
            m == needle@.len(),
            last == n - m,
            from <= i <= last,
            forall|j: int| from <= j < i ==> !occurs_at(hay@, needle@, j),
        decreases last - i,
    {
        if matches_at(hay, needle, i) {
            return Some(i);
        }
        if i == last {
            return None;
        }
        i = i + 1;
    }
}

/// Where a block matched: its unique start, or the error that refuses it.
fn unique_match(hay: &Vec<char>, needle: &Vec<char>, number: usize) -> (r: Result<usize, EditError>)
    requires
        needle@.len() > 0,
    ensures
        match r {
            Ok(start) => occurs(hay@, needle@) && !matches_again(hay@, needle@) && start
                == first_match(hay@, needle@),
            Err(e) => (!occurs(hay@, needle@) && e == EditError::NotFound(number)) || (occurs(
                hay@,
                needle@,
            ) && matches_again(hay@, needle@) && e == EditError::Ambiguous(number)),
        },
        r is Ok ==> first_match(hay@, needle@) + needle@.len() <= hay@.len(),
        r is Ok ==> 0 <= first_match(hay@, needle@),
{
    let _n = hay.len();
    match find_from(hay, needle, 0) {
        None => {
            assert(!occurs(hay@, needle@)) by {
                if occurs(hay@, needle@) {
                    let j = choose|j: int| occurs_at(hay@, needle@, j);
                    assert(0 <= j);
                }
            }
            Err(EditError::NotFound(number))
        },
        Some(first) => {
            assert(occurs(hay@, needle@));
            let ghost fm = first_match(hay@, needle@);
            assert(fm == first) by {
                assert(occurs_at(hay@, needle@, first as int));
                assert(occurs_at(hay@, needle@, fm) && forall|j: int|
                    0 <= j < fm ==> !occurs_at(hay@, needle@, j));
                if fm < first {
                    assert(!occurs_at(hay@, needle@, fm));
                }
                if first < fm {
                    assert(!occurs_at(hay@, needle@, first as int));
                }
            }
            assert(occurs_at(hay@, needle@, first as int));
            assert(first + needle@.len() <= hay@.len());
            match find_from(hay, needle, first + 1) {
                Some(_) => Err(EditError::Ambiguous(number)),
                None => {
                    assert(!matches_again(hay@, needle@)) by {
                        if matches_again(hay@, needle@) {
                            let j = choose|j: int| j != fm && occurs_at(hay@, needle@, j);
                            assert(0 <= j);
                        }
                    }
                    Ok(first)
                },
            }
        },
    }
}

// ---------------------------------------------------------------------------
// Spans
// ---------------------------------------------------------------------------

/// A matched range and its replacement.
struct Span {
    start: usize,
    end: usize,
    new: Vec<char>,
}

spec fn span_model(s: Span) -> SpanModel {
    (s.start as int, s.end as int, s.new@)
}

spec fn span_models(v: Seq<Span>) -> Seq<SpanModel> {
    v.map_values(|s: Span| span_model(s))
}

/// Insert `x` after every span that starts at or before it.
fn insert_span(sorted: &mut Vec<Span>, x: Span)
    ensures
        span_models(final(sorted)@) == insert_by_start(span_models(old(sorted)@), span_model(x)),
    decreases old(sorted)@.len(),
{
    let n = sorted.len();
    if n == 0 || sorted[n - 1].start <= x.start {
        sorted.push(x);
        assert(span_models(sorted@) =~= span_models(old(sorted)@).push(span_model(x)));
    } else {
        let last = sorted.pop().unwrap();
        assert(span_models(sorted@) =~= span_models(old(sorted)@).drop_last());
        insert_span(sorted, x);
        let ghost mid = span_models(sorted@);
        sorted.push(last);
        assert(span_models(sorted@) =~= mid.push(span_model(last)));
    }
}

/// Every span lies in the body with its start at or before its end.
spec fn spans_in(body_len: int, spans: Seq<SpanModel>) -> bool {
    forall|i: int| 0 <= i < spans.len() ==> 0 <= #[trigger] spans[i].0 <= spans[i].1 <= body_len
}

proof fn lemma_insert_keeps_in(body_len: int, sorted: Seq<SpanModel>, x: SpanModel)
    requires
        spans_in(body_len, sorted),
        0 <= x.0 <= x.1 <= body_len,
    ensures
        spans_in(body_len, insert_by_start(sorted, x)),
        insert_by_start(sorted, x).len() == sorted.len() + 1,
    decreases sorted.len(),
{
    if sorted.len() > 0 && sorted.last().0 > x.0 {
        lemma_insert_keeps_in(body_len, sorted.drop_last(), x);
    }
}

/// Stably sort the spans by start.
fn sort_spans(spans: Vec<Span>, Ghost(body_len): Ghost<int>) -> (r: Vec<Span>)
    requires
        spans_in(body_len, span_models(spans@)),
    ensures
        span_models(r@) == sort_by_start(span_models(spans@)),
        spans_in(body_len, span_models(r@)),
{
    let ghost all = span_models(spans@);
    let mut sorted: Vec<Span> = Vec::new();
    let mut rest = spans;
    let mut pending: Vec<Span> = Vec::new();
    // Reverse into `pending` so the spans can be taken in their original order.
    while rest.len() > 0
        invariant
            span_models(rest@) + span_models(pending@).reverse() == all,
        decreases rest@.len(),
    {
        let s = rest.pop().unwrap();
        pending.push(s);
        assert(span_models(rest@) + span_models(pending@).reverse() =~= all);
    }
    assert(span_models(pending@).reverse() =~= all);
    let n = pending.len();
    let mut k: usize = 0;
    assert(all.take(0) =~= Seq::<SpanModel>::empty());
    while pending.len() > 0
        invariant
            k + pending@.len() == n == all.len(),
            span_models(pending@).reverse() == all.skip(k as int),
            span_models(sorted@) == sort_by_start(all.take(k as int)),
            spans_in(body_len, span_models(sorted@)),
            spans_in(body_len, all),
        decreases pending@.len(),
    {
        let ghost before = span_models(pending@);
        let s = pending.pop().unwrap();
        proof {
            assert(before.reverse()[0] == before.last());
            assert(all[k as int] == all.skip(k as int)[0]);
            assert(span_model(s) == all[k as int]);
            assert(span_models(pending@) =~= before.drop_last());
            assert forall|j: int| 0 <= j < before.len() - 1 implies #[trigger] before.drop_last().reverse()[j]
                == before.reverse()[j + 1] by {
            }
            assert(before.drop_last().reverse() =~= before.reverse().drop_first());
            assert(all.skip(k as int).drop_first() =~= all.skip(k + 1));
            assert(span_models(pending@).reverse() =~= all.skip(k + 1));
            assert(all.take(k + 1).drop_last() =~= all.take(k as int));
            assert(all.take(k + 1).last() == all[k as int]);
            lemma_insert_keeps_in(body_len, span_models(sorted@), span_model(s));
        }
        insert_span(&mut sorted, s);
        k = k + 1;
    }
    assert(all.take(n as int) =~= all);
    sorted
}

/// Refuse sorted spans of which two neighbours overlap or nest.
fn reject_overlaps(sorted: &Vec<Span>) -> (r: Result<(), EditError>)
    ensures
        r is Err <==> has_overlap(span_models(sorted@)),
        r matches Err(e) ==> e == EditError::Overlap,
{
    let n = sorted.len();
    let ghost m = span_models(sorted@);
    let mut i: usize = 0;
    while n > 0 && i < n - 1
        invariant
            n == sorted@.len() == m.len(),
            m == span_models(sorted@),
            forall|j: int, l: int| 0 <= j < i && l == j + 1 && l < n ==> !(m[l].0 < m[j].1),
        decreases n - i,
    {
        if sorted[i + 1].start < sorted[i].end {
            assert(m[i + 1].0 < m[i as int].1);
            assert(has_overlap(m));
            return Err(EditError::Overlap);
        }
        i = i + 1;
    }
    Ok(())
}

/// Whether the sorted spans follow one another without overlapping.
spec fn in_order(spans: Seq<SpanModel>) -> bool {
    forall|i: int, j: int|
        0 <= i && j == i + 1 && j < spans.len() ==> #[trigger] spans[i].1 <= #[trigger] spans[j].0
}

/// The body with each sorted, non-overlapping span replaced.
fn splice(body: &Vec<char>, sorted: &Vec<Span>) -> (r: Vec<char>)
    requires
        spans_in(body@.len() as int, span_models(sorted@)),
        in_order(span_models(sorted@)),
    ensures
        r@ == splice_from(body@, span_models(sorted@), 0),
{
    let ghost all = span_models(sorted@);
    let mut out: Vec<char> = Vec::new();
    let mut cursor: usize = 0;
    let n = sorted.len();
    assert(all.skip(0) =~= all);
    for k in 0..n
        invariant
            n == sorted@.len() == all.len(),
            all == span_models(sorted@),
            spans_in(body@.len() as int, all),
            in_order(all),
            k > 0 ==> cursor == all[k - 1].1,
            k == 0 ==> cursor == 0,
            cursor <= body@.len(),
            out@ + splice_from(body@, all.skip(k as int), cursor as int) == splice_from(
                body@,
                all,
                0,
            ),
    {
        let ghost rest = all.skip(k as int);
        let ghost before = out@;
        let ghost old_cursor = cursor;
        let s = &sorted[k];
        assert(all[k as int] == span_model(*s));
        if k > 0 {
            assert(all[k - 1].1 <= all[k as int].0);
        }
        assert(spans_in(body@.len() as int, all) ==> 0 <= all[k as int].0 <= all[k as int].1 <= body@.len());
        push_range_vec(&mut out, body, cursor, s.start);
        extend(&mut out, &s.new);
        proof {
            assert(rest[0] == all[k as int]);
            assert(rest.drop_first() =~= all.skip(k + 1));
            assert(splice_from(body@, rest, cursor as int) == body@.subrange(
                cursor as int,
                rest[0].0,
            ) + rest[0].2 + splice_from(body@, rest.drop_first(), rest[0].1));
        }
        cursor = s.end;
        assert(out@ + splice_from(body@, all.skip(k + 1), cursor as int) =~= before
            + splice_from(body@, rest, old_cursor as int));
    }
    proof {
        assert(all.skip(n as int) =~= Seq::<SpanModel>::empty());
    }
    push_range_vec(&mut out, body, cursor, body.len());
    assert(body@.subrange(cursor as int, body@.len() as int) =~= body@.skip(cursor as int));
    out
}

fn push_range_vec(out: &mut Vec<char>, v: &Vec<char>, from: usize, to: usize)
    requires
        from <= to <= v@.len(),
    ensures
        final(out)@ == old(out)@ + v@.subrange(from as int, to as int),
{
    let ghost start = out@;
    for k in from..to
        invariant
            from <= to <= v@.len(),
            out@ == start + v@.subrange(from as int, k as int),
    {
        out.push(v[k]);
        assert(v@.subrange(from as int, k + 1) =~= v@.subrange(from as int, k as int).push(
            v@[k as int],
        ));
    }
}

fn extend(out: &mut Vec<char>, v: &Vec<char>)
    ensures
        final(out)@ == old(out)@ + v@,
{
    push_range_vec(out, v, 0, v.len());
    assert(v@.subrange(0, v@.len() as int) =~= v@);
}

// ---------------------------------------------------------------------------
// Applying the edits
// ---------------------------------------------------------------------------

proof fn lemma_translate_nonempty(t: Seq<char>, crlf: bool)
    requires
        t.len() > 0,
    ensures
        translated(t, crlf).len() > 0,
{
    if crlf {
        let l = crlf_to_lf(t);
        assert(l.len() > 0);
        assert(lf_to_crlf(l).len() > 0);
    }
}

proof fn lemma_first_error_extends(
    body: Seq<char>,
    crlf: bool,
    blocks: Seq<(Seq<char>, Seq<char>)>,
    k: int,
)
    requires
        0 <= k <= blocks.len(),
        first_block_error(body, crlf, blocks.take(k)) is Some,
    ensures
        first_block_error(body, crlf, blocks) == first_block_error(body, crlf, blocks.take(k)),
    decreases blocks.len() - k,
{
    if k == blocks.len() {
        assert(blocks.take(k) =~= blocks);
    } else {
        assert(blocks.drop_last().take(k) =~= blocks.take(k));
        lemma_first_error_extends(body, crlf, blocks.drop_last(), k);
    }
}

proof fn lemma_block_error(body: Seq<char>, crlf: bool, number: nat, old: Seq<char>)
    ensures
        block_error(body, crlf, number, old) == (if old.len() == 0 {
            Some(EditError::EmptyOldText(number as usize))
        } else if !occurs(body, translated(old, crlf)) {
            Some(EditError::NotFound(number as usize))
        } else if matches_again(body, translated(old, crlf)) {
            Some(EditError::Ambiguous(number as usize))
        } else {
            None
        }),
{
    reveal(block_error);
}

/// Locate block number `number` in `body`: its span when its `old_text`
/// matches uniquely, or the error that refuses it.
fn locate_block(body: &Vec<char>, crlf: bool, block: &EditBlock, number: usize) -> (r: Result<
    Span,
    EditError,
>)
    ensures
        match r {
            Ok(sp) => block_error(body@, crlf, number as nat, block.old_text@) is None
                && span_model(sp) == block_span(body@, crlf, (block.old_text@, block.new_text@))
                && 0 <= sp.start <= sp.end <= body@.len(),
            Err(e) => block_error(body@, crlf, number as nat, block.old_text@) == Some(e),
        },
{
    let _n = body.len();
    proof {
        lemma_block_error(body@, crlf, number as nat, block.old_text@);
    }
    let oldv = chars_of(block.old_text.as_str());
    if oldv.len() == 0 {
        return Err(EditError::EmptyOldText(number));
    }
    let o = translate_chars(&oldv, crlf);
    proof {
        lemma_translate_nonempty(oldv@, crlf);
    }
    let newv = chars_of(block.new_text.as_str());
    let nw = translate_chars(&newv, crlf);
    match unique_match(body, &o, number) {
        Err(e) => Err(e),
        Ok(start) => Ok(Span { start, end: start + o.len(), new: nw }),
    }
}

/// Where the body starts after a leading byte-order mark: 1 when the text
/// opens with U+FEFF, else 0.
fn split_bom(content: &Vec<char>) -> (b: usize)
    ensures
        b == bom_len(content@),
{
    if content.len() > 0 && content[0] == '\u{feff}' {
        1
    } else {
        0
    }
}

/// Refuse a call that supplies no edits; the caller checks this before
/// touching the file.
pub fn require_edits(edits: &[EditBlock]) -> (r: Result<(), EditError>)
    ensures
        r is Err <==> edits@.len() == 0,
        r matches Err(e) ==> e == EditError::NoEdits,
{
    if edits.len() == 0 {
        Err(EditError::NoEdits)
    } else {
        Ok(())
    }
}

/// Apply `edits` to the file contents `original`: every block's `old_text`
/// (in the file's line endings) must occur exactly once in the contents after
/// any byte-order mark, no two matches may overlap, and the replacements are
/// spliced in place while the byte-order mark and line endings are kept.
pub fn apply_edits(original: &str, edits: &[EditBlock]) -> (r: Result<String, EditError>)
    ensures
        match r {
            Ok(s) => edit_outcome(original@, block_texts(edits@)) == Ok::<Seq<char>, EditError>(s@),
            Err(e) => edit_outcome(original@, block_texts(edits@)) == Err::<Seq<char>, EditError>(e),
        },
{
    let ghost blocks = block_texts(edits@);
    if edits.len() == 0 {
        return Err(EditError::NoEdits);
    }
    let all = chars_of(original);
    let b = split_bom(&all);
    let mut body: Vec<char> = Vec::new();
    push_range_vec(&mut body, &all, b, all.len());
    assert(body@ =~= original@.skip(b as int));
    let crlf = contains_crlf(&all, b);
    let ghost bodyv = body@;
    assert(b == bom_len(original@));
    assert(crlf == has_crlf(bodyv));
    let mut spans: Vec<Span> = Vec::new();
    let n = edits.len();
    assert(blocks.take(0) =~= Seq::<(Seq<char>, Seq<char>)>::empty());
    for i in 0..n
        invariant
            n == edits@.len() == blocks.len(),
            blocks == block_texts(edits@),
            bodyv == body@,
            bodyv == original@.skip(bom_len(original@)),
            crlf == has_crlf(bodyv),
            first_block_error(bodyv, crlf, blocks.take(i as int)) is None,
            span_models(spans@) == block_spans(bodyv, crlf, blocks.take(i as int)),
            spans_in(bodyv.len() as int, span_models(spans@)),
    {
        let ghost pre = blocks.take(i as int);
        let ghost next = blocks.take(i + 1);
        proof {
            assert(next.drop_last() =~= pre);
            assert(next.last() == blocks[i as int]);
            assert(blocks[i as int] == (edits@[i as int].old_text@, edits@[i as int].new_text@));
        }
        match locate_block(&body, crlf, &edits[i], i + 1) {
            Err(e) => {
                proof {
                    assert(first_block_error(bodyv, crlf, next) == Some(e));
                    lemma_first_error_extends(bodyv, crlf, blocks, i + 1);
                }
                return Err(e);
            },
            Ok(sp) => {
                let ghost before = span_models(spans@);
                spans.push(sp);
                proof {
                    assert(span_models(spans@) =~= before.push(span_model(sp)));
                    assert(block_spans(bodyv, crlf, next) =~= block_spans(bodyv, crlf, pre).push(
                        block_span(bodyv, crlf, blocks[i as int]),
                    ));
                    assert forall|j: int| 0 <= j < span_models(spans@).len() implies 0
                        <= #[trigger] span_models(spans@)[j].0 <= span_models(spans@)[j].1
                        <= bodyv.len() by {
                        if j < before.len() {
                            assert(span_models(spans@)[j] == before[j]);
                        }
                    }
                }
            },
        }
    }
    assert(blocks.take(n as int) =~= blocks);
    let sorted = sort_spans(spans, Ghost(bodyv.len() as int));
    if let Err(e) = reject_overlaps(&sorted) {
        return Err(e);
    }
    let out = splice(&body, &sorted);
    let mut r = string_of_range_chars(&all, 0, b);
    push_chars(&mut r, &out);
    assert(all@.subrange(0, b as int) =~= original@.take(b as int));
    Ok(r)
}

fn string_of_range_chars(v: &Vec<char>, from: usize, to: usize) -> (s: String)
    requires
        from <= to <= v@.len(),
    ensures
        s@ == v@.subrange(from as int, to as int),
{
    let mut s = String::new();
    push_range(&mut s, v, from, to);
    assert(Seq::<char>::empty() + v@.subrange(from as int, to as int) =~= v@.subrange(
        from as int,
        to as int,
    ));
    s
}

// ---------------------------------------------------------------------------
// Messages
// ---------------------------------------------------------------------------

/// The model-facing text of an edit error about the file `path`.
pub open spec fn edit_error_message(e: EditError, path: Seq<char>) -> Seq<char> {
    match e {
        EditError::NoEdits => "no edits supplied"@,
        EditError::EmptyOldText(n) => "edit "@ + decimal(n as nat) + ": old_text is empty"@,
        EditError::NotFound(n) => "edit "@ + decimal(n as nat) + ": old_text not found in `"@
            + path + "`; provide more surrounding context"@,
        EditError::Ambiguous(n) => "edit "@ + decimal(n as nat)
            + ": old_text matches more than once in `"@ + path
            + "`; provide more surrounding context to make it unique"@,
        EditError::Overlap => "edits overlap in `"@ + path
            + "`; overlapping or nested edits are not allowed"@,
    }
}

impl EditError {
    /// The message reported to the model for this error about `path`.
    pub fn message(&self, path: &str) -> (r: String)
        ensures
            r@ == edit_error_message(*self, path@),
    {
        let mut r = String::new();
        match *self {
            EditError::NoEdits => {
                push_str(&mut r, "no edits supplied");
            },
            EditError::EmptyOldText(n) => {
                push_str(&mut r, "edit ");
                push_decimal(&mut r, n as u64);
                push_str(&mut r, ": old_text is empty");
            },
            EditError::NotFound(n) => {
                push_str(&mut r, "edit ");
                push_decimal(&mut r, n as u64);
                push_str(&mut r, ": old_text not found in `");
                push_str(&mut r, path);
                push_str(&mut r, "`; provide more surrounding context");
            },
            EditError::Ambiguous(n) => {
                push_str(&mut r, "edit ");
                push_decimal(&mut r, n as u64);
                push_str(&mut r, ": old_text matches more than once in `");
                push_str(&mut r, path);
                push_str(&mut r, "`; provide more surrounding context to make it unique");
            },
            EditError::Overlap => {
                push_str(&mut r, "edits overlap in `");
                push_str(&mut r, path);
                push_str(&mut r, "`; overlapping or nested edits are not allowed");
            },
        }
        assert(r@ =~= edit_error_message(*self, path@));
        r
    }
}

/// The report of a successful edit: how many blocks were applied to `path`.
pub open spec fn edit_summary_text(n: nat, path: Seq<char>) -> Seq<char> {
    "applied "@ + decimal(n) + (if n == 1 {
        " edit"@
    } else {
        " edits"@
    }) + " to `"@ + path + "`"@
}

/// The report of a successful edit of `n` blocks to `path`.
pub fn edit_summary(n: usize, path: &str) -> (r: String)
    ensures
        r@ == edit_summary_text(n as nat, path@),
{
    let mut r = String::new();
    push_str(&mut r, "applied ");
    push_decimal(&mut r, n as u64);
    if n == 1 {
        push_str(&mut r, " edit");
    } else {
        push_str(&mut r, " edits");
    }
    push_str(&mut r, " to `");
    push_str(&mut r, path);
    push_str(&mut r, "`");
    assert(r@ =~= edit_summary_text(n as nat, path@));
    r
}

} // verus!

verus! {

// ---------------------------------------------------------------------------
// Laws
// ---------------------------------------------------------------------------

proof fn lemma_first_error_none_each(body: Seq<char>, crlf: bool, blocks: Seq<(Seq<char>, Seq<char>)>, i: int)
    requires
        0 <= i < blocks.len(),
        first_block_error(body, crlf, blocks) is None,
    ensures
        block_error(body, crlf, (i + 1) as nat, blocks[i].0) is None,
    decreases blocks.len(),
{
    if i < blocks.len() - 1 {
        lemma_first_error_none_each(body, crlf, blocks.drop_last(), i);
    }
}

/// Exact, unique matching: an edit applies only when every block's
/// `old_text` is non-empty and, in the file's line endings, occurs in the
/// contents (after any byte-order mark) exactly once, no overlapping
/// occurrence excepted; one block that matches zero times or more than once
/// refuses the whole edit.
pub proof fn lemma_edit_needs_unique_matches(
    original: Seq<char>,
    blocks: Seq<(Seq<char>, Seq<char>)>,
)
    ensures
        ({
            let body = original.skip(bom_len(original));
            let crlf = has_crlf(body);
            edit_outcome(original, blocks) is Err <==> blocks.len() == 0 || has_overlap(
                sort_by_start(block_spans(body, crlf, blocks)),
            ) || exists|i: int|
                0 <= i < blocks.len() && {
                    let o = translated(#[trigger] blocks[i].0, crlf);
                    ||| blocks[i].0.len() == 0
                    ||| !occurs(body, o)
                    ||| matches_again(body, o)
                }
        }),
{
    let body = original.skip(bom_len(original));
    let crlf = has_crlf(body);
    if first_block_error(body, crlf, blocks) is Some {
        if blocks.len() > 0 {
            let i = lemma_some_error_witness(body, crlf, blocks);
            lemma_block_error(body, crlf, (i + 1) as nat, blocks[i].0);
        }
    } else {
        assert forall|i: int| 0 <= i < blocks.len() implies !({
            let o = translated(#[trigger] blocks[i].0, crlf);
            ||| blocks[i].0.len() == 0
            ||| !occurs(body, o)
            ||| matches_again(body, o)
        }) by {
            lemma_first_error_none_each(body, crlf, blocks, i);
            lemma_block_error(body, crlf, (i + 1) as nat, blocks[i].0);
        }
    }
}

proof fn lemma_some_error_witness(body: Seq<char>, crlf: bool, blocks: Seq<(Seq<char>, Seq<char>)>) -> (i: int)
    requires
        first_block_error(body, crlf, blocks) is Some,
    ensures
        0 <= i < blocks.len(),
        block_error(body, crlf, (i + 1) as nat, blocks[i].0) is Some,
    decreases blocks.len(),
{
    if first_block_error(body, crlf, blocks.drop_last()) is Some {
        let j = lemma_some_error_witness(body, crlf, blocks.drop_last());
        j
    } else {
        (blocks.len() - 1) as int
    }
}

/// One block whose `old_text` occurs exactly once replaces that occurrence
/// and nothing else: the contents before and after it, and any byte-order
/// mark, are kept as they were.
pub proof fn lemma_single_edit(original: Seq<char>, old: Seq<char>, new: Seq<char>, i: int)
    requires
        old.len() > 0,
        occurs_at(
            original.skip(bom_len(original)),
            translated(old, has_crlf(original.skip(bom_len(original)))),
            i,
        ),
        forall|j: int|
            j != i ==> !occurs_at(
                original.skip(bom_len(original)),
                translated(old, has_crlf(original.skip(bom_len(original)))),
                j,
            ),
    ensures
        ({
            let b = bom_len(original);
            let body = original.skip(b);
            let crlf = has_crlf(body);
            let o = translated(old, crlf);
            edit_outcome(original, seq![(old, new)]) == Ok::<Seq<char>, EditError>(
                original.take(b) + body.take(i) + translated(new, crlf) + body.skip(i + o.len()),
            )
        }),
{
    let b = bom_len(original);
    let body = original.skip(b);
    let crlf = has_crlf(body);
    let o = translated(old, crlf);
    let blocks = seq![(old, new)];
    lemma_translate_nonempty(old, crlf);
    let fm = first_match(body, o);
    assert(occurs_at(body, o, i) && forall|j: int| 0 <= j < i ==> !occurs_at(body, o, j));
    assert(fm == i) by {
        if fm != i {
            assert(!occurs_at(body, o, fm));
        }
    }
    assert(!matches_again(body, o));
    assert(occurs(body, o));
    lemma_block_error(body, crlf, 1, old);
    assert(blocks.drop_last() =~= Seq::<(Seq<char>, Seq<char>)>::empty());
    assert(first_block_error(body, crlf, blocks.drop_last()) is None);
    assert(blocks.last() == (old, new));
    assert(first_block_error(body, crlf, blocks) is None);
    let span = block_span(body, crlf, blocks[0]);
    assert(block_spans(body, crlf, blocks) =~= seq![span]);
    let spans = seq![span];
    assert(spans.drop_last() =~= Seq::<SpanModel>::empty());
    assert(sort_by_start(spans.drop_last()) =~= Seq::<SpanModel>::empty());
    assert(sort_by_start(spans) == insert_by_start(Seq::<SpanModel>::empty(), span));
    assert(sort_by_start(spans) =~= seq![span]);
    assert(!has_overlap(seq![span]));
    assert(seq![span].drop_first() =~= Seq::<SpanModel>::empty());
    assert(span == (i, i + o.len(), translated(new, crlf)));
    assert(splice_from(body, Seq::<SpanModel>::empty(), i + o.len()) == body.skip(i + o.len()));
    assert(splice_from(body, seq![span], 0) == body.subrange(0, i) + translated(new, crlf)
        + body.skip(i + o.len()));
    assert(body.subrange(0, i) =~= body.take(i));
    assert(original.take(b) + (body.take(i) + translated(new, crlf) + body.skip(i + o.len()))
        =~= original.take(b) + body.take(i) + translated(new, crlf) + body.skip(i + o.len()));
}

/// Every line ending in text translated for a CRLF file is `"\r\n"`: no
/// `'\n'` is left without the `'\r'` before it.
pub proof fn lemma_crlf_translation_uses_crlf(t: Seq<char>)
    ensures
        forall|k: int|
            0 <= k < translated(t, true).len() && #[trigger] translated(t, true)[k] == '\n' ==> k > 0
                && translated(t, true)[k - 1] == '\r',
{
    lemma_lf_to_crlf_pairs(crlf_to_lf(t));
}

proof fn lemma_lf_to_crlf_first(u: Seq<char>)
    requires
        u.len() > 0,
    ensures
        lf_to_crlf(u).len() > 0,
        lf_to_crlf(u)[0] != '\n',
{
}

/// Undoing the CRLF translation gives back the text it was made from.
proof fn lemma_crlf_round_trip(u: Seq<char>)
    ensures
        crlf_to_lf(lf_to_crlf(u)) == u,
    decreases u.len(),
{
    if u.len() > 0 {
        let rest = u.skip(1);
        lemma_crlf_round_trip(rest);
        let l = lf_to_crlf(rest);
        if u[0] == '\n' {
            let t = seq!['\r', '\n'] + l;
            assert(lf_to_crlf(u) == t);
            assert(t.skip(2) =~= l);
            assert(seq!['\n'] + rest =~= u);
        } else {
            let t = seq![u[0]] + l;
            assert(lf_to_crlf(u) == t);
            assert(t.skip(1) =~= l);
            if l.len() > 0 {
                lemma_lf_to_crlf_first(rest);
            }
            assert(!(t.len() >= 2 && t[0] == '\r' && t[1] == '\n'));
            assert(seq![u[0]] + rest =~= u);
        }
    }
}

/// The line-ending translation for a CRLF file is idempotent, undoing it
/// gives the text with its own CRLF endings undone, and a file without CRLF
/// endings takes the text unchanged.
pub proof fn lemma_translation_is_stable(t: Seq<char>)
    ensures
        translated(translated(t, true), true) == translated(t, true),
        crlf_to_lf(translated(t, true)) == crlf_to_lf(t),
        translated(t, false) == t,
{
    lemma_crlf_round_trip(crlf_to_lf(t));
}

proof fn lemma_lf_to_crlf_pairs(u: Seq<char>)
    ensures
        forall|k: int|
            0 <= k < lf_to_crlf(u).len() && #[trigger] lf_to_crlf(u)[k] == '\n' ==> k > 0
                && lf_to_crlf(u)[k - 1] == '\r',
    decreases u.len(),
{
    if u.len() > 0 {
        lemma_lf_to_crlf_pairs(u.skip(1));
        let rest = lf_to_crlf(u.skip(1));
        let head: Seq<char> = if u[0] == '\n' {
            seq!['\r', '\n']
        } else {
            seq![u[0]]
        };
        assert(lf_to_crlf(u) == head + rest);
        assert forall|k: int|
            0 <= k < lf_to_crlf(u).len() && #[trigger] lf_to_crlf(u)[k] == '\n' implies k > 0
            && lf_to_crlf(u)[k - 1] == '\r' by {
            if k >= head.len() {
                assert(lf_to_crlf(u)[k] == rest[k - head.len()]);
                if k - head.len() > 0 {
                    assert(lf_to_crlf(u)[k - 1] == rest[k - head.len() - 1]);
                }
            }
        }
    }
}

proof fn lemma_block_error_number(body: Seq<char>, crlf: bool, n: nat, m: nat, x: Seq<char>)
    ensures
        block_error(body, crlf, n, x) is None <==> block_error(body, crlf, m, x) is None,
        block_error(body, crlf, n, x) is None ==> x.len() > 0,
{
    reveal(block_error);
}

// ---------------------------------------------------------------------------
// Block order
// ---------------------------------------------------------------------------

/// Whether the spans' starts never decrease.
spec fn starts_sorted(s: Seq<SpanModel>) -> bool {
    forall|i: int, j: int| #![trigger s[i], s[j]] 0 <= i < j < s.len() ==> s[i].0 <= s[j].0
}

/// Whether the spans' starts strictly increase.
spec fn starts_strict(s: Seq<SpanModel>) -> bool {
    forall|i: int, j: int| #![trigger s[i], s[j]] 0 <= i < j < s.len() ==> s[i].0 < s[j].0
}

proof fn lemma_insert_multiset(sorted: Seq<SpanModel>, x: SpanModel)
    ensures
        insert_by_start(sorted, x).to_multiset() =~= sorted.to_multiset().insert(x),
    decreases sorted.len(),
{
    broadcast use {vstd::seq_lib::group_to_multiset_ensures, vstd::multiset::group_multiset_axioms};

    if sorted.len() == 0 {
        assert(insert_by_start(sorted, x) =~= sorted.push(x));
    } else if sorted.last().0 <= x.0 {
    } else {
        let s0 = sorted.drop_last();
        let l = sorted.last();
        lemma_insert_multiset(s0, x);
        assert(sorted =~= s0.push(l));
        assert(s0.to_multiset().insert(x).insert(l) =~= s0.to_multiset().insert(l).insert(x));
    }
}

proof fn lemma_sort_multiset(s: Seq<SpanModel>)
    ensures
        sort_by_start(s).to_multiset() =~= s.to_multiset(),
    decreases s.len(),
{
    broadcast use vstd::seq_lib::group_to_multiset_ensures;

    if s.len() > 0 {
        let s0 = s.drop_last();
        lemma_sort_multiset(s0);
        lemma_insert_multiset(sort_by_start(s0), s.last());
        assert(s =~= s0.push(s.last()));
    }
}

proof fn lemma_insert_bounded(sorted: Seq<SpanModel>, x: SpanModel, b: int)
    requires
        forall|k: int| 0 <= k < sorted.len() ==> #[trigger] sorted[k].0 <= b,
        x.0 <= b,
    ensures
        forall|k: int|
            0 <= k < insert_by_start(sorted, x).len() ==> #[trigger] insert_by_start(sorted, x)[k].0
                <= b,
    decreases sorted.len(),
{
    if sorted.len() > 0 && sorted.last().0 > x.0 {
        let s0 = sorted.drop_last();
        assert forall|k: int| 0 <= k < s0.len() implies #[trigger] s0[k].0 <= b by {
            assert(s0[k] == sorted[k]);
        }
        lemma_insert_bounded(s0, x, b);
        let t = insert_by_start(s0, x);
        assert forall|k: int| 0 <= k < insert_by_start(sorted, x).len() implies #[trigger] insert_by_start(
            sorted,
            x,
        )[k].0 <= b by {
            if k < t.len() {
                assert(insert_by_start(sorted, x)[k] == t[k]);
            } else {
                assert(sorted[sorted.len() - 1].0 <= b);
            }
        }
    }
}

proof fn lemma_insert_sorted(sorted: Seq<SpanModel>, x: SpanModel)
    requires
        starts_sorted(sorted),
    ensures
        starts_sorted(insert_by_start(sorted, x)),
    decreases sorted.len(),
{
    let r = insert_by_start(sorted, x);
    if sorted.len() == 0 {
        assert(r =~= seq![x]);
    } else if sorted.last().0 <= x.0 {
        assert forall|i: int, j: int| #![trigger r[i], r[j]] 0 <= i < j < r.len() implies r[i].0
            <= r[j].0 by {
            if j == sorted.len() {
                assert(r[i] == sorted[i]);
                assert(sorted[i].0 <= sorted[sorted.len() - 1].0);
            } else {
                assert(r[i] == sorted[i] && r[j] == sorted[j]);
            }
        }
    } else {
        let s0 = sorted.drop_last();
        let l = sorted.last();
        assert forall|i: int, j: int| #![trigger s0[i], s0[j]] 0 <= i < j < s0.len() implies s0[i].0
            <= s0[j].0 by {
            assert(s0[i] == sorted[i] && s0[j] == sorted[j]);
        }
        lemma_insert_sorted(s0, x);
        assert forall|k: int| 0 <= k < s0.len() implies #[trigger] s0[k].0 <= l.0 by {
            assert(s0[k] == sorted[k]);
            assert(sorted[k].0 <= sorted[sorted.len() - 1].0);
        }
        lemma_insert_bounded(s0, x, l.0);
        let t = insert_by_start(s0, x);
        assert(r == t.push(l));
        assert forall|i: int, j: int| #![trigger r[i], r[j]] 0 <= i < j < r.len() implies r[i].0
            <= r[j].0 by {
            assert(r[i] == t[i]);
            if j < t.len() {
                assert(r[j] == t[j]);
            }
        }
    }
}

proof fn lemma_sort_sorted(s: Seq<SpanModel>)
    ensures
        starts_sorted(sort_by_start(s)),
    decreases s.len(),
{
    if s.len() > 0 {
        lemma_sort_sorted(s.drop_last());
        lemma_insert_sorted(sort_by_start(s.drop_last()), s.last());
    }
}

/// An element of one of two sequences with the same multiset is in the
/// other.
proof fn lemma_shared_element<A>(x: Seq<A>, y: Seq<A>, i: int)
    requires
        x.to_multiset() == y.to_multiset(),
        0 <= i < x.len(),
    ensures
        y.contains(x[i]),
{
    broadcast use vstd::seq_lib::group_to_multiset_ensures;

    assert(x.contains(x[i]));
    assert(x.to_multiset().count(x[i]) > 0);
    assert(y.to_multiset().count(x[i]) > 0);
}

/// Sequences with the same spans, the first with strictly increasing starts
/// and the second with non-decreasing ones, are the same sequence.
proof fn lemma_sorted_spans_unique(x: Seq<SpanModel>, y: Seq<SpanModel>)
    requires
        starts_strict(x),
        starts_sorted(y),
        x.to_multiset() == y.to_multiset(),
    ensures
        x == y,
    decreases x.len(),
{
    broadcast use {vstd::seq_lib::group_to_multiset_ensures, vstd::multiset::group_multiset_axioms};

    assert(x.len() == x.to_multiset().len());
    assert(y.len() == y.to_multiset().len());
    if x.len() == 0 {
        assert(x =~= y);
    } else {
        lemma_shared_element(x, y, 0);
        lemma_shared_element(y, x, 0);
        let k = choose|k: int| 0 <= k < y.len() && y[k] == x[0];
        let m = choose|m: int| 0 <= m < x.len() && x[m] == y[0];
        if m != 0 {
            assert(x[0].0 < x[m].0);
            if k != 0 {
                assert(y[0].0 <= y[k].0);
            }
            assert(false);
        }
        assert(x[0] == y[0]);
        let x1 = x.drop_first();
        let y1 = y.drop_first();
        assert(x.remove(0) =~= x1);
        assert(y.remove(0) =~= y1);
        assert(x1.to_multiset() =~= y1.to_multiset());
        assert forall|i: int, j: int| #![trigger x1[i], x1[j]] 0 <= i < j < x1.len() implies x1[i].0
            < x1[j].0 by {
            assert(x1[i] == x[i + 1] && x1[j] == x[j + 1]);
        }
        assert forall|i: int, j: int| #![trigger y1[i], y1[j]] 0 <= i < j < y1.len() implies y1[i].0
            <= y1[j].0 by {
            assert(y1[i] == y[i + 1] && y1[j] == y[j + 1]);
        }
        lemma_sorted_spans_unique(x1, y1);
        assert forall|i: int| 0 <= i < x.len() implies x[i] == y[i] by {
            if i > 0 {
                assert(x[i] == x1[i - 1] && y[i] == y1[i - 1]);
            }
        }
        assert(x =~= y);
    }
}

/// Blocks with the same multiset give spans with the same multiset.
proof fn lemma_spans_multiset(
    body: Seq<char>,
    crlf: bool,
    a: Seq<(Seq<char>, Seq<char>)>,
    b: Seq<(Seq<char>, Seq<char>)>,
)
    requires
        a.to_multiset() == b.to_multiset(),
    ensures
        block_spans(body, crlf, a).to_multiset() =~= block_spans(body, crlf, b).to_multiset(),
    decreases a.len(),
{
    broadcast use {vstd::seq_lib::group_to_multiset_ensures, vstd::multiset::group_multiset_axioms};

    assert(a.len() == a.to_multiset().len());
    assert(b.len() == b.to_multiset().len());
    if a.len() == 0 {
        assert(block_spans(body, crlf, a) =~= block_spans(body, crlf, b));
    } else {
        let l = a.last();
        let a0 = a.drop_last();
        lemma_shared_element(a, b, a.len() - 1);
        let j = choose|j: int| 0 <= j < b.len() && b[j] == l;
        let b0 = b.remove(j);
        assert(a.remove(a.len() - 1) =~= a0);
        assert(a0.to_multiset() =~= b0.to_multiset());
        lemma_spans_multiset(body, crlf, a0, b0);
        let sa = block_spans(body, crlf, a);
        let sb = block_spans(body, crlf, b);
        let f = block_span(body, crlf, l);
        assert(sa =~= block_spans(body, crlf, a0).push(f));
        assert(sb.remove(j) =~= block_spans(body, crlf, b0));
        assert(sb[j] == f);
        assert(sb.contains(f));
        assert(sb.to_multiset().count(f) > 0);
        assert(sb.to_multiset() =~= sb.remove(j).to_multiset().insert(f));
    }
}

proof fn lemma_first_error_none_all(
    body: Seq<char>,
    crlf: bool,
    blocks: Seq<(Seq<char>, Seq<char>)>,
)
    requires
        forall|i: int|
            0 <= i < blocks.len() ==> block_error(body, crlf, (i + 1) as nat, #[trigger] blocks[i].0)
                is None,
    ensures
        first_block_error(body, crlf, blocks) is None,
    decreases blocks.len(),
{
    if blocks.len() > 0 {
        let b0 = blocks.drop_last();
        assert forall|i: int| 0 <= i < b0.len() implies block_error(
            body,
            crlf,
            (i + 1) as nat,
            #[trigger] b0[i].0,
        ) is None by {
            assert(b0[i] == blocks[i]);
        }
        lemma_first_error_none_all(body, crlf, b0);
        assert(blocks.last() == blocks[blocks.len() - 1]);
    }
}

/// The order of the blocks does not matter: every block is matched against
/// the original contents, so when an edit applies, the same blocks in any
/// other order apply with the same result.
pub proof fn lemma_block_order_is_irrelevant(
    original: Seq<char>,
    blocks: Seq<(Seq<char>, Seq<char>)>,
    reordered: Seq<(Seq<char>, Seq<char>)>,
)
    requires
        reordered.to_multiset() == blocks.to_multiset(),
        edit_outcome(original, blocks) is Ok,
    ensures
        edit_outcome(original, reordered) == edit_outcome(original, blocks),
{
    broadcast use {vstd::seq_lib::group_to_multiset_ensures, vstd::multiset::group_multiset_axioms};

    let bl = bom_len(original);
    let body = original.skip(bl);
    let crlf = has_crlf(body);
    assert(blocks.len() == blocks.to_multiset().len());
    assert(reordered.len() == reordered.to_multiset().len());
    assert(first_block_error(body, crlf, blocks) is None);
    assert forall|i: int| 0 <= i < reordered.len() implies block_error(
        body,
        crlf,
        (i + 1) as nat,
        #[trigger] reordered[i].0,
    ) is None by {
        lemma_shared_element(reordered, blocks, i);
        let j = choose|j: int| 0 <= j < blocks.len() && blocks[j] == reordered[i];
        lemma_first_error_none_each(body, crlf, blocks, j);
        lemma_block_error_number(body, crlf, (j + 1) as nat, (i + 1) as nat, reordered[i].0);
    }
    lemma_first_error_none_all(body, crlf, reordered);
    let s1 = block_spans(body, crlf, blocks);
    let s2 = block_spans(body, crlf, reordered);
    lemma_spans_multiset(body, crlf, blocks, reordered);
    let t1 = sort_by_start(s1);
    let t2 = sort_by_start(s2);
    lemma_sort_multiset(s1);
    lemma_sort_multiset(s2);
    lemma_sort_sorted(s1);
    lemma_sort_sorted(s2);
    assert forall|k: int| 0 <= k < s1.len() implies #[trigger] s1[k].0 < s1[k].1 by {
        lemma_first_error_none_each(body, crlf, blocks, k);
        lemma_block_error_number(body, crlf, (k + 1) as nat, (k + 1) as nat, blocks[k].0);
        lemma_translate_nonempty(blocks[k].0, crlf);
    }
    assert(!has_overlap(t1));
    assert forall|i: int, j: int| #![trigger t1[i], t1[j]] 0 <= i < j < t1.len() implies t1[i].0
        < t1[j].0 by {
        lemma_shared_element(t1, s1, i);
        let k = choose|k: int| 0 <= k < s1.len() && s1[k] == t1[i];
        assert(s1[k].0 < s1[k].1);
        assert(!(t1[i + 1].0 < t1[i].1));
        if i + 1 < j {
            assert(t1[i + 1].0 <= t1[j].0);
        }
    }
    lemma_sorted_spans_unique(t1, t2);
}

/// Whether an edit applies does not depend on the order of its blocks either:
/// the same blocks in another order apply exactly when these do.
pub proof fn lemma_block_order_keeps_success(
    original: Seq<char>,
    blocks: Seq<(Seq<char>, Seq<char>)>,
    reordered: Seq<(Seq<char>, Seq<char>)>,
)
    requires
        reordered.to_multiset() == blocks.to_multiset(),
    ensures
        edit_outcome(original, reordered) is Ok <==> edit_outcome(original, blocks) is Ok,
{
    if edit_outcome(original, blocks) is Ok {
        lemma_block_order_is_irrelevant(original, blocks, reordered);
    }
    if edit_outcome(original, reordered) is Ok {
        lemma_block_order_is_irrelevant(original, reordered, blocks);
    }
}

// ---------------------------------------------------------------------------
// Replacement in place
// ---------------------------------------------------------------------------

/// How much a replaced span changes the length of the text.
pub open spec fn span_growth(s: SpanModel) -> int {
    s.2.len() - (s.1 - s.0)
}

/// How much the spans `u` together change the length of the text.
pub open spec fn total_growth(u: Seq<SpanModel>) -> int
    decreases u.len(),
{
    if u.len() == 0 {
        0
    } else {
        span_growth(u[0]) + total_growth(u.drop_first())
    }
}

/// Whether the spans lie in order in `[c, len)`, none overlapping.
pub open spec fn spans_chained(u: Seq<SpanModel>, c: int, len: int) -> bool {
    &&& 0 <= c <= len
    &&& u.len() > 0 ==> c <= u[0].0
    &&& forall|i: int| 0 <= i < u.len() ==> #[trigger] u[i].0 <= u[i].1 <= len
    &&& forall|i: int| 0 <= i && i + 1 < u.len() ==> #[trigger] u[i].1 <= u[i + 1].0
}

/// Where the text between span `i - 1` (or `c`) and span `i` (or the end)
/// starts.
pub open spec fn gap_start(u: Seq<SpanModel>, c: int, i: int) -> int {
    if i == 0 {
        c
    } else {
        u[i - 1].1
    }
}

/// Where the text between span `i - 1` (or `c`) and span `i` (or the end)
/// ends.
pub open spec fn gap_end(u: Seq<SpanModel>, len: int, i: int) -> int {
    if i == u.len() {
        len
    } else {
        u[i].0
    }
}

proof fn lemma_chained_tail(u: Seq<SpanModel>, c: int, len: int)
    requires
        spans_chained(u, c, len),
        u.len() > 0,
    ensures
        spans_chained(u.drop_first(), u[0].1, len),
{
    let v = u.drop_first();
    assert forall|i: int| 0 <= i < v.len() implies #[trigger] v[i].0 <= v[i].1 <= len by {
        assert(v[i] == u[i + 1]);
        assert(u[i + 1].0 <= u[i + 1].1 <= len);
    }
    assert forall|i: int| 0 <= i && i + 1 < v.len() implies #[trigger] v[i].1 <= v[i + 1].0 by {
        assert(v[i] == u[i + 1] && v[i + 1] == u[i + 2]);
    }
    if v.len() > 0 {
        assert(v[0] == u[1]);
        assert(u[0].1 <= u[1].0);
    }
    assert(u[0].0 <= u[0].1 <= len);
}

proof fn lemma_growth_take(u: Seq<SpanModel>)
    requires
        u.len() > 0,
    ensures
        total_growth(u.take(0)) == 0,
        forall|i: int|
            1 <= i <= u.len() ==> #[trigger] total_growth(u.take(i)) == span_growth(u[0])
                + total_growth(u.drop_first().take(i - 1)),
{
    assert(u.take(0) =~= Seq::<SpanModel>::empty());
    assert forall|i: int| 1 <= i <= u.len() implies #[trigger] total_growth(u.take(i))
        == span_growth(u[0]) + total_growth(u.drop_first().take(i - 1)) by {
        assert(u.take(i).drop_first() =~= u.drop_first().take(i - 1));
        assert(u.take(i)[0] == u[0]);
    }
}

/// Where, after replacing the spans `u` from `c` on, the text that stood at
/// `at` before span `i` lands.
pub open spec fn moved(u: Seq<SpanModel>, c: int, i: int, at: int) -> int {
    at - c + total_growth(u.take(i))
}

#[verifier::rlimit(50)]
#[verifier::spinoff_prover]
proof fn lemma_splice_pieces(body: Seq<char>, u: Seq<SpanModel>, c: int)
    requires
        spans_chained(u, c, body.len() as int),
    ensures
        ({
            let r = splice_from(body, u, c);
            let len = body.len() as int;
            &&& r.len() == len - c + total_growth(u)
            &&& forall|i: int|
                #![trigger u[i]]
                0 <= i < u.len() ==> {
                    let x = moved(u, c, i, u[i].0);
                    &&& 0 <= x
                    &&& x + u[i].2.len() <= r.len()
                    &&& r.subrange(x, x + u[i].2.len()) == u[i].2
                }
            &&& forall|i: int|
                #![trigger gap_start(u, c, i)]
                0 <= i <= u.len() ==> {
                    let lo = moved(u, c, i, gap_start(u, c, i));
                    let hi = moved(u, c, i, gap_end(u, len, i));
                    &&& 0 <= lo <= hi <= r.len()
                    &&& r.subrange(lo, hi) == body.subrange(gap_start(u, c, i), gap_end(u, len, i))
                }
        }),
    decreases u.len(),
{
    let r = splice_from(body, u, c);
    let len = body.len() as int;
    if u.len() == 0 {
        assert(u.take(0) =~= u);
        assert(r =~= body.subrange(c, len));
        assert forall|i: int|
            #![trigger gap_start(u, c, i)]
            0 <= i <= u.len() implies {
            let lo = moved(u, c, i, gap_start(u, c, i));
            let hi = moved(u, c, i, gap_end(u, len, i));
            &&& 0 <= lo <= hi <= r.len()
            &&& r.subrange(lo, hi) == body.subrange(gap_start(u, c, i), gap_end(u, len, i))
        } by {
            assert(i == 0);
            assert(r.subrange(0, len - c) =~= r);
        }
    } else {
        let u0 = u[0];
        let v = u.drop_first();
        let c1 = u0.1;
        lemma_chained_tail(u, c, len);
        lemma_splice_pieces(body, v, c1);
        let p = body.subrange(c, u0.0);
        let rest = splice_from(body, v, c1);
        assert(r == p + u0.2 + rest);
        let k = (u0.0 - c) + u0.2.len();
        assert(u0.0 <= u0.1 <= len);
        lemma_growth_take(u);
        assert forall|i: int|
            #![trigger u[i]]
            0 <= i < u.len() implies {
            let x = moved(u, c, i, u[i].0);
            &&& 0 <= x
            &&& x + u[i].2.len() <= r.len()
            &&& r.subrange(x, x + u[i].2.len()) == u[i].2
        } by {
            if i == 0 {
                assert(moved(u, c, 0, u0.0) == u0.0 - c);
                assert(r.subrange(u0.0 - c, u0.0 - c + u0.2.len()) =~= u0.2);
            } else {
                assert(v[i - 1] == u[i]);
                let x = moved(v, c1, i - 1, v[i - 1].0);
                assert(0 <= x && x + v[i - 1].2.len() <= rest.len());
                assert(rest.subrange(x, x + v[i - 1].2.len()) == v[i - 1].2);
                assert(moved(u, c, i, u[i].0) == k + x);
                assert(r.subrange(k + x, k + x + u[i].2.len()) =~= rest.subrange(
                    x,
                    x + v[i - 1].2.len(),
                ));
            }
        }
        assert forall|i: int|
            #![trigger gap_start(u, c, i)]
            0 <= i <= u.len() implies {
            let lo = moved(u, c, i, gap_start(u, c, i));
            let hi = moved(u, c, i, gap_end(u, len, i));
            &&& 0 <= lo <= hi <= r.len()
            &&& r.subrange(lo, hi) == body.subrange(gap_start(u, c, i), gap_end(u, len, i))
        } by {
            if i == 0 {
                assert(moved(u, c, 0, c) == 0);
                assert(moved(u, c, 0, u0.0) == u0.0 - c);
                assert(r.subrange(0, u0.0 - c) =~= p);
            } else {
                assert(gap_start(u, c, i) == gap_start(v, c1, i - 1));
                assert(gap_end(u, len, i) == gap_end(v, len, i - 1));
                let lo = moved(v, c1, i - 1, gap_start(v, c1, i - 1));
                let hi = moved(v, c1, i - 1, gap_end(v, len, i - 1));
                assert(0 <= lo <= hi <= rest.len());
                assert(rest.subrange(lo, hi) == body.subrange(
                    gap_start(v, c1, i - 1),
                    gap_end(v, len, i - 1),
                ));
                assert(moved(u, c, i, gap_start(u, c, i)) == k + lo);
                assert(moved(u, c, i, gap_end(u, len, i)) == k + hi);
                assert(r.subrange(k + lo, k + hi) =~= rest.subrange(lo, hi));
            }
        }
    }
}

proof fn lemma_first_match_exists(hay: Seq<char>, needle: Seq<char>, i: int)
    requires
        occurs_at(hay, needle, i),
    ensures
        occurs_at(hay, needle, first_match(hay, needle)),
        forall|j: int| 0 <= j < first_match(hay, needle) ==> !occurs_at(hay, needle, j),
    decreases i,
{
    if exists|j: int| 0 <= j < i && occurs_at(hay, needle, j) {
        let j = choose|j: int| 0 <= j < i && occurs_at(hay, needle, j);
        lemma_first_match_exists(hay, needle, j);
    } else {
        assert(occurs_at(hay, needle, i) && forall|j: int|
            0 <= j < i ==> !occurs_at(hay, needle, j));
    }
}

proof fn lemma_applied_spans_chained(original: Seq<char>, blocks: Seq<(Seq<char>, Seq<char>)>)
    requires
        edit_outcome(original, blocks) is Ok,
    ensures
        ({
            let body = original.skip(bom_len(original));
            let crlf = has_crlf(body);
            let s1 = block_spans(body, crlf, blocks);
            &&& sort_by_start(s1).to_multiset() == s1.to_multiset()
            &&& spans_chained(sort_by_start(s1), 0, body.len() as int)
            &&& edit_outcome(original, blocks) == Ok::<Seq<char>, EditError>(
                original.take(bom_len(original)) + splice_from(body, sort_by_start(s1), 0),
            )
        }),
{
    let b = bom_len(original);
    let body = original.skip(b);
    let crlf = has_crlf(body);
    let s1 = block_spans(body, crlf, blocks);
    let t = sort_by_start(s1);
    let len = body.len() as int;
    assert(first_block_error(body, crlf, blocks) is None);
    assert(!has_overlap(t));
    lemma_sort_multiset(s1);
    lemma_sort_sorted(s1);
    assert forall|k: int| 0 <= k < s1.len() implies 0 <= #[trigger] s1[k].0 <= s1[k].1 <= len by {
        lemma_first_error_none_each(body, crlf, blocks, k);
        lemma_block_error(body, crlf, (k + 1) as nat, blocks[k].0);
        let o = translated(blocks[k].0, crlf);
        let i0 = choose|i: int| occurs_at(body, o, i);
        lemma_first_match_exists(body, o, i0);
    }
    assert forall|i: int| 0 <= i < t.len() implies #[trigger] t[i].0 <= t[i].1 <= len && 0 <= t[i].0 by {
        lemma_shared_element(t, s1, i);
        let k = choose|k: int| 0 <= k < s1.len() && s1[k] == t[i];
        assert(0 <= s1[k].0 <= s1[k].1 <= len);
    }
    assert forall|i: int| 0 <= i && i + 1 < t.len() implies #[trigger] t[i].1 <= t[i + 1].0 by {
        assert(!(t[i + 1].0 < t[i].1));
    }
    if t.len() > 0 {
        assert(0 <= t[0].0);
    }
    assert(spans_chained(t, 0, len));
}

/// Every block is replaced in place, whatever its new text (empty included)
/// and however many blocks there are: with the blocks' matches taken in order
/// of position, the result keeps any byte-order mark, then has each stretch
/// of the original contents between two matches unchanged and each match
/// replaced by its block's new text (in the file's line endings), each at the
/// place where the earlier replacements have moved it; its length is the
/// original's plus what the replacements add.
#[verifier::rlimit(30)]
pub proof fn lemma_edit_replaces_every_match(
    original: Seq<char>,
    blocks: Seq<(Seq<char>, Seq<char>)>,
)
    requires
        edit_outcome(original, blocks) is Ok,
    ensures
        ({
            let b = bom_len(original);
            let body = original.skip(b);
            let crlf = has_crlf(body);
            let t = sort_by_start(block_spans(body, crlf, blocks));
            let r = edit_outcome(original, blocks)->Ok_0;
            let len = body.len() as int;
            &&& t.to_multiset() == block_spans(body, crlf, blocks).to_multiset()
            &&& spans_chained(t, 0, len)
            &&& r.take(b) == original.take(b)
            &&& r.len() == original.len() + total_growth(t)
            &&& forall|i: int|
                #![trigger t[i]]
                0 <= i < t.len() ==> r.subrange(
                    b + moved(t, 0, i, t[i].0),
                    b + moved(t, 0, i, t[i].0) + t[i].2.len(),
                ) == t[i].2
            &&& forall|i: int|
                #![trigger gap_start(t, 0, i)]
                0 <= i <= t.len() ==> r.subrange(
                    b + moved(t, 0, i, gap_start(t, 0, i)),
                    b + moved(t, 0, i, gap_end(t, len, i)),
                ) == body.subrange(gap_start(t, 0, i), gap_end(t, len, i))
        }),
{
    let b = bom_len(original);
    let body = original.skip(b);
    let crlf = has_crlf(body);
    let t = sort_by_start(block_spans(body, crlf, blocks));
    let len = body.len() as int;
    lemma_applied_spans_chained(original, blocks);
    lemma_splice_pieces(body, t, 0);
    let sp = splice_from(body, t, 0);
    let r = original.take(b) + sp;
    assert(edit_outcome(original, blocks) == Ok::<Seq<char>, EditError>(r));
    assert(r.take(b) =~= original.take(b));
    assert(original.len() == b + body.len());
    assert forall|i: int|
        #![trigger t[i]]
        0 <= i < t.len() implies r.subrange(
        b + moved(t, 0, i, t[i].0),
        b + moved(t, 0, i, t[i].0) + t[i].2.len(),
    ) == t[i].2 by {
        let x = moved(t, 0, i, t[i].0);
        assert(r.subrange(b + x, b + x + t[i].2.len()) =~= sp.subrange(x, x + t[i].2.len()));
    }
    assert forall|i: int|
        #![trigger gap_start(t, 0, i)]
        0 <= i <= t.len() implies r.subrange(
        b + moved(t, 0, i, gap_start(t, 0, i)),
        b + moved(t, 0, i, gap_end(t, len, i)),
    ) == body.subrange(gap_start(t, 0, i), gap_end(t, len, i)) by {
        let lo = moved(t, 0, i, gap_start(t, 0, i));
        let hi = moved(t, 0, i, gap_end(t, len, i));
        assert(r.subrange(b + lo, b + hi) =~= sp.subrange(lo, hi));
    }
}

} // verus!

