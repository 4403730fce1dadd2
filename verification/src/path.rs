//! Unix path text: joining, lexical normalization, component prefixes and
//! parents, modelled on `std::path` over `/`-separated text.

use vstd::prelude::*;

use crate::text::{
    char_texts, chars_of, copy_chars, join, join_chars, push_char, push_chars, push_str, string_of,
};

verus! {

/// `base.join(rest)`: an absolute `rest` replaces `base`; otherwise `rest` is
/// appended after a `/` unless `base` is empty or already ends in one.
pub open spec fn spec_join_path(base: Seq<char>, rest: Seq<char>) -> Seq<char> {
    if rest.len() > 0 && rest[0] == '/' {
        rest
    } else if base.len() > 0 && base.last() != '/' {
        base + seq!['/'] + rest
    } else {
        base + rest
    }
}

/// Join `rest` onto `base` as `Path::join` does.
pub fn join_path(base: &str, rest: &str) -> (r: String)
    ensures
        r@ == spec_join_path(base@, rest@),
{
    let b = chars_of(base);
    let t = chars_of(rest);
    if t.len() > 0 && t[0] == '/' {
        return string_of(&t);
    }
    let mut r = string_of(&b);
    if b.len() > 0 && b[b.len() - 1] != '/' {
        push_char(&mut r, '/');
    }
    push_chars(&mut r, &t);
    r
}

/// The pieces of `s` between `'/'` characters, always at least one.
pub open spec fn split_slash(s: Seq<char>) -> Seq<Seq<char>>
    decreases s.len(),
{
    if s.len() == 0 {
        seq![seq![]]
    } else {
        let p = split_slash(s.drop_last());
        if s.last() == '/' {
            p.push(seq![])
        } else {
            p.update(p.len() - 1, p.last().push(s.last()))
        }
    }
}

/// Whether a piece is `.`.
pub open spec fn is_dot(p: Seq<char>) -> bool {
    p.len() == 1 && p[0] == '.'
}

/// Whether a piece is `..`.
pub open spec fn is_dotdot(p: Seq<char>) -> bool {
    p.len() == 2 && p[0] == '.' && p[1] == '.'
}

/// The pieces that name something: the non-empty ones other than `.`.
pub open spec fn named(pieces: Seq<Seq<char>>) -> Seq<Seq<char>>
    decreases pieces.len(),
{
    if pieces.len() == 0 {
        seq![]
    } else if pieces.last().len() == 0 || is_dot(pieces.last()) {
        named(pieces.drop_last())
    } else {
        named(pieces.drop_last()).push(pieces.last())
    }
}

/// Whether `p` starts at the root.
pub open spec fn rooted(p: Seq<char>) -> bool {
    p.len() > 0 && p[0] == '/'
}

/// The components of `p` as `Path::components` yields them on Unix: `/` for
/// the root, `.` for a leading current-directory marker of a relative path,
/// then each named piece (`..` included); empty pieces and inner `.` pieces
/// are dropped.
pub open spec fn components(p: Seq<char>) -> Seq<Seq<char>> {
    let head: Seq<Seq<char>> = if rooted(p) {
        seq![seq!['/']]
    } else if is_dot(split_slash(p)[0]) {
        seq![seq!['.']]
    } else {
        seq![]
    };
    head + named(split_slash(p))
}

/// Whether `p` starts with the components of `base`, as `Path::starts_with`
/// decides.
pub open spec fn path_starts_with(p: Seq<char>, base: Seq<char>) -> bool {
    let c = components(p);
    let b = components(base);
    b.len() <= c.len() && c.take(b.len() as int) == b
}

/// The names left after resolving `..` against the names before it, as
/// pushing and popping a `PathBuf` leaves them; a `..` with nothing before it
/// is dropped.
pub open spec fn fold_names(names: Seq<Seq<char>>) -> Seq<Seq<char>>
    decreases names.len(),
{
    if names.len() == 0 {
        seq![]
    } else {
        let s = fold_names(names.drop_last());
        if is_dotdot(names.last()) {
            if s.len() > 0 {
                s.drop_last()
            } else {
                s
            }
        } else {
            s.push(names.last())
        }
    }
}

/// A rooted or relative path made of `names`.
pub open spec fn render_path(root: bool, names: Seq<Seq<char>>) -> Seq<char> {
    if root {
        seq!['/'] + join(names, seq!['/'])
    } else {
        join(names, seq!['/'])
    }
}

/// `p` with `.` and `..` collapsed lexically, without touching the file
/// system: a `..` removes the name before it.
pub open spec fn normalized(p: Seq<char>) -> Seq<char> {
    render_path(rooted(p), fold_names(named(split_slash(p))))
}

proof fn lemma_split_slash_nonempty(s: Seq<char>)
    ensures
        split_slash(s).len() >= 1,
    decreases s.len(),
{
    if s.len() > 0 {
        lemma_split_slash_nonempty(s.drop_last());
    }
}

/// The pieces of `s` between `'/'` characters.
fn split_slash_of(s: &Vec<char>) -> (r: Vec<Vec<char>>)
    ensures
        char_texts(r@) == split_slash(s@),
{
    let mut done: Vec<Vec<char>> = Vec::new();
    let mut cur: Vec<char> = Vec::new();
    let n = s.len();
    assert(s@.take(0) =~= Seq::<char>::empty());
    for i in 0..n
        invariant
            n == s@.len(),
            split_slash(s@.take(i as int)).len() >= 1,
            char_texts(done@) == split_slash(s@.take(i as int)).drop_last(),
            cur@ == split_slash(s@.take(i as int)).last(),
    {
        let ghost t = s@.take(i as int);
        let ghost t1 = s@.take(i + 1);
        proof {
            assert(t1.drop_last() =~= t);
            assert(t1.last() == s@[i as int]);
            lemma_split_slash_nonempty(t1);
        }
        let c = s[i];
        if c == '/' {
            let piece = cur;
            done.push(piece);
            cur = Vec::new();
            proof {
                let p = split_slash(t);
                assert(split_slash(t1) == p.push(seq![]));
                assert(p =~= p.drop_last().push(p.last()));
                assert(char_texts(done@) =~= p);
                assert(split_slash(t1).drop_last() =~= p);
            }
        } else {
            cur.push(c);
            proof {
                let p = split_slash(t);
                let q = split_slash(t1);
                assert(q == p.update(p.len() - 1, p.last().push(c)));
                assert(q.drop_last() =~= p.drop_last());
            }
        }
    }
    assert(s@.take(n as int) =~= s@);
    let ghost before = char_texts(done@);
    done.push(cur);
    proof {
        let p = split_slash(s@);
        assert(p =~= p.drop_last().push(p.last()));
        assert(char_texts(done@) =~= before.push(p.last()));
    }
    done
}

fn is_dot_vec(p: &Vec<char>) -> (b: bool)
    ensures
        b == is_dot(p@),
{
    p.len() == 1 && p[0] == '.'
}

fn is_dotdot_vec(p: &Vec<char>) -> (b: bool)
    ensures
        b == is_dotdot(p@),
{
    p.len() == 2 && p[0] == '.' && p[1] == '.'
}

/// The named pieces among `pieces`.
fn named_of(pieces: &Vec<Vec<char>>) -> (r: Vec<Vec<char>>)
    ensures
        char_texts(r@) == named(char_texts(pieces@)),
{
    let ghost all = char_texts(pieces@);
    let mut r: Vec<Vec<char>> = Vec::new();
    let n = pieces.len();
    assert(all.take(0) =~= Seq::<Seq<char>>::empty());
    for i in 0..n
        invariant
            n == pieces@.len(),
            all == char_texts(pieces@),
            char_texts(r@) == named(all.take(i as int)),
    {
        proof {
            assert(all.take(i + 1).drop_last() =~= all.take(i as int));
            assert(all.take(i + 1).last() == pieces@[i as int]@);
        }
        let p = &pieces[i];
        if p.len() > 0 && !is_dot_vec(p) {
            let ghost before = char_texts(r@);
            r.push(copy_chars(p));
            assert(char_texts(r@) =~= before.push(pieces@[i as int]@));
        }
    }
    assert(all.take(n as int) =~= all);
    r
}

/// The components of `p` as `Path::components` yields them on Unix.
pub fn components_of(p: &str) -> (r: Vec<Vec<char>>)
    ensures
        char_texts(r@) == components(p@),
{
    let v = chars_of(p);
    let pieces = split_slash_of(&v);
    proof {
        lemma_split_slash_nonempty(v@);
    }
    let names = named_of(&pieces);
    let mut r: Vec<Vec<char>> = Vec::new();
    if v.len() > 0 && v[0] == '/' {
        let mut root: Vec<char> = Vec::new();
        root.push('/');
        r.push(root);
    } else if is_dot_vec(&pieces[0]) {
        let mut dot: Vec<char> = Vec::new();
        dot.push('.');
        r.push(dot);
    }
    let ghost head = char_texts(r@);
    assert(pieces@[0]@ == split_slash(v@)[0]);
    let m = names.len();
    for i in 0..m
        invariant
            m == names@.len(),
            char_texts(r@) == head + char_texts(names@).take(i as int),
    {
        let ghost before = char_texts(r@);
        r.push(copy_chars(&names[i]));
        assert(char_texts(r@) =~= before.push(names@[i as int]@));
        assert(char_texts(names@).take(i + 1) =~= char_texts(names@).take(i as int).push(
            names@[i as int]@,
        ));
    }
    assert(char_texts(names@).take(m as int) =~= char_texts(names@));
    assert(head =~= (if rooted(p@) {
        seq![seq!['/']]
    } else if is_dot(split_slash(p@)[0]) {
        seq![seq!['.']]
    } else {
        Seq::<Seq<char>>::empty()
    }));
    r
}

fn same_chars(a: &Vec<char>, b: &Vec<char>) -> (r: bool)
    ensures
        r == (a@ == b@),
{
    if a.len() != b.len() {
        return false;
    }
    let n = a.len();
    for i in 0..n
        invariant
            n == a@.len() == b@.len(),
            forall|j: int| 0 <= j < i ==> a@[j] == b@[j],
    {
        if a[i] != b[i] {
            return false;
        }
    }
    assert(a@ =~= b@);
    true
}

/// Whether `p` starts with the components of `base`, as `Path::starts_with`
/// decides.
pub fn starts_with_path(p: &str, base: &str) -> (r: bool)
    ensures
        r == path_starts_with(p@, base@),
{
    let c = components_of(p);
    let b = components_of(base);
    let ghost cv = char_texts(c@);
    let ghost bv = char_texts(b@);
    if b.len() > c.len() {
        return false;
    }
    let n = b.len();
    for i in 0..n
        invariant
            n == b@.len() <= c@.len(),
            cv == char_texts(c@),
            bv == char_texts(b@),
            cv == components(p@),
            bv == components(base@),
            forall|j: int| 0 <= j < i ==> cv[j] == bv[j],
    {
        assert(cv[i as int] == c@[i as int]@);
        assert(bv[i as int] == b@[i as int]@);
        if !same_chars(&c[i], &b[i]) {
            assert(cv.take(n as int)[i as int] != bv[i as int]);
            assert(cv.take(bv.len() as int) != bv);
            return false;
        }
    }
    assert(cv.take(n as int) =~= bv);
    true
}

/// `p` with `.` and `..` collapsed lexically, without touching the file
/// system.
pub fn normalize_lexically(p: &str) -> (r: String)
    ensures
        r@ == normalized(p@),
{
    let v = chars_of(p);
    let pieces = split_slash_of(&v);
    let names = named_of(&pieces);
    let ghost all = char_texts(names@);
    let mut stack: Vec<Vec<char>> = Vec::new();
    let m = names.len();
    assert(all.take(0) =~= Seq::<Seq<char>>::empty());
    for i in 0..m
        invariant
            m == names@.len(),
            all == char_texts(names@),
            char_texts(stack@) == fold_names(all.take(i as int)),
    {
        proof {
            assert(all.take(i + 1).drop_last() =~= all.take(i as int));
            assert(all.take(i + 1).last() == names@[i as int]@);
        }
        let ghost before = char_texts(stack@);
        if is_dotdot_vec(&names[i]) {
            if stack.len() > 0 {
                stack.pop();
                assert(char_texts(stack@) =~= before.drop_last());
            }
        } else {
            stack.push(copy_chars(&names[i]));
            assert(char_texts(stack@) =~= before.push(names@[i as int]@));
        }
    }
    assert(all.take(m as int) =~= all);
    let joined = join_chars(&stack, "/");
    proof {
        reveal_strlit("/");
        assert("/"@ =~= seq!['/']);
    }
    if v.len() > 0 && v[0] == '/' {
        let mut r = String::new();
        push_char(&mut r, '/');
        push_str(&mut r, joined.as_str());
        assert(r@ =~= seq!['/'] + joined@);
        r
    } else {
        joined
    }
}

/// A path made of the components `c` (a leading `/` being the root).
pub open spec fn render_components(c: Seq<Seq<char>>) -> Seq<char> {
    if c.len() > 0 && c[0] == seq!['/'] {
        seq!['/'] + join(c.skip(1), seq!['/'])
    } else {
        join(c, seq!['/'])
    }
}

/// The parent of `p`: the path of all its components but the last, or `None`
/// when `p` is empty or the root. For a normalized path this is what
/// `Path::parent` gives.
pub open spec fn parent_path(p: Seq<char>) -> Option<Seq<char>> {
    let c = components(p);
    if c.len() == 0 || (c.len() == 1 && rooted(p)) {
        None
    } else {
        Some(render_components(c.drop_last()))
    }
}

/// What is left of `p` after its prefix `base`, component-wise (empty when
/// `base` is not a prefix), as `Path::strip_prefix` leaves it for normalized
/// paths.
pub open spec fn path_tail(p: Seq<char>, base: Seq<char>) -> Seq<char> {
    if path_starts_with(p, base) {
        render_components(components(p).skip(components(base).len() as int))
    } else {
        seq![]
    }
}

/// The path made of the components `c[from..]`.
fn render_from(c: &Vec<Vec<char>>, from: usize) -> (r: String)
    requires
        from <= c@.len(),
    ensures
        r@ == render_components(char_texts(c@).skip(from as int)),
{
    let ghost all = char_texts(c@).skip(from as int);
    let n = c.len();
    let mut start = from;
    let mut r = String::new();
    let mut rootv: Vec<char> = Vec::new();
    rootv.push('/');
    let is_root = from < n && same_chars(&c[from], &rootv);
    assert(from < n ==> all[0] == c@[from as int]@);
    if is_root {
        push_char(&mut r, '/');
        start = from + 1;
    }
    let mut names: Vec<Vec<char>> = Vec::new();
    for i in start..n
        invariant
            from <= start <= n == c@.len(),
            char_texts(names@) == char_texts(c@).subrange(start as int, i as int),
    {
        let ghost before = char_texts(names@);
        names.push(copy_chars(&c[i]));
        assert(char_texts(names@) =~= before.push(c@[i as int]@));
        assert(char_texts(c@).subrange(start as int, i + 1) =~= char_texts(c@).subrange(
            start as int,
            i as int,
        ).push(c@[i as int]@));
    }
    let joined = join_chars(&names, "/");
    proof {
        reveal_strlit("/");
        assert("/"@ =~= seq!['/']);
    }
    push_str(&mut r, joined.as_str());
    if is_root {
        assert(all.skip(1) =~= char_texts(c@).subrange(start as int, n as int));
        assert(r@ =~= seq!['/'] + join(all.skip(1), seq!['/']));
    } else {
        assert(all =~= char_texts(c@).subrange(start as int, n as int));
        assert(r@ =~= join(all, seq!['/']));
    }
    r
}

/// The parent of `p`: all its components but the last.
pub fn parent_of(p: &str) -> (r: Option<String>)
    ensures
        match r {
            Some(s) => parent_path(p@) == Some(s@),
            None => parent_path(p@) is None,
        },
{
    let mut c = components_of(p);
    let n = c.len();
    let v = chars_of(p);
    if n == 0 || (n == 1 && v.len() > 0 && v[0] == '/') {
        return None;
    }
    let ghost all = char_texts(c@);
    c.pop();
    assert(char_texts(c@) =~= all.drop_last());
    assert(char_texts(c@).skip(0) =~= char_texts(c@));
    Some(render_from(&c, 0))
}

/// What is left of `p` after its prefix `base`, component-wise.
pub fn tail_after(p: &str, base: &str) -> (r: String)
    ensures
        r@ == path_tail(p@, base@),
{
    if !starts_with_path(p, base) {
        return String::new();
    }
    let c = components_of(p);
    let b = components_of(base);
    render_from(&c, b.len())
}

} // verus!

verus! {

// ---------------------------------------------------------------------------
// Laws
// ---------------------------------------------------------------------------

/// Whether `n` can stand as a component of a normalized path: non-empty, not
/// `.` or `..`, and free of `/`.
pub open spec fn plain_name(n: Seq<char>) -> bool {
    n.len() > 0 && !is_dot(n) && !is_dotdot(n) && forall|i: int| 0 <= i < n.len() ==> n[i] != '/'
}

proof fn lemma_split_slash_pieces(s: Seq<char>)
    ensures
        forall|k: int, i: int|
            0 <= k < split_slash(s).len() && 0 <= i < split_slash(s)[k].len() ==> #[trigger] split_slash(
                s,
            )[k][i] != '/',
    decreases s.len(),
{
    lemma_split_slash_nonempty(s);
    if s.len() > 0 {
        lemma_split_slash_pieces(s.drop_last());
        lemma_split_slash_nonempty(s.drop_last());
        let p = split_slash(s.drop_last());
        if s.last() != '/' {
            assert forall|k: int, i: int|
                0 <= k < split_slash(s).len() && 0 <= i < split_slash(s)[k].len() implies #[trigger] split_slash(
                s,
            )[k][i] != '/' by {
                if k == p.len() - 1 {
                    if i < p.last().len() {
                        assert(split_slash(s)[k][i] == p[k][i]);
                    }
                } else {
                    assert(split_slash(s)[k] == p[k]);
                }
            }
        } else {
            assert forall|k: int, i: int|
                0 <= k < split_slash(s).len() && 0 <= i < split_slash(s)[k].len() implies #[trigger] split_slash(
                s,
            )[k][i] != '/' by {
                if k < p.len() {
                    assert(split_slash(s)[k] == p[k]);
                }
            }
        }
    }
}

proof fn lemma_named_pieces(pieces: Seq<Seq<char>>)
    requires
        forall|k: int, i: int|
            0 <= k < pieces.len() && 0 <= i < pieces[k].len() ==> #[trigger] pieces[k][i] != '/',
    ensures
        forall|k: int| 0 <= k < named(pieces).len() ==> {
            let n = #[trigger] named(pieces)[k];
            n.len() > 0 && !is_dot(n) && forall|i: int| 0 <= i < n.len() ==> n[i] != '/'
        },
    decreases pieces.len(),
{
    if pieces.len() > 0 {
        let pre = pieces.drop_last();
        assert forall|k: int, i: int|
            0 <= k < pre.len() && 0 <= i < pre[k].len() implies #[trigger] pre[k][i] != '/' by {
            assert(pre[k] == pieces[k]);
        }
        lemma_named_pieces(pre);
        let last = pieces.last();
        assert(forall|i: int| 0 <= i < last.len() ==> last[i] != '/') by {
            assert forall|i: int| 0 <= i < last.len() implies last[i] != '/' by {
                assert(pieces[pieces.len() - 1][i] == last[i]);
            }
        }
        let np = named(pre);
        assert forall|k: int| 0 <= k < named(pieces).len() implies {
            let n = #[trigger] named(pieces)[k];
            n.len() > 0 && !is_dot(n) && forall|i: int| 0 <= i < n.len() ==> n[i] != '/'
        } by {
            if k < np.len() {
                assert(named(pieces)[k] == np[k]);
            } else {
                assert(named(pieces)[k] == last);
            }
        }
    }
}

proof fn lemma_fold_names_plain(names: Seq<Seq<char>>)
    requires
        forall|k: int| 0 <= k < names.len() ==> {
            let n = #[trigger] names[k];
            n.len() > 0 && !is_dot(n) && forall|i: int| 0 <= i < n.len() ==> n[i] != '/'
        },
    ensures
        forall|k: int| 0 <= k < fold_names(names).len() ==> plain_name(#[trigger] fold_names(names)[k]),
    decreases names.len(),
{
    if names.len() > 0 {
        let pre = names.drop_last();
        assert forall|k: int| 0 <= k < pre.len() implies {
            let n = #[trigger] pre[k];
            n.len() > 0 && !is_dot(n) && forall|i: int| 0 <= i < n.len() ==> n[i] != '/'
        } by {
            assert(pre[k] == names[k]);
        }
        lemma_fold_names_plain(pre);
        let s = fold_names(pre);
        assert(names.last() == names[names.len() - 1]);
        if !is_dotdot(names.last()) {
            assert forall|k: int| 0 <= k < fold_names(names).len() implies plain_name(
                #[trigger] fold_names(names)[k],
            ) by {
                if k < s.len() {
                    assert(fold_names(names)[k] == s[k]);
                }
            }
        } else if s.len() > 0 {
            assert forall|k: int| 0 <= k < fold_names(names).len() implies plain_name(
                #[trigger] fold_names(names)[k],
            ) by {
                assert(fold_names(names)[k] == s[k]);
            }
        }
    }
}

proof fn lemma_split_after_slash(x: Seq<char>, y: Seq<char>)
    requires
        forall|i: int| 0 <= i < y.len() ==> y[i] != '/',
    ensures
        split_slash(x + seq!['/'] + y) == split_slash(x).push(y),
    decreases y.len(),
{
    if y.len() == 0 {
        assert(x + seq!['/'] + y =~= x.push('/'));
        assert(x.push('/').drop_last() =~= x);
        assert(x.push('/').last() == '/');
        assert(y =~= Seq::<char>::empty());
    } else {
        let y0 = y.drop_last();
        lemma_split_after_slash(x, y0);
        let s = x + seq!['/'] + y;
        assert(s.drop_last() =~= x + seq!['/'] + y0);
        assert(s.last() == y.last());
        let p = split_slash(x).push(y0);
        assert(split_slash(s) == p.update(p.len() - 1, p.last().push(y.last())));
        assert(y0.push(y.last()) =~= y);
        assert(split_slash(s) =~= split_slash(x).push(y));
    }
}

proof fn lemma_split_rendered(names: Seq<Seq<char>>)
    requires
        names.len() > 0,
        forall|k: int| 0 <= k < names.len() ==> plain_name(#[trigger] names[k]),
    ensures
        split_slash(seq!['/'] + join(names, seq!['/'])) == seq![Seq::<char>::empty()] + names,
    decreases names.len(),
{
    let last = names.last();
    assert(plain_name(names[names.len() - 1]));
    if names.len() == 1 {
        assert(seq!['/'] + join(names, seq!['/']) =~= Seq::<char>::empty() + seq!['/'] + last);
        lemma_split_after_slash(Seq::<char>::empty(), last);
        assert(split_slash(Seq::<char>::empty()) =~= seq![Seq::<char>::empty()]);
        assert(seq![Seq::<char>::empty()].push(last) =~= seq![Seq::<char>::empty()] + names);
    } else {
        let pre = names.drop_last();
        assert forall|k: int| 0 <= k < pre.len() implies plain_name(#[trigger] pre[k]) by {
            assert(pre[k] == names[k]);
        }
        lemma_split_rendered(pre);
        assert(seq!['/'] + join(names, seq!['/']) =~= (seq!['/'] + join(pre, seq!['/']))
            + seq!['/'] + last);
        lemma_split_after_slash(seq!['/'] + join(pre, seq!['/']), last);
        assert((seq![Seq::<char>::empty()] + pre).push(last) =~= seq![Seq::<char>::empty()]
            + names);
    }
}

proof fn lemma_named_plain(pre: Seq<Seq<char>>, names: Seq<Seq<char>>)
    requires
        forall|k: int| 0 <= k < names.len() ==> plain_name(#[trigger] names[k]),
        named(pre) == Seq::<Seq<char>>::empty(),
    ensures
        named(pre + names) == names,
    decreases names.len(),
{
    if names.len() == 0 {
        assert(pre + names =~= pre);
    } else {
        let n0 = names.drop_last();
        assert forall|k: int| 0 <= k < n0.len() implies plain_name(#[trigger] n0[k]) by {
            assert(n0[k] == names[k]);
        }
        lemma_named_plain(pre, n0);
        assert((pre + names).drop_last() =~= pre + n0);
        assert((pre + names).last() == names.last());
        assert(plain_name(names[names.len() - 1]));
        assert(n0.push(names.last()) =~= names);
    }
}

/// Splitting at a `/` splits the pieces on each side apart.
pub proof fn lemma_split_concat(x: Seq<char>, y: Seq<char>)
    ensures
        split_slash(x + seq!['/'] + y) == split_slash(x) + split_slash(y),
    decreases y.len(),
{
    let e = Seq::<char>::empty();
    if y.len() == 0 {
        assert(x + seq!['/'] + y =~= x.push('/'));
        assert(x.push('/').drop_last() =~= x);
        assert(split_slash(y) =~= seq![e]);
        assert(split_slash(x).push(e) =~= split_slash(x) + seq![e]);
    } else {
        let y0 = y.drop_last();
        lemma_split_concat(x, y0);
        lemma_split_slash_nonempty(y0);
        let s = x + seq!['/'] + y;
        assert(s.drop_last() =~= x + seq!['/'] + y0);
        assert(s.last() == y.last());
        let a = split_slash(x);
        let b = split_slash(y0);
        if y.last() == '/' {
            assert((a + b).push(e) =~= a + b.push(e));
        } else {
            let p = a + b;
            assert(p.last() == b.last());
            assert(p.update(p.len() - 1, p.last().push(y.last())) =~= a + b.update(
                b.len() - 1,
                b.last().push(y.last()),
            ));
        }
    }
}

/// The named pieces of two runs of pieces are those of each, in order.
pub proof fn lemma_named_concat(x: Seq<Seq<char>>, y: Seq<Seq<char>>)
    ensures
        named(x + y) == named(x) + named(y),
    decreases y.len(),
{
    if y.len() == 0 {
        assert(x + y =~= x);
        assert(named(x) + named(y) =~= named(x));
    } else {
        let y0 = y.drop_last();
        lemma_named_concat(x, y0);
        assert((x + y).drop_last() =~= x + y0);
        assert((x + y).last() == y.last());
        assert((named(x) + named(y0)).push(y.last()) =~= named(x) + named(y0).push(y.last()));
    }
}

/// Names without `..` are appended as they are.
pub proof fn lemma_fold_names_concat(x: Seq<Seq<char>>, y: Seq<Seq<char>>)
    requires
        forall|k: int| 0 <= k < y.len() ==> !is_dotdot(#[trigger] y[k]),
    ensures
        fold_names(x + y) == fold_names(x) + y,
    decreases y.len(),
{
    if y.len() == 0 {
        assert(x + y =~= x);
        assert(fold_names(x) + y =~= fold_names(x));
    } else {
        let y0 = y.drop_last();
        assert forall|k: int| 0 <= k < y0.len() implies !is_dotdot(#[trigger] y0[k]) by {
            assert(y0[k] == y[k]);
        }
        lemma_fold_names_concat(x, y0);
        assert((x + y).drop_last() =~= x + y0);
        assert((x + y).last() == y.last());
        assert(!is_dotdot(y[y.len() - 1]));
        assert((fold_names(x) + y0).push(y.last()) =~= fold_names(x) + y);
    }
}

/// Pieces without `..` have named pieces without `..`.
pub proof fn lemma_named_no_dotdot(p: Seq<Seq<char>>)
    requires
        forall|k: int| 0 <= k < p.len() ==> !is_dotdot(#[trigger] p[k]),
    ensures
        forall|k: int| 0 <= k < named(p).len() ==> !is_dotdot(#[trigger] named(p)[k]),
    decreases p.len(),
{
    if p.len() > 0 {
        let p0 = p.drop_last();
        assert forall|k: int| 0 <= k < p0.len() implies !is_dotdot(#[trigger] p0[k]) by {
            assert(p0[k] == p[k]);
        }
        lemma_named_no_dotdot(p0);
        assert(!is_dotdot(p[p.len() - 1]));
        assert forall|k: int| 0 <= k < named(p).len() implies !is_dotdot(#[trigger] named(p)[k]) by {
            if k < named(p0).len() {
                assert(named(p)[k] == named(p0)[k]);
            }
        }
    }
}

/// Lexical normalization of a rooted path leaves the root and plain names
/// only: no `.`, no `..` and no empty component, so the path it gives names
/// its target without detours.
pub proof fn lemma_normalized_is_clean(p: Seq<char>)
    requires
        rooted(p),
    ensures
        components(normalized(p)) == seq![seq!['/']] + fold_names(named(split_slash(p))),
        forall|k: int|
            1 <= k < components(normalized(p)).len() ==> plain_name(
                #[trigger] components(normalized(p))[k],
            ),
{
    lemma_split_slash_pieces(p);
    lemma_named_pieces(split_slash(p));
    let names = fold_names(named(split_slash(p)));
    lemma_fold_names_plain(named(split_slash(p)));
    let q = normalized(p);
    assert(q == seq!['/'] + join(names, seq!['/']));
    assert(rooted(q));
    let e = Seq::<char>::empty();
    assert(named(seq![e]) == Seq::<Seq<char>>::empty()) by {
        assert(seq![e].drop_last() =~= Seq::<Seq<char>>::empty());
        assert(named(seq![e].drop_last()) == Seq::<Seq<char>>::empty());
        assert(seq![e].last() == e);
    }
    if names.len() == 0 {
        assert(q =~= seq!['/']);
        assert(q =~= e + seq!['/'] + e);
        lemma_split_after_slash(e, e);
        assert(split_slash(e) =~= seq![e]);
        assert(split_slash(q) =~= seq![e, e]);
        assert(seq![e, e].drop_last() =~= seq![e]);
        assert(named(seq![e, e]) == Seq::<Seq<char>>::empty());
    } else {
        lemma_split_rendered(names);
        lemma_named_plain(seq![e], names);
    }
    assert(components(q) =~= seq![seq!['/']] + names);
}

/// Lexical normalization is idempotent: collapsing a collapsed rooted path
/// changes nothing.
pub proof fn lemma_normalize_idempotent(p: Seq<char>)
    requires
        rooted(p),
    ensures
        normalized(normalized(p)) == normalized(p),
{
    lemma_normalized_is_clean(p);
    let q = normalized(p);
    let names = fold_names(named(split_slash(p)));
    assert(rooted(q));
    let c = components(q);
    assert(c == seq![seq!['/']] + named(split_slash(q)));
    assert(named(split_slash(q)) =~= c.drop_first());
    assert(c.drop_first() =~= names);
    assert forall|k: int| 0 <= k < names.len() implies !is_dotdot(#[trigger] names[k]) by {
        assert(c[k + 1] == names[k]);
        assert(plain_name(c[k + 1]));
    }
    let e = Seq::<Seq<char>>::empty();
    lemma_fold_names_concat(e, names);
    assert(e + names =~= names);
    assert(fold_names(e) == e);
    assert(e + names == names);
}

} // verus!
