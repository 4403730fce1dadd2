//! Workspace-root confinement shared by the file tools: a model-supplied path
//! is joined to the root, collapsed lexically and accepted only when it stays
//! within the root, both lexically and after symlinks on its existing prefix
//! are resolved. Also the name of the temp file that an atomic write stages
//! its bytes in.
//!
//! Canonicalizing paths against the file system and writing files are the
//! caller's part.

use vstd::prelude::*;

use crate::path::{
    components, components_of, is_dot, is_dotdot, join_path, lemma_normalized_is_clean,
    normalize_lexically, normalized, parent_of, parent_path, path_starts_with, path_tail, plain_name,
    rooted, spec_join_path, split_slash, starts_with_path, tail_after, fold_names, named,
    lemma_split_concat, lemma_named_concat, lemma_fold_names_concat, lemma_named_no_dotdot,
};
use crate::text::{decimal, push_decimal, push_str};

verus! {

/// Why a path was refused.
#[derive(Debug, Clone, Copy, PartialEq, Eq, Structural)]
pub enum WorkspaceError {
    /// The requested path leads out of the workspace root.
    Escapes,
}

/// The lexical target of `requested` under `root`: an absolute request stands
/// for itself, a relative one is joined to the root; `.` and `..` are then
/// collapsed.
pub fn lexical_target(root: &str, requested: &str) -> (r: String)
    ensures
        r@ == normalized(spec_join_path(root@, requested@)),
{
    let joined = join_path(root, requested);
    normalize_lexically(joined.as_str())
}

/// Accept the lexical target `target` of a request only when it lies within
/// the canonical `root`, and so does `resolved`, the target with the symlinks
/// on its existing prefix resolved.
pub fn confine(root: &str, target: &str, resolved: &str) -> (r: Result<String, WorkspaceError>)
    ensures
        r is Ok <==> path_starts_with(target@, root@) && path_starts_with(resolved@, root@),
        r matches Ok(p) ==> p@ == target@,
        r matches Err(e) ==> e == WorkspaceError::Escapes,
{
    if !starts_with_path(target, root) || !starts_with_path(resolved, root) {
        Err(WorkspaceError::Escapes)
    } else {
        Ok(target.to_owned())
    }
}

/// Where resolving the existing prefix of a path stands after one ancestor was
/// tried.
#[derive(Debug, PartialEq, Eq)]
pub enum PrefixStep {
    /// The resolved path.
    Resolved(String),
    /// Try this ancestor next.
    Climb(String),
}

/// One step of resolving the symlinks on the existing prefix of `path`, at
/// its ancestor `ancestor`, given what canonicalizing that ancestor gave
/// (`None` when it does not exist): a canonical ancestor is joined with the
/// rest of `path` below it; otherwise the search climbs to the ancestor's
/// parent, and `path` stands as it is once no parent is left.
pub fn resolve_existing_prefix(path: &str, ancestor: &str, canonical: Option<&str>) -> (r:
    PrefixStep)
    ensures
        match canonical {
            Some(c) => r matches PrefixStep::Resolved(s) && s@ == spec_join_path(
                c@,
                path_tail(path@, ancestor@),
            ),
            None => match parent_path(ancestor@) {
                Some(q) => r matches PrefixStep::Climb(a) && a@ == q,
                None => r matches PrefixStep::Resolved(s) && s@ == path@,
            },
        },
{
    match canonical {
        Some(c) => {
            let tail = tail_after(path, ancestor);
            PrefixStep::Resolved(join_path(c, tail.as_str()))
        },
        None => match parent_of(ancestor) {
            Some(q) => PrefixStep::Climb(q),
            None => PrefixStep::Resolved(path.to_owned()),
        },
    }
}

/// The message reported to the model when `requested` escapes the root.
pub open spec fn escape_message(requested: Seq<char>) -> Seq<char> {
    "path `"@ + requested + "` escapes the workspace root"@
}

impl WorkspaceError {
    /// The message reported to the model for the request `requested`.
    pub fn message(&self, requested: &str) -> (r: String)
        ensures
            r@ == escape_message(requested@),
    {
        let mut r = String::new();
        push_str(&mut r, "path `");
        push_str(&mut r, requested);
        push_str(&mut r, "` escapes the workspace root");
        assert(r@ =~= escape_message(requested@));
        r
    }
}

/// The last component of `p` when it names something (not the root, `.` or
/// `..`), as `Path::file_name` gives it.
pub open spec fn file_name(p: Seq<char>) -> Option<Seq<char>> {
    let c = components(p);
    if c.len() > 0 && !(c.len() == 1 && rooted(p)) && !is_dot(c.last()) && !is_dotdot(c.last()) {
        Some(c.last())
    } else {
        None
    }
}

/// The unique sibling path that an atomic write of `p` stages its bytes in,
/// for process `pid` and per-process sequence number `seq`.
pub open spec fn temp_sibling_of(p: Seq<char>, pid: u32, seq: u64) -> Seq<char> {
    let name = match file_name(p) {
        Some(n) => n,
        None => "tmp"@,
    };
    let tmp = "."@ + name + ".tp-"@ + decimal(pid as nat) + "-"@ + decimal(seq as nat) + ".tmp"@;
    match parent_path(p) {
        Some(parent) => spec_join_path(parent, tmp),
        None => tmp,
    }
}

/// A unique temp path beside `path`, on the same file system so a rename
/// over `path` is atomic.
pub fn temp_sibling(path: &str, pid: u32, seq: u64) -> (r: String)
    ensures
        r@ == temp_sibling_of(path@, pid, seq),
{
    let c = components_of(path);
    let n = c.len();
    let ghost cv = crate::text::char_texts(c@);
    let v = crate::text::chars_of(path);
    let mut tmp = String::new();
    push_str(&mut tmp, ".");
    let has_name = n > 0 && !(n == 1 && v.len() > 0 && v[0] == '/') && !(c[n - 1].len() == 1
        && c[n - 1][0] == '.') && !(c[n - 1].len() == 2 && c[n - 1][0] == '.' && c[n - 1][1]
        == '.');
    if has_name {
        assert(cv.last() == c@[n - 1]@);
        crate::text::push_chars(&mut tmp, &c[n - 1]);
    } else {
        push_str(&mut tmp, "tmp");
    }
    push_str(&mut tmp, ".tp-");
    push_decimal(&mut tmp, pid as u64);
    push_str(&mut tmp, "-");
    push_decimal(&mut tmp, seq);
    push_str(&mut tmp, ".tmp");
    let ghost name = match file_name(path@) {
        Some(nm) => nm,
        None => "tmp"@,
    };
    assert(tmp@ =~= "."@ + name + ".tp-"@ + decimal(pid as nat) + "-"@ + decimal(seq as nat)
        + ".tmp"@);
    match parent_of(path) {
        Some(parent) => join_path(parent.as_str(), tmp.as_str()),
        None => tmp,
    }
}


/// What the file tools touch stays in the workspace: a target that `confine`
/// accepts for a canonical (rooted) root starts with the root's components
/// and, past the root, consists of plain names only — no `.` and no `..`.
pub proof fn lemma_accepted_target_is_inside_and_clean(root: Seq<char>, requested: Seq<char>)
    requires
        rooted(root),
        path_starts_with(normalized(spec_join_path(root, requested)), root),
    ensures
        ({
            let t = normalized(spec_join_path(root, requested));
            &&& components(t).take(components(root).len() as int) == components(root)
            &&& components(t)[0] == seq!['/']
            &&& forall|k: int|
                1 <= k < components(t).len() ==> plain_name(#[trigger] components(t)[k])
        }),
{
    let joined = spec_join_path(root, requested);
    assert(rooted(joined));
    lemma_normalized_is_clean(joined);
}

/// A relative request without a `..` piece never leaves the workspace: joined
/// to a canonical root and collapsed, it lies under the root, whatever its
/// `.` pieces and repeated slashes.
pub proof fn lemma_plain_request_stays_inside(root: Seq<char>, requested: Seq<char>)
    requires
        rooted(root),
        normalized(root) == root,
        !rooted(requested),
        forall|k: int|
            0 <= k < split_slash(requested).len() ==> !is_dotdot(#[trigger] split_slash(requested)[k]),
    ensures
        path_starts_with(normalized(spec_join_path(root, requested)), root),
{
    let joined = spec_join_path(root, requested);
    let f = fold_names(named(split_slash(root)));
    let nr = named(split_slash(requested));
    lemma_normalized_is_clean(root);
    assert(components(root) == seq![seq!['/']] + f);
    if root.last() != '/' {
        assert(joined == root + seq!['/'] + requested);
        lemma_split_concat(root, requested);
        lemma_named_concat(split_slash(root), split_slash(requested));
    } else {
        let r0 = root.drop_last();
        assert(root =~= r0.push('/'));
        assert(joined =~= r0 + seq!['/'] + requested);
        lemma_split_concat(r0, requested);
        lemma_named_concat(split_slash(r0), split_slash(requested));
        assert(split_slash(root) == split_slash(r0).push(Seq::<char>::empty()));
        assert(split_slash(root).drop_last() =~= split_slash(r0));
        assert(named(split_slash(root)) == named(split_slash(r0)));
    }
    assert(named(split_slash(joined)) == named(split_slash(root)) + nr);
    lemma_named_no_dotdot(split_slash(requested));
    lemma_fold_names_concat(named(split_slash(root)), nr);
    assert(rooted(joined));
    lemma_normalized_is_clean(joined);
    let c = components(normalized(joined));
    assert(c =~= (seq![seq!['/']] + f) + nr);
    assert(c.take(components(root).len() as int) =~= components(root));
}

} // verus!
