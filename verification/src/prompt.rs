//! Prompt assembly: splitting positionals into `@file` references and message
//! words, wrapping inlined file contents, joining the system prompt, and
//! joining piped stdin, files and message into the final prompt.
//!
//! Reading files and stdin is the caller's part; these functions take the
//! texts that were read.

use vstd::prelude::*;

use crate::path::{join_path, spec_join_path};
use crate::text::{
    chars_of, is_blank, is_blank_chars, join, join_strings, push_str,
    string_of_range, texts, trim, trim_string,
};

verus! {

/// Positional args split into `@file` references and the message words.
#[derive(Debug, Default, PartialEq, Eq)]
pub struct Positionals {
    /// Paths from `@`-prefixed positionals, with the `@` stripped.
    pub files: Vec<String>,
    /// The remaining positionals joined by a single space.
    pub message: String,
}

/// Whether a positional is a file reference: it starts with `@`.
pub open spec fn is_file_ref(a: Seq<char>) -> bool {
    a.len() > 0 && a[0] == '@'
}

/// The file references among `args`, in order, with the `@` stripped.
pub open spec fn file_refs(args: Seq<Seq<char>>) -> Seq<Seq<char>>
    decreases args.len(),
{
    if args.len() == 0 {
        seq![]
    } else if is_file_ref(args.last()) {
        file_refs(args.drop_last()).push(args.last().drop_first())
    } else {
        file_refs(args.drop_last())
    }
}

/// The positionals among `args` that are not file references, in order.
pub open spec fn message_words(args: Seq<Seq<char>>) -> Seq<Seq<char>>
    decreases args.len(),
{
    if args.len() == 0 {
        seq![]
    } else if is_file_ref(args.last()) {
        message_words(args.drop_last())
    } else {
        message_words(args.drop_last()).push(args.last())
    }
}

/// Split positional args: `@`-prefixed ones are file references, the rest join
/// into the message.
pub fn split_positionals(args: &[String]) -> (p: Positionals)
    ensures
        texts(p.files@) == file_refs(texts(args@)),
        p.message@ == join(message_words(texts(args@)), seq![' ']),
{
    let mut files: Vec<String> = Vec::new();
    let mut words: Vec<String> = Vec::new();
    let n = args.len();
    for i in 0..n
        invariant
            n == args@.len(),
            texts(files@) == file_refs(texts(args@).take(i as int)),
            texts(words@) == message_words(texts(args@).take(i as int)),
    {
        let ghost prev = texts(args@).take(i as int);
        let ghost next = texts(args@).take(i + 1);
        assert(next.drop_last() =~= prev);
        assert(next.last() == args@[i as int]@);
        let v = chars_of(args[i].as_str());
        if v.len() > 0 && v[0] == '@' {
            let f = string_of_range(&v, 1, v.len());
            files.push(f);
            assert(v@.subrange(1, v@.len() as int) =~= v@.drop_first());
            assert(texts(files@) =~= file_refs(prev).push(args@[i as int]@.drop_first()));
        } else {
            words.push(args[i].clone());
            assert(texts(words@) =~= message_words(prev).push(args@[i as int]@));
        }
    }
    assert(texts(args@).take(n as int) =~= texts(args@));
    let message = join_strings(&words, " ");
    proof {
        reveal_strlit(" ");
        assert(" "@ =~= seq![' ']);
    }
    Positionals { files, message }
}

/// `s` without a leading byte-order mark (`U+FEFF`).
pub open spec fn without_bom(s: Seq<char>) -> Seq<char> {
    if s.len() > 0 && s[0] == '\u{feff}' {
        s.drop_first()
    } else {
        s
    }
}

/// Strip a leading UTF-8 BOM if present.
pub fn strip_bom(s: &str) -> (r: String)
    ensures
        r@ == without_bom(s@),
{
    let v = chars_of(s);
    if v.len() > 0 && v[0] == '\u{feff}' {
        assert(v@.subrange(1, v@.len() as int) =~= v@.drop_first());
        string_of_range(&v, 1, v.len())
    } else {
        assert(v@.subrange(0, v@.len() as int) =~= v@);
        string_of_range(&v, 0, v.len())
    }
}

/// The path that `~/rest` names when the home directory is `home`: a leading
/// `~/` is expanded, any other path is kept as it is.
pub open spec fn tilde_expansion(path: Seq<char>, home: Option<Seq<char>>) -> Seq<char> {
    if path.len() >= 2 && path[0] == '~' && path[1] == '/' && home is Some {
        spec_join_path(home->0, path.skip(2))
    } else {
        path
    }
}

/// Expand a leading `~/` to the home directory `home` (the `HOME` variable,
/// when it is set); other paths pass through.
pub fn expand_tilde(path: &str, home: Option<&str>) -> (r: String)
    ensures
        r@ == tilde_expansion(path@, match home {
            Some(h) => Some(h@),
            None => None,
        }),
{
    let v = chars_of(path);
    if v.len() >= 2 && v[0] == '~' && v[1] == '/' {
        if let Some(h) = home {
            let rest = string_of_range(&v, 2, v.len());
            assert(v@.subrange(2, v@.len() as int) =~= v@.skip(2));
            return join_path(h, rest.as_str());
        }
    }
    string_of_range(&v, 0, v.len())
}

/// The parts of the system prompt: the base first, then each append.
pub open spec fn system_parts(base: Option<Seq<char>>, appends: Seq<Seq<char>>) -> Seq<
    Seq<char>,
> {
    match base {
        Some(b) => seq![b] + appends,
        None => appends,
    }
}

/// The blank line that separates prompt parts.
pub open spec fn blank_line() -> Seq<char> {
    seq!['\n', '\n']
}

/// Build the system prompt from an optional base and zero or more appends
/// (each already resolved from text or file), joined by blank lines. `None`
/// when nothing is supplied.
pub fn build_system_prompt(base: Option<&str>, appends: &[String]) -> (r: Option<String>)
    ensures
        ({
            let parts = system_parts(
                match base {
                    Some(b) => Some(b@),
                    None => None,
                },
                texts(appends@),
            );
            match r {
                None => parts.len() == 0,
                Some(s) => parts.len() > 0 && s@ == join(parts, blank_line()),
            }
        }),
{
    let mut parts: Vec<String> = Vec::new();
    if let Some(b) = base {
        parts.push(b.to_owned());
    }
    let ghost first = parts@;
    let n = appends.len();
    for i in 0..n
        invariant
            n == appends@.len(),
            parts@ == first + appends@.take(i as int),
    {
        parts.push(appends[i].clone());
        assert(appends@.take(i + 1) =~= appends@.take(i as int).push(appends@[i as int]));
    }
    assert(appends@.take(n as int) =~= appends@);
    let ghost base_view = match base {
        Some(b) => Some(b@),
        None => None,
    };
    assert(texts(parts@) =~= system_parts(base_view, texts(appends@)));
    if parts.len() == 0 {
        None
    } else {
        let s = join_strings(&parts, "\n\n");
        proof {
            reveal_strlit("\n\n");
            assert("\n\n"@ =~= blank_line());
        }
        Some(s)
    }
}

/// The `<file name="path">` block that inlines `content`.
pub open spec fn file_block(path: Seq<char>, content: Seq<char>) -> Seq<char> {
    "<file name=\""@ + path + "\">\n"@ + content + "\n</file>\n"@
}

/// The inlined blocks of the files named `paths` whose contents are
/// `contents`: a leading byte-order mark is dropped and whitespace-only files
/// are skipped.
pub open spec fn inline_blocks(paths: Seq<Seq<char>>, contents: Seq<Seq<char>>) -> Seq<char>
    decreases paths.len(),
{
    if paths.len() == 0 || contents.len() == 0 {
        seq![]
    } else {
        let prev = inline_blocks(paths.drop_last(), contents.drop_last());
        let c = without_bom(contents.last());
        if is_blank(c) {
            prev
        } else {
            prev + file_block(paths.last(), c)
        }
    }
}

/// Inline `@file` references as `<file name="path">…</file>` blocks, given
/// the contents read from each path. Empty (whitespace-only) files are
/// skipped.
pub fn inline_file_contents(paths: &[String], contents: &[String]) -> (r: String)
    requires
        paths@.len() == contents@.len(),
    ensures
        r@ == inline_blocks(texts(paths@), texts(contents@)),
{
    let mut out = String::new();
    let n = paths.len();
    for i in 0..n
        invariant
            n == paths@.len() == contents@.len(),
            out@ == inline_blocks(texts(paths@).take(i as int), texts(contents@).take(i as int)),
    {
        let ghost ps = texts(paths@).take(i + 1);
        let ghost cs = texts(contents@).take(i + 1);
        assert(ps.drop_last() =~= texts(paths@).take(i as int));
        assert(cs.drop_last() =~= texts(contents@).take(i as int));
        assert(ps.last() == paths@[i as int]@);
        assert(cs.last() == contents@[i as int]@);
        let content = strip_bom(contents[i].as_str());
        let cv = chars_of(content.as_str());
        if !is_blank_chars(&cv) {
            let ghost before = out@;
            push_str(&mut out, "<file name=\"");
            push_str(&mut out, paths[i].as_str());
            push_str(&mut out, "\">\n");
            push_str(&mut out, content.as_str());
            push_str(&mut out, "\n</file>\n");
            assert(out@ =~= before + file_block(paths@[i as int]@, content@));
        }
    }
    assert(texts(paths@).take(n as int) =~= texts(paths@));
    assert(texts(contents@).take(n as int) =~= texts(contents@));
    out
}

/// The segments of the final prompt, in order: trimmed piped stdin, the
/// trimmed file block and the message, each only when not empty.
pub open spec fn prompt_segments(
    stdin: Option<Seq<char>>,
    files_block: Seq<char>,
    message: Seq<char>,
) -> Seq<Seq<char>> {
    let a: Seq<Seq<char>> = match stdin {
        Some(s) => if trim(s).len() > 0 {
            seq![trim(s)]
        } else {
            seq![]
        },
        None => seq![],
    };
    let b: Seq<Seq<char>> = if trim(files_block).len() > 0 {
        seq![trim(files_block)]
    } else {
        seq![]
    };
    let c: Seq<Seq<char>> = if message.len() > 0 {
        seq![message]
    } else {
        seq![]
    };
    a + b + c
}

/// Join piped stdin, the inlined file block and the message into the final
/// prompt, in that order, separated by blank lines. Empty segments are dropped.
pub fn assemble_prompt(stdin: Option<&str>, files_block: &str, message: &str) -> (r: String)
    ensures
        r@ == join(
            prompt_segments(
                match stdin {
                    Some(s) => Some(s@),
                    None => None,
                },
                files_block@,
                message@,
            ),
            blank_line(),
        ),
{
    let ghost stdin_view = match stdin {
        Some(s) => Some(s@),
        None => None,
    };
    let ghost segs = prompt_segments(stdin_view, files_block@, message@);
    let ghost a: Seq<Seq<char>> = match stdin_view {
        Some(s) => if trim(s).len() > 0 {
            seq![trim(s)]
        } else {
            seq![]
        },
        None => seq![],
    };
    let ghost b: Seq<Seq<char>> = if trim(files_block@).len() > 0 {
        seq![trim(files_block@)]
    } else {
        seq![]
    };
    let mut parts: Vec<String> = Vec::new();
    if let Some(s) = stdin {
        let t = trim_string(s);
        if !t.as_str().is_empty() {
            parts.push(t);
            assert(trim(s@).len() > 0);
            assert(texts(parts@) =~= seq![trim(s@)]);
        } else {
            assert(trim(s@).len() == 0);
        }
    }
    assert(texts(parts@) =~= a);
    let f = trim_string(files_block);
    if !f.as_str().is_empty() {
        parts.push(f);
    }
    assert(texts(parts@) =~= a + b);
    if !message.is_empty() {
        parts.push(message.to_owned());
    }
    assert(texts(parts@) =~= segs);
    let r = join_strings(&parts, "\n\n");
    proof {
        reveal_strlit("\n\n");
        assert("\n\n"@ =~= blank_line());
    }
    r
}


/// Every positional ends up in exactly one place: as a file reference or as
/// a message word.
pub proof fn lemma_split_partitions(args: Seq<Seq<char>>)
    ensures
        file_refs(args).len() + message_words(args).len() == args.len(),
    decreases args.len(),
{
    if args.len() > 0 {
        lemma_split_partitions(args.drop_last());
    }
}

/// Prompt assembly keeps its fixed order: piped stdin, then the inlined
/// files, then the message, each separated by a blank line.
pub proof fn lemma_assembly_order(stdin: Seq<char>, files_block: Seq<char>, message: Seq<char>)
    requires
        trim(stdin).len() > 0,
        trim(files_block).len() > 0,
        message.len() > 0,
    ensures
        join(prompt_segments(Some(stdin), files_block, message), blank_line()) == trim(stdin)
            + blank_line() + trim(files_block) + blank_line() + message,
{
    let segs = prompt_segments(Some(stdin), files_block, message);
    assert(segs =~= seq![trim(stdin), trim(files_block), message]);
    assert(segs.drop_last() =~= seq![trim(stdin), trim(files_block)]);
    assert(segs.drop_last().drop_last() =~= seq![trim(stdin)]);
    let two = segs.drop_last();
    assert(join(two.drop_last(), blank_line()) == trim(stdin));
    assert(join(two, blank_line()) == trim(stdin) + blank_line() + trim(files_block));
    assert(join(segs, blank_line()) == join(two, blank_line()) + blank_line() + message);
}

/// Every non-empty segment reaches the prompt, in the fixed order: trimmed
/// piped stdin, then the trimmed file block, then the message, with exactly
/// one blank line wherever two of them meet; so a non-empty message always
/// ends the prompt and non-blank stdin always starts it.
pub proof fn lemma_assembly_keeps_every_segment(
    stdin: Option<Seq<char>>,
    files_block: Seq<char>,
    message: Seq<char>,
)
    ensures
        ({
            let s = match stdin {
                Some(x) => trim(x),
                None => Seq::<char>::empty(),
            };
            let f = trim(files_block);
            let m = message;
            let e = Seq::<char>::empty();
            let r = join(prompt_segments(stdin, files_block, message), blank_line());
            &&& r == s + (if s.len() > 0 && (f.len() > 0 || m.len() > 0) {
                blank_line()
            } else {
                e
            }) + f + (if f.len() > 0 && m.len() > 0 {
                blank_line()
            } else {
                e
            }) + m
            &&& m.len() > 0 ==> r.len() >= m.len() && r.skip(r.len() - m.len()) == m
            &&& r.take(s.len() as int) == s
        }),
{
    let s = match stdin {
        Some(x) => trim(x),
        None => Seq::<char>::empty(),
    };
    let f = trim(files_block);
    let m = message;
    let e = Seq::<char>::empty();
    let segs = prompt_segments(stdin, files_block, message);
    let bl = blank_line();
    let a: Seq<Seq<char>> = if s.len() > 0 { seq![s] } else { seq![] };
    let b: Seq<Seq<char>> = if f.len() > 0 { seq![f] } else { seq![] };
    let c: Seq<Seq<char>> = if m.len() > 0 { seq![m] } else { seq![] };
    assert(segs =~= a + b + c);
    let r = join(segs, bl);
    if s.len() > 0 {
        if f.len() > 0 {
            if m.len() > 0 {
                assert(segs =~= seq![s, f, m]);
                assert(segs.drop_last() =~= seq![s, f]);
                assert(segs.drop_last().drop_last() =~= seq![s]);
                let two = segs.drop_last();
                assert(join(two.drop_last(), bl) == s);
                assert(join(two, bl) == s + bl + f);
                assert(r == join(two, bl) + bl + m);
                assert(r =~= s + bl + f + bl + m);
            } else {
                assert(segs =~= seq![s, f]);
                assert(segs.drop_last() =~= seq![s]);
                assert(join(segs.drop_last(), bl) == s);
                assert(r == s + bl + f);
                assert(r =~= s + bl + f + e + e);
            }
        } else if m.len() > 0 {
            assert(segs =~= seq![s, m]);
            assert(segs.drop_last() =~= seq![s]);
            assert(join(segs.drop_last(), bl) == s);
            assert(r == s + bl + m);
            assert(r =~= s + bl + e + e + m);
        } else {
            assert(segs =~= seq![s]);
            assert(r =~= s + e + e + e + e);
        }
    } else if f.len() > 0 {
        if m.len() > 0 {
            assert(segs =~= seq![f, m]);
            assert(segs.drop_last() =~= seq![f]);
            assert(join(segs.drop_last(), bl) == f);
            assert(r == f + bl + m);
            assert(s =~= e);
            assert(r =~= s + e + f + bl + m);
        } else {
            assert(segs =~= seq![f]);
            assert(r =~= s + e + f + e + e);
        }
    } else if m.len() > 0 {
        assert(segs =~= seq![m]);
        assert(r =~= s + e + e + e + m);
    } else {
        assert(segs =~= Seq::<Seq<char>>::empty());
        assert(r =~= s + e + e + e + e);
    }
    let sep1 = if s.len() > 0 && (f.len() > 0 || m.len() > 0) { bl } else { e };
    let sep2 = if f.len() > 0 && m.len() > 0 { bl } else { e };
    assert(r == s + sep1 + f + sep2 + m);
    assert(r.skip(r.len() - m.len()) =~= m);
    assert(r.take(s.len() as int) =~= s);
}

} // verus!

