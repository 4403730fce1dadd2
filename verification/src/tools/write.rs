//! The `write` tool's report: how many bytes went to which path. Creating
//! parent directories and writing the file atomically are the caller's part.

use vstd::prelude::*;

use crate::text::{byte_len, decimal, push_decimal, push_str};

verus! {

/// Arguments to the `write` tool.
#[derive(Debug)]
pub struct WriteArgs {
    /// Path to the file, relative to the workspace root. Parent directories are
    /// created as needed.
    pub path: String,
    /// The full contents to write.
    pub content: String,
}

/// The report of a successful write: the UTF-8 byte count of the contents and
/// the path.
pub open spec fn write_report(content: Seq<char>, path: Seq<char>) -> Seq<char> {
    "wrote "@ + decimal(byte_len(content)) + " bytes to `"@ + path + "`"@
}

/// The report of writing `args.content` to `args.path`.
pub fn write_summary(args: &WriteArgs) -> (r: String)
    ensures
        r@ == write_report(args.content@, args.path@),
{
    let n = args.content.as_str().as_bytes().len();
    let mut r = String::new();
    push_str(&mut r, "wrote ");
    push_decimal(&mut r, n as u64);
    push_str(&mut r, " bytes to `");
    push_str(&mut r, args.path.as_str());
    push_str(&mut r, "`");
    assert(r@ =~= write_report(args.content@, args.path@));
    r
}

} // verus!
