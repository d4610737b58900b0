//! Paths as the archive tools see them: plain strings.

use vstd::prelude::*;
use vstd::string::StringExecFns;
use crate::bytes::bytes_equal;
use crate::order::{arranged, rank, sort, Ranking};

verus! {

/// `p` with `s` put behind it, as in `"/a/b/c"` and `"d"` giving `"/a/b/cd"`.
pub fn append_to_path(p: &str, s: &str) -> (r: String)
    ensures
        r@ == p@ + s@,
{
    let mut r = String::from_str(p);
    r.append(s);
    r
}

/// Calls `str::strip_prefix` with a string as the pattern. Claimed of it: it
/// hands back what follows `prefix` in `text` where `text` starts with
/// `prefix`, and nothing elsewhere.
#[verifier::external_body]
fn strip_prefix<'a>(text: &'a str, prefix: &str) -> (r: Option<&'a str>)
    ensures
        match r {
            Some(rest) => text@ == prefix@ + rest@,
            None => !prefix@.is_prefix_of(text@),
        },
{
    text.strip_prefix(prefix)
}

/// The path of a file below the input root: what follows `root` in `path`.
/// There is none where `path` does not start with `root`.
pub fn relative_path(path: &str, root: &str) -> (r: Option<String>)
    ensures
        match r {
            Some(relative) => path@ == root@ + relative@,
            None => !root@.is_prefix_of(path@),
        },
{
    match strip_prefix(path, root) {
        Some(rest) => Some(String::from_str(rest)),
        None => None,
    }
}

/// The name of the files that are never packed.
pub open spec fn ds_store() -> Seq<char> {
    seq!['.', 'D', 'S', '_', 'S', 't', 'o', 'r', 'e']
}

/// Whether a file of the name `file_name` is left out of an archive: it is
/// where the name is exactly `.DS_Store`.
pub fn is_skipped(file_name: &str) -> (b: bool)
    ensures
        b == (file_name@ == ds_store()),
{
    let skipped = ".DS_Store";
    proof {
        reveal_strlit(".DS_Store");
        assert(skipped@ =~= ds_store());
        vstd::utf8::encode_utf8_decode_utf8(file_name@);
        vstd::utf8::encode_utf8_decode_utf8(skipped@);
    }
    bytes_equal(file_name.as_bytes(), skipped.as_bytes())
}

/// A file that the walk found: where it lies, and how long it is.
#[derive(Clone, Debug, PartialEq, Eq)]
pub struct SourceFile {
    pub path: String,
    pub size: u64,
}

/// The order of the work queue: the longest file first.
pub struct LongestFirst;

impl Ranking<SourceFile> for LongestFirst {
    open spec fn le(a: SourceFile, b: SourceFile) -> bool {
        a.size >= b.size
    }

    fn is_le(a: &SourceFile, b: &SourceFile) -> (r: bool) {
        a.size >= b.size
    }

    proof fn lemma_total(a: SourceFile, b: SourceFile) {
    }

    proof fn lemma_transitive(a: SourceFile, b: SourceFile, c: SourceFile) {
    }
}

/// No file of `files` is longer than one before it.
pub open spec fn longest_first(files: Seq<SourceFile>) -> bool {
    forall|i: int, j: int|
        0 <= i <= j < files.len() ==> (#[trigger] files[i]).size >= (#[trigger] files[j]).size
}

/// The files in the order in which they are packed: the longest first, so
/// that no worker is left with a long file at the end. Files of the same
/// length keep their order.
pub fn queue_order(files: Vec<SourceFile>) -> (r: Vec<SourceFile>)
    ensures
        r@ == arranged(files@, rank::<SourceFile, LongestFirst>()),
        longest_first(r@),
        r@.to_multiset() == files@.to_multiset(),
{
    let r = sort::<SourceFile, LongestFirst>(files);
    proof {
        assert forall|i: int, j: int| 0 <= i <= j < r@.len() implies (#[trigger] r@[i]).size >= (
        #[trigger] r@[j]).size by {
            assert(LongestFirst::le(r@[i], r@[j]));
        }
    }
    r
}

} // verus!
