//! The on-disk cache for converted PDF files: where the cached markdown
//! lives under a project root, and when it may be reused.
//!
//! Reading timestamps and invoking the external converter are the
//! application's work; the path scheme and the freshness rule live here.

use vstd::prelude::*;

verus! {

use vstd::string::StringExecFns;

/// The cache path for a converted PDF: `<root>/.coderlm/converted/<rel_path>.md`.
pub fn cache_path(root: &str, rel_path: &str) -> (r: String)
    ensures
        r@ == root@ + "/.coderlm/converted/"@ + rel_path@ + ".md"@,
{
    let mut s = root.to_owned();
    s.append("/.coderlm/converted/");
    s.append(rel_path);
    s.append(".md");
    s
}

/// A cached conversion is reused exactly when it is at least as new as
/// its source.
pub fn cache_is_fresh(cache_mtime: i64, source_mtime: i64) -> (r: bool)
    ensures
        r == (cache_mtime >= source_mtime),
{
    cache_mtime >= source_mtime
}

} // verus!
