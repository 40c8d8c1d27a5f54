//! The one decision behind the file-search tool: how the directory path
//! and the glob pattern combine into the full search pattern.  Walking the
//! file system stays with the caller.

use vstd::prelude::*;

verus! {

/// The full search pattern: the path and the pattern, with a `/` between
/// them unless the path already ends in a separator.
pub open spec fn spec_search_pattern(path: Seq<char>, pattern: Seq<char>) -> Seq<char> {
    if path.len() > 0 && (path.last() == '/' || path.last() == '\\') {
        path + pattern
    } else {
        path + seq!['/'] + pattern
    }
}

/// Combine a directory path and a glob pattern into the full search
/// pattern.
pub fn build_search_pattern(path: &str, pattern: &str) -> (r: String)
    ensures
        r@ == spec_search_pattern(path@, pattern@),
{
    let n = path.unicode_len();
    let mut out = path.to_owned();
    if n == 0 {
        out.append("/");
        proof {
            reveal_strlit("/");
            assert(path@ + "/"@ =~= path@ + seq!['/']);
        }
    } else {
        let c = path.get_char(n - 1);
        if !(c == '/' || c == '\\') {
            out.append("/");
            proof {
                reveal_strlit("/");
                assert(path@ + "/"@ =~= path@ + seq!['/']);
            }
        }
    }
    out.append(pattern);
    proof {
        if !(path@.len() > 0 && (path@.last() == '/' || path@.last() == '\\')) {
            assert((path@ + seq!['/']) + pattern@ =~= path@ + seq!['/'] + pattern@);
        }
    }
    out
}

} // verus!
