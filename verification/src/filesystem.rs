//! Helpers for the texts of file-system paths.

use vstd::prelude::*;

use crate::path::SEPARATOR;
use crate::text::copy_range;

verus! {

/// `s` without every `/` at its beginning.
pub open spec fn strip_leading_slashes(s: Seq<u8>) -> Seq<u8>
    decreases s.len(),
{
    if s.len() > 0 && s[0] == SEPARATOR {
        strip_leading_slashes(s.drop_first())
    } else {
        s
    }
}

/// A path text without the `.` that stands for the current directory at its
/// beginning: `./foo` becomes `foo`, `.` becomes the empty text, and a text
/// that does not begin with the component `.` stays as it is.
pub open spec fn without_current_dir(path: Seq<u8>) -> Seq<u8> {
    if path.len() > 0 && path[0] == 0x2e && (path.len() == 1 || path[1] == SEPARATOR) {
        strip_leading_slashes(path.drop_first())
    } else {
        path
    }
}

/// Strips the current directory off the beginning of a path text.
pub fn strip_current_dir(path: &[u8]) -> (stripped: Vec<u8>)
    ensures
        stripped@ == without_current_dir(path@),
{
    let n = path.len();
    assert(path@.subrange(0, n as int) =~= path@);
    if n > 0 && path[0] == 0x2e && (n == 1 || path[1] == SEPARATOR) {
        let mut start: usize = 1;
        assert(path@.drop_first() =~= path@.subrange(1, n as int));
        while start < n && path[start] == SEPARATOR
            invariant
                1 <= start <= n == path.len(),
                strip_leading_slashes(path@.drop_first()) == strip_leading_slashes(
                    path@.subrange(start as int, n as int),
                ),
            decreases n - start,
        {
            assert(path@.subrange(start as int, n as int).drop_first() =~= path@.subrange(
                start + 1,
                n as int,
            ));
            start = start + 1;
        }
        copy_range(path, start, n)
    } else {
        copy_range(path, 0, n)
    }
}

} // verus!
