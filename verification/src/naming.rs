//! Filename validation: a document name must be non-empty and must not
//! be able to escape the content root (no separators, no `.`/`..`).

use vstd::prelude::*;
use crate::text::seq_contains_char;

verus! {

/// A filename the store accepts: non-empty, free of path separators and
/// NUL, and not one of the relative path components `.` or `..`.
pub open spec fn valid_filename(s: Seq<char>) -> bool {
    &&& s.len() > 0
    &&& !seq_contains_char(s, '/')
    &&& !seq_contains_char(s, '\\')
    &&& !seq_contains_char(s, '\0')
    &&& !(s.len() == 1 && s[0] == '.')
    &&& !(s.len() == 2 && s[0] == '.' && s[1] == '.')
}

/// Decides `valid_filename` for a string slice.
pub fn is_valid_filename(name: &str) -> (r: bool)
    ensures
        r == valid_filename(name@),
{
    let len = name.unicode_len();
    if len == 0 {
        return false;
    }
    let mut i: usize = 0;
    while i < len
        invariant
            len == name@.len(),
            i <= len,
            forall|j: int|
                0 <= j < i ==> name@[j] != '/' && name@[j] != '\\' && name@[j] != '\0',
        decreases len - i,
    {
        let c = name.get_char(i);
        if c == '/' || c == '\\' || c == '\0' {
            return false;
        }
        i = i + 1;
    }
    if len == 1 && name.get_char(0) == '.' {
        return false;
    }
    if len == 2 && name.get_char(0) == '.' && name.get_char(1) == '.' {
        return false;
    }
    true
}

} // verus!
