//! Small helpers shared across the engine: its error kinds, string
//! comparison, and display truncation.

use vstd::prelude::*;
use vstd::string::{StrSliceExecFns, StringExecFns};

verus! {

/// The engine's error kinds. A failed network interaction surfaces as
/// `APIError`; `LanguageError` marks text the engine could not work with.
#[allow(missing_docs)]
#[derive(Debug, Clone, Copy, PartialEq, Eq, Structural)]
pub enum Error {
    APIError,
    LanguageError,
}

/// Whether two string slices hold the same characters: lengths first,
/// then character by character.
pub fn str_eq(a: &str, b: &str) -> (r: bool)
    ensures
        r == (a@ == b@),
{
    let n = a.unicode_len();
    let m = b.unicode_len();
    if n != m {
        proof {
            assert(a@.len() != b@.len());
        }
        return false;
    }
    for i in 0..n
        invariant
            n == a@.len(),
            n == b@.len(),
            forall|k: int| 0 <= k < i ==> a@[k] == b@[k],
        decreases n - i,
    {
        let ca = a.get_char(i);
        let cb = b.get_char(i);
        if ca as u32 != cb as u32 {
            proof {
                assert(a@[i as int] != b@[i as int]);
            }
            return false;
        }
        proof {
            assert(a@[i as int] == b@[i as int]);
        }
    }
    proof {
        assert(a@ =~= b@);
    }
    true
}

/// Cuts a string down to at most `max_chars` characters; a string that was
/// longer gets a trailing ellipsis.
pub fn truncate_with_dots(s: &str, max_chars: usize) -> (r: String)
    ensures
        s@.len() <= max_chars ==> r@ == s@,
        s@.len() > max_chars ==> r@ == s@.subrange(0, max_chars as int) + "..."@,
{
    let n = s.unicode_len();
    if n <= max_chars {
        s.to_owned()
    } else {
        let prefix = s.substring_char(0, max_chars);
        let mut val = prefix.to_owned();
        val.append("...");
        val
    }
}

} // verus!
