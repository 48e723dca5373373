//! Small string utilities shared by the engine's parsing code.

use vstd::prelude::*;
use vstd::string::StrSliceExecFns;

verus! {

/// Character-by-character string equality, specified against the views.
pub fn str_eq(a: &str, b: &str) -> (r: bool)
    ensures
        r == (a@ == b@),
{
    let alen = a.unicode_len();
    let blen = b.unicode_len();
    if alen != blen {
        return false;
    }
    let mut i: usize = 0;
    while i < alen
        invariant
            i <= alen,
            alen == a@.len(),
            blen == b@.len(),
            alen == blen,
            forall|j: int| 0 <= j < i ==> a@[j] == b@[j],
        decreases alen - i,
    {
        if a.get_char(i) != b.get_char(i) {
            return false;
        }
        i = i + 1;
    }
    proof {
        assert(a@ =~= b@);
    }
    true
}

} // verus!
