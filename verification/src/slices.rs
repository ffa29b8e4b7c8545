//! Copies of rows of numbers.
use vstd::prelude::*;

verus! {

/// A copy of the numbers.
pub fn copy_u64(s: &[u64]) -> (r: Vec<u64>)
    ensures
        r@ == s@,
{
    let r = vstd::slice::slice_to_vec(s);
    assert(r@ =~= s@);
    r
}

} // verus!
