//! The identity permutation.

use vstd::prelude::*;

verus! {

/// The indices `0, 1, .., length - 1` in order.
pub open spec fn identity_indices(length: nat) -> Seq<usize> {
    Seq::new(length, |i: int| i as usize)
}

/// Sets `out` to the indices `0..length`, whatever it held before.
pub fn fill_indices(length: usize, out: &mut Vec<usize>)
    ensures
        final(out)@ == identity_indices(length as nat),
{
    out.clear();
    out.reserve(length);
    let mut i: usize = 0;
    while i < length
        invariant
            i <= length,
            out@ == identity_indices(i as nat),
        decreases length - i,
    {
        out.push(i);
        proof {
            assert(out@ =~= identity_indices((i + 1) as nat));
        }
        i += 1;
    }
}

} // verus!
