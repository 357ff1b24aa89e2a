//! Comparison of fixed-size byte strings (addresses, hashes, node ids).

use vstd::prelude::*;

verus! {

/// Whether two byte arrays of the same size hold the same bytes.
pub fn bytes_eq<const N: usize>(a: &[u8; N], b: &[u8; N]) -> (r: bool)
    ensures
        r == (a@ == b@),
{
    let mut i: usize = 0;
    while i < N
        invariant
            0 <= i <= N,
            a@.len() == N,
            b@.len() == N,
            forall|j: int| 0 <= j < i ==> a@[j] == b@[j],
        decreases N - i,
    {
        if a[i] != b[i] {
            assert(a@[i as int] != b@[i as int]);
            return false;
        }
        i = i + 1;
    }
    assert(a@ =~= b@);
    true
}

/// Whether `id` is the all-zero identifier.
pub fn is_zero32(id: &[u8; 32]) -> (r: bool)
    ensures
        r == (id@ == Seq::new(32, |i: int| 0u8)),
{
    let mut i: usize = 0;
    while i < 32
        invariant
            0 <= i <= 32,
            id@.len() == 32,
            forall|j: int| 0 <= j < i ==> id@[j] == 0u8,
        decreases 32 - i,
    {
        if id[i] != 0 {
            assert(id@[i as int] != Seq::new(32, |k: int| 0u8)[i as int]);
            return false;
        }
        i = i + 1;
    }
    assert(id@ =~= Seq::new(32, |k: int| 0u8));
    true
}

} // verus!
