//! Byte-sequence helpers shared by the page, row and schema encodings.

use vstd::prelude::*;

verus! {

/// `s` with the bytes `b` written over it starting at `off`.
pub open spec fn splice(s: Seq<u8>, off: int, b: Seq<u8>) -> Seq<u8> {
    s.subrange(0, off) + b + s.subrange(off + b.len(), s.len() as int)
}

/// Copies `src` into `dst` starting at `off`; every other byte of `dst` is kept.
pub fn copy_into(dst: &mut [u8], off: usize, src: &[u8])
    requires
        off + src@.len() <= old(dst)@.len(),
    ensures
        final(dst)@ == splice(old(dst)@, off as int, src@),
        final(dst)@.len() == old(dst)@.len(),
{
    let n = src.len();
    let len = dst.len();
    let mut k: usize = 0;
    while k < n
        invariant
            n == src@.len(),
            len == dst@.len(),
            off + n <= dst@.len(),
            dst@.len() == old(dst)@.len(),
            0 <= k <= n,
            forall|j: int| 0 <= j < off || off + k <= j < dst@.len() ==> dst@[j] == old(dst)@[j],
            forall|j: int| 0 <= j < k ==> dst@[off + j] == src@[j],
        decreases n - k,
    {
        dst[off + k] = src[k];
        k = k + 1;
    }
    assert(dst@ =~= splice(old(dst)@, off as int, src@));
}

} // verus!
