//! Bytewise XOR of equally long byte strings.
use vstd::prelude::*;

verus! {

/// The bytewise XOR of two byte strings of the same length.
pub open spec fn xor_bytes(a: Seq<u8>, b: Seq<u8>) -> Seq<u8> {
    Seq::new(a.len(), |i: int| a[i] ^ b[i])
}

/// Performs `dst[i] ^= src[i]` for all `i` in `0..len`.
#[inline]
pub fn xor_inplace(dst: &mut [u8], src: &[u8])
    requires
        old(dst)@.len() == src@.len(),
    ensures
        final(dst)@ == xor_bytes(old(dst)@, src@),
{
    let len: usize = dst.len();
    let mut i: usize = 0;
    while i < len
        invariant
            i <= len,
            len == src@.len(),
            dst@.len() == len,
            old(dst)@.len() == len,
            forall|j: int| 0 <= j < i ==> dst@[j] == old(dst)@[j] ^ src@[j],
            forall|j: int| i <= j < len ==> dst@[j] == old(dst)@[j],
        decreases len - i,
    {
        dst[i] = dst[i] ^ src[i];
        i = i + 1;
    }
    assert(dst@ =~= xor_bytes(old(dst)@, src@));
}

/// Performs `dst[i] = src_a[i] ^ src_b[i]` for all `i` in `0..len`.
#[inline]
pub fn xor_into(dst: &mut [u8], src_a: &[u8], src_b: &[u8])
    requires
        old(dst)@.len() == src_a@.len(),
        old(dst)@.len() == src_b@.len(),
    ensures
        final(dst)@ == xor_bytes(src_a@, src_b@),
{
    let len: usize = dst.len();
    let mut i: usize = 0;
    while i < len
        invariant
            i <= len,
            len == src_a@.len(),
            len == src_b@.len(),
            dst@.len() == len,
            forall|j: int| 0 <= j < i ==> dst@[j] == src_a@[j] ^ src_b@[j],
        decreases len - i,
    {
        dst[i] = src_a[i] ^ src_b[i];
        i = i + 1;
    }
    assert(dst@ =~= xor_bytes(src_a@, src_b@));
}

} // verus!
