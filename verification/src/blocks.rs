//! XOR sums over sets of equally long blocks.
use crate::simd::xor_bytes;
use vstd::prelude::*;

verus! {

/// Byte `b` of the XOR of the blocks below `n` whose index is in `s`.
pub open spec fn xor_byte(blocks: Seq<Seq<u8>>, s: Set<usize>, n: nat, b: int) -> u8
    decreases n,
{
    if n == 0 {
        0
    } else {
        let below = xor_byte(blocks, s, (n - 1) as nat, b);
        if s.contains((n - 1) as usize) {
            below ^ blocks[n - 1][b]
        } else {
            below
        }
    }
}

/// The XOR of the blocks whose index is in `s`, as a block of `size` bytes.
pub open spec fn xor_sum(blocks: Seq<Seq<u8>>, s: Set<usize>, size: nat) -> Seq<u8> {
    Seq::new(size, |b: int| xor_byte(blocks, s, blocks.len(), b))
}

/// The contents of a list of blocks.
pub open spec fn block_views(blocks: Seq<Vec<u8>>) -> Seq<Seq<u8>> {
    Seq::new(blocks.len(), |i: int| blocks[i]@)
}

/// A block of `size` zero bytes.
pub open spec fn zero_block(size: nat) -> Seq<u8> {
    Seq::new(size, |b: int| 0u8)
}

/// Whether every block has `size` bytes.
pub open spec fn all_sized(blocks: Seq<Seq<u8>>, size: nat) -> bool {
    forall|i: int| 0 <= i < blocks.len() ==> (#[trigger] blocks[i]).len() == size
}

/// Appending a block appends its contents.
pub proof fn lemma_block_views_push(blocks: Seq<Vec<u8>>, block: Vec<u8>)
    ensures
        block_views(blocks.push(block)) == block_views(blocks).push(block@),
{
    assert(block_views(blocks.push(block)) =~= block_views(blocks).push(block@));
}

/// XOR of bytes is commutative, associative, and undoes itself.
pub proof fn lemma_xor_algebra(a: u8, b: u8, c: u8)
    ensures
        a ^ b == b ^ a,
        (a ^ b) ^ c == a ^ (b ^ c),
        (a ^ b) ^ c == (a ^ c) ^ b,
        (a ^ b) ^ b == a,
        a ^ a == 0,
        0u8 ^ a == a,
        a ^ 0u8 == a,
{
    assert(a ^ b == b ^ a && (a ^ b) ^ c == a ^ (b ^ c) && (a ^ b) ^ c == (a ^ c) ^ b && (a ^ b) ^ b
        == a && a ^ a == 0 && 0u8 ^ a == a && a ^ 0u8 == a) by (bit_vector);
}

/// Only what lies below `n` matters to the sum below `n`.
pub proof fn lemma_xor_byte_agree(
    x: Seq<Seq<u8>>,
    y: Seq<Seq<u8>>,
    s: Set<usize>,
    t: Set<usize>,
    n: nat,
    b: int,
)
    requires
        n <= usize::MAX + 1,
        forall|i: usize| i < n ==> (s.contains(i) <==> t.contains(i)),
        forall|i: usize| i < n && #[trigger] s.contains(i) ==> x[i as int][b] == y[i as int][b],
    ensures
        xor_byte(x, s, n, b) == xor_byte(y, t, n, b),
    decreases n,
{
    if n > 0 {
        lemma_xor_byte_agree(x, y, s, t, (n - 1) as nat, b);
        let i = (n - 1) as usize;
        assert(s.contains(i) <==> t.contains(i));
    }
}

/// Adding an index to the set adds its block to the sum.
pub proof fn lemma_xor_byte_insert(blocks: Seq<Seq<u8>>, s: Set<usize>, n: nat, b: int, i: usize)
    requires
        i < n <= usize::MAX + 1,
        !s.contains(i),
    ensures
        xor_byte(blocks, s.insert(i), n, b) == xor_byte(blocks, s, n, b) ^ blocks[i as int][b],
    decreases n,
{
    let m = (n - 1) as nat;
    if m == i {
        lemma_xor_byte_agree(blocks, blocks, s.insert(i), s, m, b);
    } else {
        lemma_xor_byte_insert(blocks, s, m, b, i);
        lemma_xor_algebra(xor_byte(blocks, s, m, b), blocks[i as int][b], blocks[m as int][b]);
        assert(s.insert(i).contains(m as usize) == s.contains(m as usize));
    }
}

/// The sum over no block is zero.
pub proof fn lemma_xor_byte_empty(blocks: Seq<Seq<u8>>, n: nat, b: int)
    ensures
        xor_byte(blocks, Set::empty(), n, b) == 0,
    decreases n,
{
    if n > 0 {
        lemma_xor_byte_empty(blocks, (n - 1) as nat, b);
    }
}

/// The sum over no block is the zero block.
pub proof fn lemma_xor_sum_empty(blocks: Seq<Seq<u8>>, size: nat)
    ensures
        xor_sum(blocks, Set::empty(), size) == zero_block(size),
{
    assert forall|b: int| 0 <= b < size implies xor_byte(blocks, Set::empty(), blocks.len(), b)
        == 0 by {
        lemma_xor_byte_empty(blocks, blocks.len(), b);
    }
    assert(xor_sum(blocks, Set::empty(), size) =~= zero_block(size));
}

/// Adding an index to the set adds its block to the sum.
pub proof fn lemma_xor_sum_insert(blocks: Seq<Seq<u8>>, s: Set<usize>, size: nat, i: usize)
    requires
        i < blocks.len() <= usize::MAX + 1,
        !s.contains(i),
        blocks[i as int].len() == size,
    ensures
        xor_sum(blocks, s.insert(i), size) == xor_bytes(
            xor_sum(blocks, s, size),
            blocks[i as int],
        ),
{
    assert forall|b: int| 0 <= b < size implies xor_byte(blocks, s.insert(i), blocks.len(), b)
        == xor_byte(blocks, s, blocks.len(), b) ^ blocks[i as int][b] by {
        lemma_xor_byte_insert(blocks, s, blocks.len(), b, i);
    }
    assert(xor_sum(blocks, s.insert(i), size) =~= xor_bytes(
        xor_sum(blocks, s, size),
        blocks[i as int],
    ));
}

/// Taking an index out of the set cancels its block from the sum.
pub proof fn lemma_xor_sum_remove(blocks: Seq<Seq<u8>>, s: Set<usize>, size: nat, i: usize)
    requires
        i < blocks.len() <= usize::MAX + 1,
        s.contains(i),
        blocks[i as int].len() == size,
    ensures
        xor_sum(blocks, s.remove(i), size) == xor_bytes(
            xor_sum(blocks, s, size),
            blocks[i as int],
        ),
{
    assert(s.remove(i).insert(i) =~= s);
    assert forall|b: int| 0 <= b < size implies xor_byte(blocks, s.remove(i), blocks.len(), b)
        == xor_byte(blocks, s, blocks.len(), b) ^ blocks[i as int][b] by {
        lemma_xor_byte_insert(blocks, s.remove(i), blocks.len(), b, i);
        lemma_xor_algebra(
            xor_byte(blocks, s.remove(i), blocks.len(), b),
            blocks[i as int][b],
            0,
        );
    }
    assert(xor_sum(blocks, s.remove(i), size) =~= xor_bytes(
        xor_sum(blocks, s, size),
        blocks[i as int],
    ));
}

/// The sum over one index is its block.
pub proof fn lemma_xor_sum_singleton(blocks: Seq<Seq<u8>>, size: nat, i: usize)
    requires
        i < blocks.len() <= usize::MAX + 1,
        blocks[i as int].len() == size,
    ensures
        xor_sum(blocks, set![i], size) == blocks[i as int],
{
    assert forall|b: int| 0 <= b < size implies xor_byte(blocks, set![i], blocks.len(), b)
        == blocks[i as int][b] by {
        assert(set![i] =~= Set::<usize>::empty().insert(i));
        lemma_xor_byte_insert(blocks, Set::empty(), blocks.len(), b, i);
        lemma_xor_byte_empty(blocks, blocks.len(), b);
        lemma_xor_algebra(blocks[i as int][b], 0, 0);
    }
    assert(xor_sum(blocks, set![i], size) =~= blocks[i as int]);
}

} // verus!
