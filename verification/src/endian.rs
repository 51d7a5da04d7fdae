//! Little-endian numbers.
use vstd::prelude::*;

verus! {

/// `256^n`.
pub open spec fn pow256(n: nat) -> nat
    decreases n,
{
    if n == 0 {
        1
    } else {
        256 * pow256((n - 1) as nat)
    }
}

/// The lowest `n` bytes of `v`, lowest first.
pub open spec fn le_bytes(v: nat, n: nat) -> Seq<u8>
    decreases n,
{
    if n == 0 {
        Seq::empty()
    } else {
        seq![(v % 256) as u8] + le_bytes(v / 256, (n - 1) as nat)
    }
}

/// The number whose bytes, lowest first, are `s`.
pub open spec fn le_value(s: Seq<u8>) -> nat
    decreases s.len(),
{
    if s.len() == 0 {
        0
    } else {
        s[0] as nat + 256 * le_value(s.skip(1))
    }
}

/// A number has as many bytes as asked for.
pub proof fn lemma_le_len(v: nat, n: nat)
    ensures
        le_bytes(v, n).len() == n,
    decreases n,
{
    if n > 0 {
        lemma_le_len(v / 256, (n - 1) as nat);
    }
}

/// Reading back the bytes of a number that fits gives the number.
pub proof fn lemma_le_roundtrip(v: nat, n: nat)
    requires
        v < pow256(n),
    ensures
        le_value(le_bytes(v, n)) == v,
    decreases n,
{
    if n > 0 {
        lemma_le_len(v / 256, (n - 1) as nat);
        lemma_le_roundtrip(v / 256, (n - 1) as nat);
        assert(le_bytes(v, n).skip(1) =~= le_bytes(v / 256, (n - 1) as nat));
    }
}

/// A number of `n` bytes is below `256^n`.
pub proof fn lemma_le_bound(s: Seq<u8>)
    ensures
        le_value(s) < pow256(s.len()),
    decreases s.len(),
{
    if s.len() > 0 {
        lemma_le_bound(s.skip(1));
    }
}

/// The powers up to eight bytes.
pub proof fn lemma_pow256()
    ensures
        pow256(0) == 1,
        pow256(1) == 0x100,
        pow256(2) == 0x1_0000,
        pow256(3) == 0x100_0000,
        pow256(4) == 0x1_0000_0000,
        pow256(5) == 0x100_0000_0000,
        pow256(6) == 0x1_0000_0000_0000,
        pow256(7) == 0x100_0000_0000_0000,
        pow256(8) == 0x1_0000_0000_0000_0000,
{
    reveal_with_fuel(pow256, 9);
}

/// Appends the lowest `n` bytes of `v`, lowest first.
pub(crate) fn push_le(out: &mut Vec<u8>, v: u64, n: usize)
    ensures
        final(out)@ == old(out)@ + le_bytes(v as nat, n as nat),
{
    let ghost before = out@;
    let mut rest: u64 = v;
    let mut left: usize = n;
    assert(before + le_bytes(v as nat, n as nat) == out@ + le_bytes(rest as nat, left as nat));
    while left > 0
        invariant
            before + le_bytes(v as nat, n as nat) == out@ + le_bytes(rest as nat, left as nat),
        decreases left,
    {
        let low: u8 = (rest % 256) as u8;
        proof {
            let tail = le_bytes((rest / 256) as nat, (left - 1) as nat);
            assert(out@ + (seq![low] + tail) =~= out@.push(low) + tail);
        }
        out.push(low);
        rest = rest / 256;
        left = left - 1;
    }
    proof {
        assert(out@ + le_bytes(rest as nat, 0) =~= out@);
    }
}

/// The number in the `n` bytes from `at` on.
pub(crate) fn read_le(s: &[u8], at: usize, n: usize) -> (v: u64)
    requires
        n <= 8,
        at + n <= s@.len(),
    ensures
        v == le_value(s@.subrange(at as int, at + n)),
        v < pow256(n as nat),
{
    let mut v: u64 = 0;
    let mut i: usize = n;
    let len: usize = s.len();
    proof {
        lemma_pow256();
    }
    while i > 0
        invariant
            i <= n <= 8,
            at + n <= s@.len() == len,
            v == le_value(s@.subrange(at + i, at + n)),
            v < pow256((n - i) as nat),
        decreases i,
    {
        proof {
            lemma_pow256();
            let longer = s@.subrange(at + i - 1, at + n);
            assert(longer.skip(1) =~= s@.subrange(at + i, at + n));
            lemma_le_bound(longer);
        }
        i = i - 1;
        v = v * 256 + s[at + i] as u64;
    }
    v
}

} // verus!
