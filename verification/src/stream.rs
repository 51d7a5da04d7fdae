//! Deterministic pseudo-random draws. Encoder and decoder agree on them where
//! `usize` has the same width.
use rand::{Rng, RngCore, SeedableRng};
use rand_chacha::ChaCha8Rng;
use vstd::prelude::*;

verus! {

/// Draws after which a search for distinct values is given up.
pub const DRAW_LIMIT: u64 = 0xFFFF_FFFF_FFFF_FFFF;

/// `rand_chacha::ChaCha8Rng`, the generator behind every draw.
#[verifier::external_type_specification]
#[verifier::external_body]
pub struct ExChaCha8Rng(ChaCha8Rng);

/// The 64-bit seed that a generator was made from.
pub uninterp spec fn rng_seed(rng: ChaCha8Rng) -> u64;

/// The place in its keystream that a generator has reached.
pub uninterp spec fn rng_pos(rng: ChaCha8Rng) -> nat;

/// The next 64-bit word of the generator seeded with `seed` and standing at
/// `pos`, and the place where it stands afterwards.
pub uninterp spec fn chacha8_word(seed: u64, pos: nat) -> (u64, nat);

/// The next uniform draw below `bound` of the generator seeded with `seed` and
/// standing at `pos`, and the place where it stands afterwards, where a `usize`
/// has `bits` bits.
pub uninterp spec fn chacha8_below(seed: u64, pos: nat, bound: usize, bits: u32) -> (usize, nat);

/// Calls `ChaCha8Rng::seed_from_u64`: a generator at the start of the keystream
/// that the seed determines.
#[verifier::external_body]
pub(crate) fn seed_rng(seed: u64) -> (rng: ChaCha8Rng)
    ensures
        rng_seed(rng) == seed,
        rng_pos(rng) == 0,
{
    ChaCha8Rng::seed_from_u64(seed)
}

/// Calls `ChaCha8Rng::next_u64`: the word and the new place are functions of
/// the seed and the place alone; the seed stays.
#[verifier::external_body]
pub(crate) fn next_word(rng: &mut ChaCha8Rng) -> (word: u64)
    ensures
        (word, rng_pos(*final(rng))) == chacha8_word(rng_seed(*old(rng)), rng_pos(*old(rng))),
        rng_seed(*final(rng)) == rng_seed(*old(rng)),
{
    rng.next_u64()
}

/// Calls `Rng::gen_range(0..bound)` on `usize`: the draw is below `bound`, and
/// the draw and the new place are functions of the seed, the place, the bound
/// and the width of `usize` alone, for words as wide as a `usize` are drawn from
/// the keystream; the seed stays. An empty range panics and is excluded.
#[verifier::external_body]
pub(crate) fn next_below(rng: &mut ChaCha8Rng, bound: usize) -> (draw: usize)
    requires
        bound > 0,
    ensures
        draw < bound,
        (draw, rng_pos(*final(rng))) == chacha8_below(
            rng_seed(*old(rng)),
            rng_pos(*old(rng)),
            bound,
            usize::BITS,
        ),
        rng_seed(*final(rng)) == rng_seed(*old(rng)),
{
    rng.gen_range(0..bound)
}

/// Where the generator stands after `n` draws below `bound` from `pos` on.
pub open spec fn draw_pos(seed: u64, pos: nat, bound: usize, n: nat) -> nat
    decreases n,
{
    if n == 0 {
        pos
    } else {
        chacha8_below(seed, draw_pos(seed, pos, bound, (n - 1) as nat), bound, usize::BITS).1
    }
}

/// The `n`-th draw below `bound` (counted from 0) from `pos` on. A draw lies
/// below its bound; 0 stands in for what no generator yields.
pub open spec fn draw_at(seed: u64, pos: nat, bound: usize, n: nat) -> usize {
    let draw = chacha8_below(seed, draw_pos(seed, pos, bound, n), bound, usize::BITS).0;
    if draw < bound {
        draw
    } else {
        0
    }
}

/// The distinct values among the first `n` draws below `bound`.
pub open spec fn drawn(seed: u64, pos: nat, bound: usize, n: nat) -> Set<usize>
    decreases n,
{
    if n == 0 {
        Set::empty()
    } else {
        drawn(seed, pos, bound, (n - 1) as nat).insert(
            draw_at(seed, pos, bound, (n - 1) as nat),
        )
    }
}

/// Whether `n` draws hold at least `target` distinct values.
pub open spec fn draws_suffice(seed: u64, pos: nat, bound: usize, target: nat, n: nat) -> bool {
    drawn(seed, pos, bound, n).len() >= target
}

/// Whether drawing ever yields `target` distinct values.
pub open spec fn draws_end(seed: u64, pos: nat, bound: usize, target: nat) -> bool {
    exists|n: nat| draws_suffice(seed, pos, bound, target, n)
}

/// Whether the first `n` draws are the shortest run with `target` distinct
/// values, up to repetitions at its end.
pub open spec fn draws_hold(seed: u64, pos: nat, bound: usize, target: nat, n: nat) -> bool {
    drawn(seed, pos, bound, n).len() == target
}

/// The first `target` distinct values that drawing yields.
pub open spec fn first_distinct(seed: u64, pos: nat, bound: usize, target: nat) -> Set<usize> {
    drawn(seed, pos, bound, choose|n: nat| draws_hold(seed, pos, bound, target, n))
}

/// Draws lie below their bound.
proof fn lemma_drawn_below(seed: u64, pos: nat, bound: usize, n: nat)
    requires
        bound > 0,
    ensures
        drawn(seed, pos, bound, n).finite(),
        forall|i: usize| drawn(seed, pos, bound, n).contains(i) ==> i < bound,
    decreases n,
{
    if n > 0 {
        lemma_drawn_below(seed, pos, bound, (n - 1) as nat);
    }
}

/// The first distinct draws are finitely many and lie below their bound.
pub proof fn lemma_first_distinct_below(seed: u64, pos: nat, bound: usize, target: nat)
    requires
        bound > 0,
    ensures
        first_distinct(seed, pos, bound, target).finite(),
        forall|i: usize| first_distinct(seed, pos, bound, target).contains(i) ==> i < bound,
{
    lemma_drawn_below(
        seed,
        pos,
        bound,
        choose|n: nat| draws_hold(seed, pos, bound, target, n),
    );
}

/// Later draws keep what earlier ones gave.
pub proof fn lemma_drawn_grows(seed: u64, pos: nat, bound: usize, m: nat, n: nat)
    requires
        m <= n,
    ensures
        drawn(seed, pos, bound, m).subset_of(drawn(seed, pos, bound, n)),
        drawn(seed, pos, bound, m).finite(),
        drawn(seed, pos, bound, n).finite(),
        drawn(seed, pos, bound, m).len() <= drawn(seed, pos, bound, n).len(),
    decreases n,
{
    if n == 0 {
    } else if m < n {
        lemma_drawn_grows(seed, pos, bound, m, (n - 1) as nat);
        vstd::set_lib::lemma_len_subset(
            drawn(seed, pos, bound, m),
            drawn(seed, pos, bound, n),
        );
    } else {
        lemma_drawn_grows(seed, pos, bound, (n - 1) as nat, (n - 1) as nat);
    }
}

/// Every run with `target` distinct values holds the same ones.
pub proof fn lemma_first_distinct(seed: u64, pos: nat, bound: usize, target: nat, n: nat)
    requires
        draws_hold(seed, pos, bound, target, n),
    ensures
        first_distinct(seed, pos, bound, target) == drawn(seed, pos, bound, n),
{
    let m = choose|m: nat| draws_hold(seed, pos, bound, target, m);
    assert(draws_hold(seed, pos, bound, target, m));
    if m <= n {
        lemma_drawn_grows(seed, pos, bound, m, n);
        vstd::set_lib::lemma_subset_equality(
            drawn(seed, pos, bound, m),
            drawn(seed, pos, bound, n),
        );
    } else {
        lemma_drawn_grows(seed, pos, bound, n, m);
        vstd::set_lib::lemma_subset_equality(
            drawn(seed, pos, bound, n),
            drawn(seed, pos, bound, m),
        );
    }
}

/// Drawing that comes to an end yields as many distinct values as wanted.
pub proof fn lemma_first_distinct_len(seed: u64, pos: nat, bound: usize, target: nat)
    requires
        draws_end(seed, pos, bound, target),
    ensures
        first_distinct(seed, pos, bound, target).len() == target,
{
    let n = choose|n: nat| draws_suffice(seed, pos, bound, target, n);
    let m = lemma_draws_hold(seed, pos, bound, target, n);
    lemma_first_distinct(seed, pos, bound, target, m);
}

/// The number of distinct draws grows by at most one, so it hits every number
/// on its way.
pub proof fn lemma_draws_hold(seed: u64, pos: nat, bound: usize, target: nat, n: nat) -> (m: nat)
    requires
        draws_suffice(seed, pos, bound, target, n),
    ensures
        draws_hold(seed, pos, bound, target, m),
    decreases n,
{
    if n == 0 {
        n
    } else {
        lemma_drawn_grows(seed, pos, bound, (n - 1) as nat, n);
        if draws_suffice(seed, pos, bound, target, (n - 1) as nat) {
            lemma_draws_hold(seed, pos, bound, target, (n - 1) as nat)
        } else {
            n
        }
    }
}

/// Whether each element is larger than the one before it.
pub open spec fn strictly_increasing(s: Seq<usize>) -> bool {
    forall|i: int, j: int| 0 <= i < j < s.len() ==> s[i] < s[j]
}

/// Draws values below `bound` until `target` distinct ones have come up and
/// returns them in increasing order.
pub(crate) fn sample_distinct(rng: &mut ChaCha8Rng, bound: usize, target: usize) -> (picked: Vec<
    usize,
>)
    requires
        bound > 0,
        draws_end(rng_seed(*old(rng)), rng_pos(*old(rng)), bound, target as nat),
    ensures
        strictly_increasing(picked@),
        picked@.to_set() == first_distinct(
            rng_seed(*old(rng)),
            rng_pos(*old(rng)),
            bound,
            target as nat,
        ),
        picked@.len() == target,
        forall|i: int| 0 <= i < picked@.len() ==> picked@[i] < bound,
{
    let ghost seed = rng_seed(*rng);
    let ghost pos = rng_pos(*rng);
    let ghost last = choose|n: nat| draws_suffice(seed, pos, bound, target as nat, n);
    let ghost mut n: nat = 0;
    let mut selected: Vec<bool> = vec![false; bound];
    let mut count: usize = 0;
    assert(drawn(seed, pos, bound, 0) =~= Set::<usize>::empty());
    while count < target
        invariant
            bound > 0,
            selected@.len() == bound,
            rng_seed(*rng) == seed,
            rng_pos(*rng) == draw_pos(seed, pos, bound, n),
            draws_suffice(seed, pos, bound, target as nat, last),
            forall|i: int|
                0 <= i < bound ==> (#[trigger] selected@[i] <==> drawn(seed, pos, bound, n).contains(
                    i as usize,
                )),
            forall|i: usize| drawn(seed, pos, bound, n).contains(i) ==> i < bound,
            drawn(seed, pos, bound, n).finite(),
            count == drawn(seed, pos, bound, n).len(),
            count <= target,
        decreases last - n,
    {
        proof {
            if last <= n {
                lemma_drawn_grows(seed, pos, bound, last, n);
            }
        }
        let idx: usize = next_below(rng, bound);
        assert(idx == draw_at(seed, pos, bound, n));
        assert(drawn(seed, pos, bound, n + 1) == drawn(seed, pos, bound, n).insert(idx));
        if !selected[idx] {
            selected.set(idx, true);
            count = count + 1;
        } else {
            assert(selected@[idx as int]);
            assert(drawn(seed, pos, bound, n + 1) =~= drawn(seed, pos, bound, n));
        }
        proof {
            n = n + 1;
        }
    }
    proof {
        lemma_first_distinct(seed, pos, bound, target as nat, n);
    }
    let picked = collect_selected(&selected);
    proof {
        let chosen = drawn(seed, pos, bound, n);
        assert forall|i: usize| picked@.to_set().contains(i) <==> chosen.contains(i) by {
            if chosen.contains(i) {
                assert(selected@[i as int]);
                assert(picked@.contains(i));
            }
            if picked@.contains(i) {
                let p = choose|p: int| 0 <= p < picked@.len() && picked@[p] == i;
                assert(selected@[picked@[p] as int]);
            }
        }
        assert(picked@.to_set() =~= chosen);
        assert(picked@.no_duplicates());
        picked@.unique_seq_to_set();
    }
    picked
}

/// The marked positions, in increasing order.
fn collect_selected(selected: &Vec<bool>) -> (picked: Vec<usize>)
    ensures
        strictly_increasing(picked@),
        forall|p: int|
            0 <= p < picked@.len() ==> #[trigger] picked@[p] < selected@.len()
                && selected@[picked@[p] as int],
        forall|i: usize|
            i < selected@.len() && #[trigger] selected@[i as int] ==> picked@.contains(i),
{
    let mut picked: Vec<usize> = Vec::new();
    let mut i: usize = 0;
    while i < selected.len()
        invariant
            i <= selected@.len(),
            strictly_increasing(picked@),
            forall|p: int|
                0 <= p < picked@.len() ==> #[trigger] picked@[p] < i
                    && selected@[picked@[p] as int],
            forall|q: usize| q < i && #[trigger] selected@[q as int] ==> picked@.contains(q),
        decreases selected@.len() - i,
    {
        if selected[i] {
            let ghost before = picked@;
            picked.push(i);
            proof {
                assert(picked@[before.len() as int] == i);
                assert forall|q: usize| q < i + 1 && #[trigger] selected@[q as int] implies
                    picked@.contains(q) by {
                    if q < i {
                        let p = choose|p: int| 0 <= p < before.len() && before[p] == q;
                        assert(picked@[p] == q);
                    }
                }
            }
        }
        i = i + 1;
    }
    picked
}

/// Whether at most `limit` draws below `bound` yield `target` distinct values.
pub(crate) fn draws_end_within(rng: &mut ChaCha8Rng, bound: usize, target: usize, limit: u64) -> (ends:
    bool)
    requires
        bound > 0,
    ensures
        ends <==> draws_suffice(
            rng_seed(*old(rng)),
            rng_pos(*old(rng)),
            bound,
            target as nat,
            limit as nat,
        ),
{
    let ghost seed = rng_seed(*rng);
    let ghost pos = rng_pos(*rng);
    let mut n: u64 = 0;
    let mut selected: Vec<bool> = vec![false; bound];
    let mut count: usize = 0;
    assert(drawn(seed, pos, bound, 0) =~= Set::<usize>::empty());
    while count < target && n < limit
        invariant
            bound > 0,
            n <= limit,
            selected@.len() == bound,
            rng_seed(*rng) == seed,
            rng_pos(*rng) == draw_pos(seed, pos, bound, n as nat),
            forall|i: int|
                0 <= i < bound ==> (#[trigger] selected@[i] <==> drawn(
                    seed,
                    pos,
                    bound,
                    n as nat,
                ).contains(i as usize)),
            drawn(seed, pos, bound, n as nat).finite(),
            count == drawn(seed, pos, bound, n as nat).len(),
            count <= target,
        decreases limit - n,
    {
        let idx: usize = next_below(rng, bound);
        assert(idx == draw_at(seed, pos, bound, n as nat));
        assert(drawn(seed, pos, bound, (n + 1) as nat) == drawn(seed, pos, bound, n as nat).insert(idx));
        if !selected[idx] {
            selected.set(idx, true);
            count = count + 1;
        } else {
            assert(selected@[idx as int]);
            assert(drawn(seed, pos, bound, (n + 1) as nat) =~= drawn(seed, pos, bound, n as nat));
        }
        n = n + 1;
    }
    proof {
        lemma_drawn_grows(seed, pos, bound, n as nat, limit as nat);
    }
    count >= target
}

} // verus!
