//! Robust Soliton degree sampling and deterministic neighbor generation.
use crate::stream::{
    chacha8_word, draws_end, draws_end_within, draws_suffice, first_distinct, next_word,
    sample_distinct, seed_rng, strictly_increasing, DRAW_LIMIT,
};
use vstd::prelude::*;

verus! {

/// The generator seed of encoding symbol `esi`.
pub open spec fn lt_seed(esi: u32) -> u64 {
    (esi as u64) ^ 0x9E3779B97F4A7C15u64
}

/// The 53-bit fraction that encoding symbol `esi` inverts the degree table at.
pub open spec fn lt_fraction(esi: u32) -> u64 {
    chacha8_word(lt_seed(esi), 0).0 >> 11
}

/// The first degree in `d..=k` whose threshold reaches `u`; 1 if there is none.
pub open spec fn degree_from(table: Seq<u64>, u: u64, d: nat, k: nat) -> nat
    decreases k + 1 - d,
{
    if d > k {
        1
    } else if u <= table[d as int] {
        d
    } else {
        degree_from(table, u, d + 1, k)
    }
}

/// Whether symbol `esi` carries one input by itself rather than a drawn mix.
pub open spec fn is_systematic(k: usize, esi: u32) -> bool {
    k <= 1 || esi < k
}

/// The number of inputs that symbol `esi` mixes.
pub open spec fn lt_degree(k: usize, table: Seq<u64>, esi: u32) -> nat {
    if is_systematic(k, esi) {
        1
    } else {
        degree_from(table, lt_fraction(esi), 1, k as nat)
    }
}

/// Whether drawing the neighbors of symbol `esi` comes to an end.
pub open spec fn lt_draws_end(k: usize, table: Seq<u64>, esi: u32) -> bool {
    is_systematic(k, esi) || draws_end(
        lt_seed(esi),
        chacha8_word(lt_seed(esi), 0).1,
        k,
        lt_degree(k, table, esi),
    )
}

/// Whether drawing the neighbors of symbol `esi` ends within `DRAW_LIMIT` draws.
pub open spec fn lt_draws_end_soon(k: usize, table: Seq<u64>, esi: u32) -> bool {
    is_systematic(k, esi) || draws_suffice(
        lt_seed(esi),
        chacha8_word(lt_seed(esi), 0).1,
        k,
        lt_degree(k, table, esi),
        DRAW_LIMIT as nat,
    )
}

/// The inputs, out of `k`, that symbol `esi` mixes.
pub open spec fn lt_neighbors(k: usize, table: Seq<u64>, esi: u32) -> Set<usize> {
    if k <= 1 {
        set![0usize]
    } else if esi < k {
        set![esi as usize]
    } else {
        first_distinct(
            lt_seed(esi),
            chacha8_word(lt_seed(esi), 0).1,
            k,
            lt_degree(k, table, esi),
        )
    }
}

/// A degree found in the table lies in `1..=k`.
proof fn lemma_degree_range(table: Seq<u64>, u: u64, d: nat, k: nat)
    requires
        1 <= d,
        1 <= k,
    ensures
        1 <= degree_from(table, u, d, k) <= k,
    decreases k + 1 - d,
{
    if d <= k && u > table[d as int] {
        lemma_degree_range(table, u, d + 1, k);
    }
}

/// Deterministic neighbor generator over K inputs.
///
/// The Robust Soliton cumulative distribution enters as integers: entry `d` of
/// the table is the largest 53-bit fraction that still selects a degree of at
/// most `d`.
#[derive(Debug, Clone)]
pub struct SolitonSampler {
    k: usize,
    thresholds: Vec<u64>,
}

impl SolitonSampler {
    /// The number of inputs.
    pub closed spec fn inputs(&self) -> usize {
        self.k
    }

    /// The degree table.
    pub closed spec fn table(&self) -> Seq<u64> {
        self.thresholds@
    }

    /// Whether the degree table has an entry for each degree.
    pub open spec fn wf(&self) -> bool {
        self.inputs() > 1 ==> self.table().len() == self.inputs() + 1
    }

    /// Constructs a sampler for K inputs from its degree table.
    pub fn new(k: usize, thresholds: Vec<u64>) -> (sampler: Self)
        requires
            k > 1 ==> thresholds@.len() == k + 1,
        ensures
            sampler.wf(),
            sampler.inputs() == k,
            sampler.table() == thresholds@,
    {
        SolitonSampler { k, thresholds }
    }

    /// The degree that the 53-bit fraction `u` selects.
    fn invert(&self, u: u64) -> (degree: usize)
        requires
            self.wf(),
            self.inputs() > 1,
        ensures
            degree == degree_from(self.table(), u, 1, self.inputs() as nat),
            1 <= degree <= self.inputs(),
    {
        let entries: usize = self.thresholds.len();
        let mut d: usize = 1;
        proof {
            lemma_degree_range(self.table(), u, 1, self.inputs() as nat);
        }
        while d <= self.k
            invariant
                self.wf(),
                self.k > 1,
                1 <= d <= self.k + 1,
                self.k + 1 == self.thresholds@.len() == entries,
                degree_from(self.table(), u, 1, self.k as nat) == degree_from(
                    self.table(),
                    u,
                    d as nat,
                    self.k as nat,
                ),
            decreases self.k + 1 - d,
        {
            if u <= self.thresholds[d] {
                return d;
            }
            d = d + 1;
        }
        1
    }

    /// Deterministically samples degree and neighbors for a given Encoding
    /// Symbol ID (ESI); the neighbors come in increasing order.
    pub fn get_neighbors(&self, esi: u32) -> (r: (usize, Vec<usize>))
        requires
            self.wf(),
            lt_draws_end(self.inputs(), self.table(), esi),
        ensures
            r.0 == lt_degree(self.inputs(), self.table(), esi),
            r.1@.len() == r.0,
            strictly_increasing(r.1@),
            r.1@.to_set() == lt_neighbors(self.inputs(), self.table(), esi),
            self.inputs() > 0 ==> forall|p: int|
                0 <= p < r.1@.len() ==> #[trigger] r.1@[p] < self.inputs(),
    {
        if self.k <= 1 {
            let only: Vec<usize> = vec![0];
            proof {
                assert(only@[0] == 0);
                assert(only@.to_set() =~= set![0usize]);
            }
            return (1, only);
        }
        if (esi as u64) < self.k as u64 {
            let only: Vec<usize> = vec![esi as usize];
            proof {
                assert(only@[0] == esi as usize);
                assert(only@.to_set() =~= set![esi as usize]);
            }
            return (1, only);
        }
        let mut rng = seed_rng((esi as u64) ^ 0x9E3779B97F4A7C15u64);
        let u: u64 = next_word(&mut rng) >> 11;
        let degree: usize = self.invert(u);
        let neighbors = sample_distinct(&mut rng, self.k, degree);
        (degree, neighbors)
    }

    /// Whether the neighbors of symbol `esi` are found within `DRAW_LIMIT`
    /// draws.
    pub fn neighbors_found(&self, esi: u32) -> (found: bool)
        requires
            self.wf(),
        ensures
            found <==> lt_draws_end_soon(self.inputs(), self.table(), esi),
            found ==> lt_draws_end(self.inputs(), self.table(), esi),
    {
        if self.k <= 1 || (esi as u64) < self.k as u64 {
            return true;
        }
        let mut rng = seed_rng((esi as u64) ^ 0x9E3779B97F4A7C15u64);
        let u: u64 = next_word(&mut rng) >> 11;
        let degree: usize = self.invert(u);
        draws_end_within(&mut rng, self.k, degree, DRAW_LIMIT)
    }

    /// Like `get_neighbors`, for any symbol: `None` when `DRAW_LIMIT` draws do
    /// not yield its neighbors.
    pub fn try_get_neighbors(&self, esi: u32) -> (r: Option<(usize, Vec<usize>)>)
        requires
            self.wf(),
        ensures
            r is Some <==> lt_draws_end_soon(self.inputs(), self.table(), esi),
            r matches Some(dn) ==> {
                &&& dn.0 == lt_degree(self.inputs(), self.table(), esi)
                &&& dn.1@.len() == dn.0
                &&& strictly_increasing(dn.1@)
                &&& dn.1@.to_set() == lt_neighbors(self.inputs(), self.table(), esi)
            },
    {
        if self.neighbors_found(esi) {
            Some(self.get_neighbors(esi))
        } else {
            None
        }
    }
}

} // verus!
