//! What the draws behind symbols and checks are.
//!
//! Every repair symbol and every HDPC check has a generator of its own, and
//! takes as many different inputs as it is due from the start of that
//! generator's draws.
use crate::encoder::{checks_end, checks_end_soon};
use crate::precode::{
    choose_count, hdpc_count, hdpc_draws_end, hdpc_draws_end_soon, hdpc_inputs, hdpc_seed,
    ldpc_count, ldpc_neighbors, lemma_choose_beyond, lemma_least_middle,
    middle_reaches, total_inputs,
};
use crate::soliton::{
    degree_from, lt_degree, lt_draws_end, lt_draws_end_soon, lt_fraction, lt_neighbors, lt_seed,
};
use crate::stream::{
    chacha8_below, chacha8_word, draw_at, draw_pos, drawn, draws_suffice,
    lemma_draws_hold, lemma_drawn_grows, lemma_first_distinct,
};
use vstd::arithmetic::div_mod::{lemma_fundamental_div_mod, lemma_fundamental_div_mod_converse};
use vstd::prelude::*;

verus! {

/// Different symbols draw from different generators, and the seed of a symbol is
/// its ESI with fixed bits flipped.
pub proof fn law_symbols_have_their_own_generators(a: u32, b: u32)
    ensures
        lt_seed(a) == (a as u64) ^ 0x9E3779B97F4A7C15u64,
        lt_seed(a) ^ lt_seed(b) == (a as u64) ^ (b as u64),
        a != b ==> lt_seed(a) != lt_seed(b),
{
    let x = a as u64;
    let y = b as u64;
    assert((x ^ 0x9E3779B97F4A7C15u64) ^ (y ^ 0x9E3779B97F4A7C15u64) == x ^ y) by (bit_vector);
    assert(x ^ 0x9E3779B97F4A7C15u64 == y ^ 0x9E3779B97F4A7C15u64 ==> x == y) by (bit_vector);
}

/// The HDPC checks over the same inputs draw from different generators. The
/// seed of a check is its index with bits flipped that depend on the number of
/// inputs alone.
pub proof fn law_checks_have_their_own_generators(l: usize, i: usize, j: usize)
    ensures
        hdpc_seed(l, i) == (i as u64) ^ 0x9E3779B97F4A7C15u64 ^ (((l * 0x85EBCA6B)
            % 0x1_0000_0000_0000_0000) as u64),
        hdpc_seed(l, i) ^ hdpc_seed(l, j) == (i as u64) ^ (j as u64),
        i != j ==> hdpc_seed(l, i) != hdpc_seed(l, j),
{
    let x = i as u64;
    let y = j as u64;
    let c = (l as u64).wrapping_mul(0x85EBCA6Bu64);
    assert((x ^ 0x9E3779B97F4A7C15u64 ^ c) ^ (y ^ 0x9E3779B97F4A7C15u64 ^ c) == x ^ y)
        by (bit_vector);
    assert(x ^ 0x9E3779B97F4A7C15u64 ^ c == y ^ 0x9E3779B97F4A7C15u64 ^ c ==> x == y)
        by (bit_vector);
}

/// The degree of a repair symbol inverts the degree table at the upper 53 bits of
/// the first word that its generator yields: it is the first degree whose entry
/// reaches them, or 1 if none does.
pub proof fn law_degree_inverts_the_table(k: usize, table: Seq<u64>, esi: u32)
    requires
        1 < k <= esi,
    ensures
        ({
            let u = chacha8_word((esi as u64) ^ 0x9E3779B97F4A7C15u64, 0).0 / 2048;
            let d = lt_degree(k, table, esi);
            &&& u < 0x20_0000_0000_0000
            &&& 1 <= d <= k
            &&& (u <= table[d as int] && forall|e: int|
                1 <= e < d ==> #[trigger] table[e] < u) || (d == 1 && forall|e: int|
                1 <= e <= k ==> #[trigger] table[e] < u)
        }),
{
    let w = chacha8_word(lt_seed(esi), 0).0;
    assert(w >> 11 == w / 2048 && w / 2048 < 0x20_0000_0000_0000) by (bit_vector);
    lemma_degree_from(table, lt_fraction(esi), 1, k as nat);
}

/// The first degree from `d` on whose entry reaches `u`.
proof fn lemma_degree_from(table: Seq<u64>, u: u64, d: nat, k: nat)
    requires
        1 <= d <= k + 1,
        k >= 1,
    ensures
        ({
            let found = degree_from(table, u, d, k);
            &&& 1 <= found <= k
            &&& (d <= found && u <= table[found as int] && forall|e: int|
                d <= e < found ==> #[trigger] table[e] < u) || (found == 1 && forall|e: int|
                d <= e <= k ==> #[trigger] table[e] < u)
        }),
    decreases k + 1 - d,
{
    if d <= k && u > table[d as int] {
        lemma_degree_from(table, u, d + 1, k);
    }
}

/// Whether each place in the keystream is where the draw at the place before
/// leaves the generator, from `pos` on.
pub open spec fn is_draw_run(seed: u64, pos: nat, bound: usize, places: Seq<nat>) -> bool {
    &&& places.len() > 0
    &&& places[0] == pos
    &&& forall|j: int|
        0 < j < places.len() ==> #[trigger] places[j] == chacha8_below(
            seed,
            places[j - 1],
            bound,
            usize::BITS,
        ).1
}

/// The value that is drawn at a place; a draw lies below its bound.
pub open spec fn drawn_from(seed: u64, place: nat, bound: usize) -> usize {
    let draw = chacha8_below(seed, place, bound, usize::BITS).0;
    if draw < bound {
        draw
    } else {
        0
    }
}

/// Whether a set is what the draws at all places but the last yield.
pub open spec fn is_drawn(s: Set<usize>, seed: u64, bound: usize, places: Seq<nat>) -> bool {
    forall|i: usize| #[trigger]
        s.contains(i) <==> exists|j: int|
            0 <= j < places.len() - 1 && #[trigger] drawn_from(seed, places[j], bound) == i
}

/// Draws, written out place by place.
proof fn lemma_draws(seed: u64, pos: nat, bound: usize, n: nat) -> (places: Seq<nat>)
    ensures
        places.len() == n + 1,
        is_draw_run(seed, pos, bound, places),
        places[n as int] == draw_pos(seed, pos, bound, n),
        is_drawn(drawn(seed, pos, bound, n), seed, bound, places),
    decreases n,
{
    if n == 0 {
        seq![pos]
    } else {
        let m = (n - 1) as nat;
        let before = lemma_draws(seed, pos, bound, m);
        let places = before.push(draw_pos(seed, pos, bound, n));
        let s = drawn(seed, pos, bound, n);
        let t = drawn(seed, pos, bound, m);
        let last = drawn_from(seed, places[m as int], bound);
        assert(draw_at(seed, pos, bound, m) == last);
        assert forall|i: usize| #[trigger] s.contains(i) <==> exists|j: int|
            0 <= j < places.len() - 1 && #[trigger] drawn_from(seed, places[j], bound) == i by {
            if t.contains(i) {
                let j = choose|j: int|
                    0 <= j < before.len() - 1 && #[trigger] drawn_from(seed, before[j], bound) == i;
                assert(drawn_from(seed, places[j], bound) == i);
            }
            if exists|j: int|
                0 <= j < places.len() - 1 && #[trigger] drawn_from(seed, places[j], bound) == i {
                let j = choose|j: int|
                    0 <= j < places.len() - 1 && #[trigger] drawn_from(seed, places[j], bound) == i;
                if j < m {
                    assert(drawn_from(seed, before[j], bound) == i);
                    assert(t.contains(i));
                }
            }
        }
        places
    }
}

/// A repair symbol mixes the different values among the first draws of its own
/// generator, behind the word that chose its degree, and exactly as many as its
/// degree.
pub proof fn law_repair_symbol_mixes_its_draws(k: usize, table: Seq<u64>, esi: u32) -> (places: Seq<
    nat,
>)
    requires
        1 < k <= esi,
        lt_draws_end(k, table, esi),
    ensures
        ({
            let seed = (esi as u64) ^ 0x9E3779B97F4A7C15u64;
            &&& is_draw_run(seed, chacha8_word(seed, 0).1, k, places)
            &&& is_drawn(lt_neighbors(k, table, esi), seed, k, places)
            &&& lt_neighbors(k, table, esi).len() == lt_degree(k, table, esi)
        }),
{
    let seed = lt_seed(esi);
    let pos = chacha8_word(seed, 0).1;
    let target = lt_degree(k, table, esi);
    let n = choose|n: nat| draws_suffice(seed, pos, k, target, n);
    let m = lemma_draws_hold(seed, pos, k, target, n);
    lemma_first_distinct(seed, pos, k, target, m);
    lemma_draws(seed, pos, k, m)
}

/// An HDPC check covers the different values among the first draws of its own
/// generator, and just more than half of the inputs.
pub proof fn law_hdpc_check_covers_its_draws(l: usize, i: usize) -> (places: Seq<nat>)
    requires
        hdpc_draws_end(l, i),
    ensures
        ({
            let seed = (i as u64) ^ 0x9E3779B97F4A7C15u64 ^ (((l * 0x85EBCA6B)
                % 0x1_0000_0000_0000_0000) as u64);
            &&& is_draw_run(seed, 0, l, places)
            &&& is_drawn(hdpc_inputs(l, i), seed, l, places)
            &&& l < 2 * hdpc_inputs(l, i).len() <= l + 2
        }),
{
    let seed = hdpc_seed(l, i);
    let target = (l / 2 + 1) as nat;
    let n = choose|n: nat| draws_suffice(seed, 0, l, target, n);
    let m = lemma_draws_hold(seed, 0, l, target, n);
    lemma_first_distinct(seed, 0, l, target, m);
    lemma_draws(seed, 0, l, m)
}

/// In the systematic phase a symbol is one input, that of its own number; and of a
/// single input every symbol is a copy.
pub proof fn law_systematic_symbol_is_one_input(k: usize, table: Seq<u64>, esi: u32, i: usize)
    requires
        k <= 1 || esi < k,
    ensures
        lt_degree(k, table, esi) == 1,
        k > 1 ==> (lt_neighbors(k, table, esi).contains(i) <==> i == esi),
        k <= 1 ==> (lt_neighbors(k, table, esi).contains(i) <==> i == 0),
        lt_draws_end(k, table, esi),
        lt_draws_end_soon(k, table, esi),
{
}

/// Drawing is given up only after 2^64 - 1 draws: a symbol or a check that has
/// its inputs within that many is found.
pub proof fn law_drawing_is_not_given_up_early(
    k: usize,
    table: Seq<u64>,
    esi: u32,
    l: usize,
    i: usize,
    n: nat,
)
    requires
        n <= 0xFFFF_FFFF_FFFF_FFFF,
    ensures
        1 < k <= esi && drawn(
            (esi as u64) ^ 0x9E3779B97F4A7C15u64,
            chacha8_word((esi as u64) ^ 0x9E3779B97F4A7C15u64, 0).1,
            k,
            n,
        ).len() >= lt_degree(k, table, esi) ==> lt_draws_end_soon(k, table, esi) && lt_draws_end(
            k,
            table,
            esi,
        ),
        2 * drawn(hdpc_seed(l, i), 0, l, n).len() > l ==> hdpc_draws_end_soon(l, i)
            && hdpc_draws_end(l, i),
{
    let seed = lt_seed(esi);
    let pos = chacha8_word(seed, 0).1;
    lemma_drawn_grows(seed, pos, k, n, 0xFFFF_FFFF_FFFF_FFFF);
    lemma_drawn_grows(hdpc_seed(l, i), 0, l, n, 0xFFFF_FFFF_FFFF_FFFF);
    if 1 < k <= esi && drawn(seed, pos, k, n).len() >= lt_degree(k, table, esi) {
        assert(draws_suffice(seed, pos, k, lt_degree(k, table, esi), n));
    }
    if 2 * drawn(hdpc_seed(l, i), 0, l, n).len() > l {
        assert(draws_suffice(hdpc_seed(l, i), 0, l, (l / 2 + 1) as nat, n));
    }
}

/// A payload can be precoded exactly if the inputs of every single one of its HDPC
/// checks are found.
pub proof fn law_all_checks_must_be_found(k: nat, i: usize)
    ensures
        checks_end_soon(k) && i < hdpc_count(k) ==> hdpc_draws_end_soon(
            (k + ldpc_count(k)) as usize,
            i,
        ),
        !checks_end_soon(k) ==> exists|j: usize|
            j < hdpc_count(k) && !#[trigger] hdpc_draws_end_soon((k + ldpc_count(k)) as usize, j),
        checks_end(k) && i < hdpc_count(k) ==> hdpc_draws_end((k + ldpc_count(k)) as usize, i),
        !checks_end(k) ==> exists|j: usize|
            j < hdpc_count(k) && !#[trigger] hdpc_draws_end((k + ldpc_count(k)) as usize, j),
        checks_end_soon(k) ==> checks_end(k),
{
    if checks_end_soon(k) {
        assert forall|j: usize| j < hdpc_count(k) implies #[trigger] hdpc_draws_end(
            (k + ldpc_count(k)) as usize,
            j,
        ) by {
            assert(hdpc_draws_end_soon((k + ldpc_count(k)) as usize, j));
        }
    }
}

/// There are two LDPC checks for up to two source symbols, and otherwise ten and
/// one more for each full hundred of source symbols.
pub proof fn law_ldpc_count(k: nat)
    ensures
        k <= 2 ==> ldpc_count(k) == 2,
        k > 2 ==> 100 * (ldpc_count(k) - 10) <= k < 100 * (ldpc_count(k) - 9),
{
}

/// LDPC check `i` covers every source symbol that leaves the remainder `i` when
/// divided by the number of checks, the source symbols `i` and `i + 1`, counted
/// round, and no other; so every source symbol is in the check of its remainder.
pub proof fn law_ldpc_checks_cover(k: nat, s: nat, i: nat, j: usize)
    requires
        k > 0,
        s > 0,
    ensures
        ldpc_neighbors(k, s, i).contains(j) <==> j < k && ((j >= i && j as nat % s == i % s) || j
            == i % k || j == (i + 1) % k),
        i < s ==> (ldpc_neighbors(k, s, i).contains(j) <==> j < k && (j as nat % s == i || j == i
            % k || j == (i + 1) % k)),
        j < k ==> ldpc_neighbors(k, s, j as nat % s).contains(j),
{
    if i < s {
        lemma_remainder(j as int, i as int, s as int);
    }
    if j >= i {
        vstd::arithmetic::div_mod::lemma_mod_equivalence(j as int, i as int, s as int);
    }
    let r = j as int % s as int;
    lemma_fundamental_div_mod(j as int, s as int);
    assert(r <= j) by (nonlinear_arith)
        requires
            j as int == s as int * (j as int / s as int) + r,
            s > 0,
            j >= 0,
    ;
    lemma_remainder(j as int, r, s as int);
}

/// Numbers that differ by a multiple have the same remainder.
proof fn lemma_remainder(j: int, i: int, s: int)
    requires
        0 <= i < s,
        0 <= j,
    ensures
        j % s == i <==> i <= j && (j - i) % s == 0,
{
    if j % s == i {
        lemma_fundamental_div_mod(j, s);
        assert(j - i == (j / s) * s + 0) by (nonlinear_arith)
            requires
                j == s * (j / s) + i,
        ;
        lemma_fundamental_div_mod_converse(j - i, s, j / s, 0);
        assert(j / s >= 0) by (nonlinear_arith)
            requires
                j >= 0,
                s > 0,
        ;
        assert((j / s) * s >= 0) by (nonlinear_arith)
            requires
                j / s >= 0,
                s > 0,
        ;
    }
    if i <= j && (j - i) % s == 0 {
        lemma_fundamental_div_mod(j - i, s);
        let q = (j - i) / s;
        assert(j == q * s + i) by (nonlinear_arith)
            requires
                j - i == s * q,
        ;
        lemma_fundamental_div_mod_converse(j, s, q, i);
    }
}

/// There are as few HDPC checks as give a middle binomial coefficient that
/// reaches the number of source symbols and LDPC checks, and at least one.
pub proof fn law_hdpc_count(k: nat, g: nat)
    requires
        k + ldpc_count(k) <= u64::MAX,
    ensures
        hdpc_count(k) >= 1,
        choose_count(hdpc_count(k), hdpc_count(k) / 2) >= k + ldpc_count(k),
        1 <= g < hdpc_count(k) ==> choose_count(g, g / 2) < k + ldpc_count(k),
        total_inputs(k) == k + ldpc_count(k) + hdpc_count(k),
{
    lemma_least_middle(k + ldpc_count(k));
    assert(1 <= g < hdpc_count(k) ==> !middle_reaches(g, k + ldpc_count(k)));
}

/// Binomial coefficients follow Pascal's rule.
pub proof fn law_binomials_follow_pascal(n: nat, k: nat)
    ensures
        choose_count(n, 0) == 1,
        k > n ==> choose_count(n, k) == 0,
        choose_count(n + 1, k + 1) == choose_count(n, k) + choose_count(n, k + 1),
{
    if k > n {
        lemma_choose_beyond(n, k);
    }
}

} // verus!
