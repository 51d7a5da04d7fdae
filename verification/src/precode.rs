//! LDPC and HDPC precoding layers.
//!
//! S LDPC check symbols are computed from the K source symbols, and H HDPC
//! check symbols from the K + S symbols so far. The checks let decoding chain
//! through the payload with far fewer fountain symbols than a plain LT code
//! would need.
use crate::blocks::{
    all_sized, block_views, lemma_block_views_push, lemma_xor_byte_agree, lemma_xor_sum_empty,
    lemma_xor_sum_insert, xor_byte, xor_sum, zero_block,
};
use crate::simd::xor_inplace;
use crate::stream::{
    draws_end, draws_end_within, draws_suffice, first_distinct, sample_distinct, seed_rng,
    strictly_increasing, DRAW_LIMIT,
};
use vstd::arithmetic::power2::{
    lemma2_to64, lemma_pow2_adds, lemma_pow2_pos, lemma_pow2_unfold, pow2,
};
use vstd::prelude::*;
use vstd::slice::slice_to_vec;

verus! {

/// Number of LDPC precode symbols for `k` source symbols.
pub open spec fn ldpc_count(k: nat) -> nat {
    if k <= 2 {
        2
    } else {
        k / 100 + 10
    }
}

/// Number of LDPC precode symbols for K source symbols.
pub fn s_for(k: usize) -> (s: usize)
    ensures
        s == ldpc_count(k as nat),
{
    if k <= 2 {
        return 2;
    }
    k / 100 + 10
}

/// The number of ways to choose `k` out of `n` things.
pub open spec fn choose_count(n: nat, k: nat) -> nat
    decreases n,
{
    if k == 0 {
        1
    } else if n == 0 {
        0
    } else {
        choose_count((n - 1) as nat, (k - 1) as nat) + choose_count((n - 1) as nat, k)
    }
}

/// The smaller of two numbers.
pub open spec fn min_nat(a: nat, b: nat) -> nat {
    if a <= b {
        a
    } else {
        b
    }
}

/// Whether the products on the way to C(n, k) fit into 128 bits.
pub open spec fn binomial_fits(n: nat, k: nat) -> bool {
    forall|i: nat|
        i < min_nat(k, (n - k) as nat) ==> #[trigger] choose_count(n, i) * (n - i) <= u128::MAX
}

/// Nothing can be chosen beyond all `n` things.
pub proof fn lemma_choose_beyond(n: nat, k: nat)
    requires
        k > n,
    ensures
        choose_count(n, k) == 0,
    decreases n,
{
    if n > 0 {
        lemma_choose_beyond((n - 1) as nat, (k - 1) as nat);
        lemma_choose_beyond((n - 1) as nat, k);
    }
}

/// C(n, i + 1) * (i + 1) = C(n, i) * (n - i).
proof fn lemma_choose_next(n: nat, i: nat)
    requires
        i <= n,
    ensures
        choose_count(n, i + 1) * (i + 1) == choose_count(n, i) * (n - i),
    decreases n,
{
    if i == n {
        lemma_choose_beyond(n, i + 1);
        assert(choose_count(n, i + 1) * (i + 1) == 0) by (nonlinear_arith)
            requires
                choose_count(n, i + 1) == 0,
        ;
        assert(choose_count(n, i) * (n - i) == 0) by (nonlinear_arith)
            requires
                n - i == 0,
        ;
    } else {
        let m = (n - 1) as nat;
        lemma_choose_next(m, i);
        let a = choose_count(m, i) as int;
        let b = choose_count(m, i + 1) as int;
        let nn = n as int;
        let ii = i as int;
        assert((a + b) * (ii + 1) == a * nn) by (nonlinear_arith)
            requires
                b * (ii + 1) == a * (nn - 1 - ii),
        ;
        if i == 0 {
            assert(choose_count(n, 0) == 1 && choose_count(m, 0) == 1);
        } else {
            lemma_choose_next(m, (i - 1) as nat);
            let c = choose_count(m, (i - 1) as nat) as int;
            assert(a * ii == c * (nn - ii));
            assert((c + a) * (nn - ii) == a * nn) by (nonlinear_arith)
                requires
                    a * ii == c * (nn - ii),
            ;
        }
    }
}

/// C(n, k) = C(n, n - k).
proof fn lemma_choose_symmetric(n: nat, k: nat)
    requires
        k <= n,
    ensures
        choose_count(n, k) == choose_count(n, (n - k) as nat),
    decreases n,
{
    if n == 0 {
    } else if k == 0 {
        lemma_choose_symmetric((n - 1) as nat, 0);
        lemma_choose_beyond((n - 1) as nat, n);
    } else if k == n {
        lemma_choose_symmetric((n - 1) as nat, 0);
        lemma_choose_beyond((n - 1) as nat, n);
    } else {
        lemma_choose_symmetric((n - 1) as nat, (k - 1) as nat);
        lemma_choose_symmetric((n - 1) as nat, k);
    }
}

/// C(n, k) <= 2^n.
proof fn lemma_choose_bound(n: nat, k: nat)
    ensures
        choose_count(n, k) <= pow2(n),
    decreases n,
{
    lemma_pow2_pos(n);
    if k > 0 && n > 0 {
        lemma_choose_bound((n - 1) as nat, (k - 1) as nat);
        lemma_choose_bound((n - 1) as nat, k);
        lemma_pow2_unfold(n);
    }
}

/// 3^n.
spec fn pow3(n: nat) -> nat
    decreases n,
{
    if n == 0 {
        1
    } else {
        3 * pow3((n - 1) as nat)
    }
}

/// The middle binomial coefficients grow at least threefold.
proof fn lemma_central_growth(m: nat)
    requires
        m >= 1,
    ensures
        choose_count(2 * m, m) >= 2 * pow3((m - 1) as nat),
    decreases m,
{
    if m == 1 {
        reveal_with_fuel(choose_count, 4);
        assert(choose_count(2, 1) == 2);
        assert(pow3(0) == 1);
    } else {
        let p = (m - 1) as nat;
        lemma_central_growth(p);
        let n = 2 * p;
        let c = choose_count(n, p) as int;
        let below = choose_count(n, (p - 1) as nat) as int;
        let above = choose_count(n, m) as int;
        lemma_choose_next(n, (p - 1) as nat);
        lemma_choose_next(n, p);
        let pp = p as int;
        assert(c * pp == below * (pp + 1));
        assert(above * (pp + 1) == c * pp);
        assert(2 * below >= c && 2 * above >= c) by (nonlinear_arith)
            requires
                pp >= 1,
                c >= 0,
                below >= 0,
                above >= 0,
                c * pp == below * (pp + 1),
                above * (pp + 1) == c * pp,
        ;
        assert(choose_count(n + 1, p) == below + c);
        assert(choose_count(n + 1, m) == c + above);
        assert(2 * m == n + 2);
        assert(choose_count(n + 2, m) == choose_count(n + 1, p) + choose_count(n + 1, m));
        assert(pow3(p) == 3 * pow3((p - 1) as nat));
    }
}

/// C(82, 41) exceeds every machine word.
proof fn lemma_central_large()
    ensures
        choose_count(82, 41) > u64::MAX,
{
    lemma_central_growth(41);
    reveal_with_fuel(pow3, 41);
    assert(2 * pow3(40) > u64::MAX);
}

/// Up to n = 82 the products on the way to C(n, k) fit into 128 bits.
proof fn lemma_binomial_fits(n: nat, k: nat)
    requires
        n <= 82,
        k <= n,
    ensures
        binomial_fits(n, k),
{
    lemma2_to64();
    lemma_pow2_adds(64, 18);
    assert forall|i: nat| i < min_nat(k, (n - k) as nat) implies #[trigger] choose_count(n, i) * (n
        - i) <= u128::MAX by {
        lemma_choose_bound(n, i);
        if n < 82 {
            vstd::arithmetic::power2::lemma_pow2_strictly_increases(n, 82);
        }
        let c = choose_count(n, i) as int;
        let p = pow2(82) as int;
        assert(p == 0x10000000000000000 * 0x40000);
        assert(c * (n - i) <= 0x10000000000000000 * 0x40000 * 82) by (nonlinear_arith)
            requires
                0 <= c <= 0x10000000000000000 * 0x40000,
                0 <= n - i <= 82,
        ;
    }
}

/// C(n, k), computed in 128 bits.
pub fn binomial(n: usize, k: usize) -> (c: u128)
    requires
        k <= n,
        binomial_fits(n as nat, k as nat),
    ensures
        c == choose_count(n as nat, k as nat),
{
    let ghost asked = k;
    let k: usize = if k <= n - k {
        k
    } else {
        n - k
    };
    let mut c: u128 = 1;
    let mut i: usize = 0;
    while i < k
        invariant
            i <= k <= n,
            k == min_nat(asked as nat, (n - asked) as nat),
            asked <= n,
            binomial_fits(n as nat, asked as nat),
            c == choose_count(n as nat, i as nat),
        decreases k - i,
    {
        proof {
            lemma_choose_next(n as nat, i as nat);
            assert(choose_count(n as nat, i as nat) * (n - i) <= u128::MAX);
            let next = choose_count(n as nat, (i + 1) as nat) as int;
            let product = c as int * (n - i);
            let d = (i + 1) as int;
            assert(product == next * d);
            assert(product / d == next) by (nonlinear_arith)
                requires
                    product == next * d,
                    d > 0,
            ;
        }
        c = c * (n - i) as u128 / (i + 1) as u128;
        i = i + 1;
    }
    proof {
        lemma_choose_symmetric(n as nat, asked as nat);
    }
    c
}

/// Whether C(h, floor(h / 2)) reaches `l`.
pub open spec fn middle_reaches(h: nat, l: nat) -> bool {
    choose_count(h, h / 2) >= l
}

/// Whether `h` is the smallest positive number with C(h, floor(h / 2)) >= l.
pub open spec fn is_least_middle(h: nat, l: nat) -> bool {
    &&& h >= 1
    &&& middle_reaches(h, l)
    &&& forall|g: nat| 1 <= g < h ==> !middle_reaches(g, l)
}

/// Number of HDPC symbols for `k` source symbols: the smallest H >= 1 with
/// C(H, floor(H / 2)) >= K + S.
pub open spec fn hdpc_count(k: nat) -> nat {
    least_middle(k + ldpc_count(k))
}

/// The smallest H >= 1 with C(H, floor(H / 2)) >= l.
pub open spec fn least_middle(l: nat) -> nat {
    choose|h: nat| is_least_middle(h, l)
}

/// There is a smallest H >= 1 with C(H, floor(H / 2)) >= l.
pub proof fn lemma_least_middle(l: nat)
    requires
        l <= u64::MAX,
    ensures
        is_least_middle(least_middle(l), l),
{
    lemma_central_large();
    let h = lemma_least_from(1, l);
}

/// The search for the smallest H from `h` on.
proof fn lemma_least_from(h: nat, l: nat) -> (least: nat)
    requires
        1 <= h <= 82,
        middle_reaches(82, l),
        forall|g: nat| 1 <= g < h ==> !middle_reaches(g, l),
    ensures
        is_least_middle(least, l),
    decreases 82 - h,
{
    if middle_reaches(h, l) {
        h
    } else {
        lemma_least_from(h + 1, l)
    }
}

/// Number of HDPC (high-density parity check) symbols, the smallest H such
/// that C(H, floor(H/2)) >= K + S.
pub fn h_for(k: usize) -> (h: usize)
    requires
        k + ldpc_count(k as nat) <= usize::MAX,
    ensures
        h == hdpc_count(k as nat),
        is_least_middle(h as nat, k as nat + ldpc_count(k as nat)),
        h <= 82,
{
    let l: usize = k + s_for(k);
    let mut h: usize = 1;
    loop
        invariant
            1 <= h <= 82,
            l == k + ldpc_count(k as nat),
            forall|g: nat| 1 <= g < h ==> !middle_reaches(g, l as nat),
        decreases 82 - h,
    {
        proof {
            lemma_binomial_fits(h as nat, (h / 2) as nat);
        }
        let c: u128 = binomial(h, h / 2);
        if c >= l as u128 {
            proof {
                assert(is_least_middle(h as nat, l as nat));
                let g = least_middle(l as nat);
                assert(is_least_middle(g, l as nat));
                assert(g == h);
            }
            return h;
        }
        proof {
            lemma_central_large();
            assert(!middle_reaches(h as nat, l as nat));
        }
        h = h + 1;
    }
}

/// Source symbols covered by LDPC check `i`: every `s`-th one from `i` on, and
/// the two that follow `i` cyclically.
pub open spec fn ldpc_neighbors(k: nat, s: nat, i: nat) -> Set<usize> {
    Set::new(
        |j: usize|
            j < k && ((i <= j && (j - i) % (s as int) == 0) || j == i % k || j == (i + 1) % k),
    )
}

/// Puts `x` in its place in an increasing list, unless it is there already.
fn insert_sorted(v: &mut Vec<usize>, x: usize)
    requires
        strictly_increasing(old(v)@),
    ensures
        strictly_increasing(final(v)@),
        final(v)@.to_set() == old(v)@.to_set().insert(x),
{
    let mut p: usize = 0;
    while p < v.len() && v[p] < x
        invariant
            p <= v@.len(),
            forall|q: int| 0 <= q < p ==> v@[q] < x,
        decreases v@.len() - p,
    {
        p = p + 1;
    }
    if p < v.len() && v[p] == x {
        assert(v@.contains(x)) by {
            assert(v@[p as int] == x);
        }
        assert(v@.to_set() =~= old(v)@.to_set().insert(x));
    } else {
        v.insert(p, x);
        proof {
            let before = old(v)@;
            assert(v@ == before.insert(p as int, x));
            assert forall|y: usize| v@.to_set().contains(y) <==> before.to_set().insert(x).contains(
                y,
            ) by {
                if v@.contains(y) {
                    let q = choose|q: int| 0 <= q < v@.len() && v@[q] == y;
                    if q < p {
                        assert(before[q] == y);
                    } else if q > p {
                        assert(before[q - 1] == y);
                    }
                }
                if before.contains(y) {
                    let q = choose|q: int| 0 <= q < before.len() && before[q] == y;
                    if q < p {
                        assert(v@[q] == y);
                    } else {
                        assert(v@[q + 1] == y);
                    }
                }
                assert(v@[p as int] == x);
            }
            assert(v@.to_set() =~= before.to_set().insert(x));
        }
    }
}

/// Source symbol indices covered by LDPC precode symbol `i`, in increasing
/// order.
pub fn precode_neighbors(k: usize, s: usize, i: usize) -> (n: Vec<usize>)
    requires
        k > 0,
        i < k ==> s > 0,
        i < usize::MAX,
    ensures
        strictly_increasing(n@),
        n@.to_set() == ldpc_neighbors(k as nat, s as nat, i as nat),
{
    let mut n: Vec<usize> = Vec::new();
    let ghost mut steps: int = 0;
    let mut j: usize = i;
    let mut more: bool = i < k;
    while more
        invariant
            k > 0,
            more ==> s > 0,
            n@.len() > 0 ==> s > 0,
            steps >= 0,
            more ==> j == i + steps * s && j < k,
            more ==> n@.len() == steps,
            forall|q: int| 0 <= q < n@.len() ==> #[trigger] n@[q] == i + q * s,
            forall|q: int| 0 <= q < n@.len() ==> #[trigger] n@[q] < k,
            !more ==> i + n@.len() * s >= k,
        decreases (if more { k - j } else { 0 }),
    {
        n.push(j);
        proof {
            let st = steps;
            let si = s as int;
            assert((st + 1) * si == st * si + si) by (nonlinear_arith);
        }
        if k - j > s {
            j = j + s;
        } else {
            more = false;
        }
        proof {
            steps = steps + 1;
        }
    }
    proof {
        let si = s as int;
        assert forall|a: int, b: int| 0 <= a < b < n@.len() implies n@[a] < n@[b] by {
            assert(si > 0);
            assert(a * si < b * si) by (nonlinear_arith)
                requires
                    a < b,
                    si > 0,
            ;
        }
        let stride = Set::new(|x: usize| x < k && i <= x && (x - i) % si == 0);
        assert(si == 0 ==> i >= k);
        assert forall|x: usize| n@.to_set().contains(x) <==> stride.contains(x) by {
            if n@.contains(x) {
                let q = choose|q: int| 0 <= q < n@.len() && n@[q] == x;
                assert(si > 0);
                assert(x - i == q * si);
                assert((q * si) % si == 0) by (nonlinear_arith)
                    requires
                        si > 0,
                ;
                assert(q * si >= 0) by (nonlinear_arith)
                    requires
                        q >= 0,
                        si > 0,
                ;
            }
            if stride.contains(x) {
                assert(si > 0);
                let q = (x - i) / si;
                vstd::arithmetic::div_mod::lemma_fundamental_div_mod(x - i, si);
                assert(x - i == q * si) by (nonlinear_arith)
                    requires
                        x - i == si * q + (x - i) % si,
                        (x - i) % si == 0,
                ;
                assert(q >= 0) by (nonlinear_arith)
                    requires
                        x - i == q * si,
                        x - i >= 0,
                        si > 0,
                ;
                let len = n@.len() as int;
                assert(q < len) by (nonlinear_arith)
                    requires
                        x == i + q * si,
                        x < k,
                        i + len * si >= k,
                        si > 0,
                ;
                assert(n@[q] == x);
            }
        }
        assert(n@.to_set() =~= stride);
    }
    insert_sorted(&mut n, i % k);
    insert_sorted(&mut n, (i + 1) % k);
    proof {
        assert(n@.to_set() =~= ldpc_neighbors(k as nat, s as nat, i as nat));
    }
    n
}

/// The seed of HDPC check `i` over `l` inputs.
pub open spec fn hdpc_seed(l: usize, i: usize) -> u64 {
    (i as u64) ^ 0x9E3779B97F4A7C15u64 ^ (l as u64).wrapping_mul(0x85EBCA6Bu64)
}

/// How many of `l` inputs an HDPC check covers.
pub open spec fn hdpc_degree(l: nat) -> nat {
    l / 2 + 1
}

/// Whether drawing the inputs of HDPC check `i` over `l` inputs comes to an end.
pub open spec fn hdpc_draws_end(l: usize, i: usize) -> bool {
    draws_end(hdpc_seed(l, i), 0, l, hdpc_degree(l as nat))
}

/// The inputs, out of `l`, that HDPC check `i` covers.
pub open spec fn hdpc_inputs(l: usize, i: usize) -> Set<usize> {
    first_distinct(hdpc_seed(l, i), 0, l, hdpc_degree(l as nat))
}

/// Input indices (over the K + S precoded inputs) covered by HDPC check `i`,
/// in increasing order.
///
/// Dense and deterministic: each check covers a pseudo-random subset of about
/// half the K + S inputs, seeded from the check index so encoder and decoder
/// agree without any shared dictionary.
pub fn hdpc_neighbors(k: usize, s: usize, _h: usize, i: usize) -> (n: Vec<usize>)
    requires
        0 < k + s <= usize::MAX,
        hdpc_draws_end((k + s) as usize, i),
    ensures
        strictly_increasing(n@),
        n@.to_set() == hdpc_inputs((k + s) as usize, i),
        n@.len() == hdpc_degree((k + s) as nat),
        forall|p: int| 0 <= p < n@.len() ==> n@[p] < k + s,
{
    let l: usize = k + s;
    let mut rng = seed_rng((i as u64) ^ 0x9E3779B97F4A7C15u64 ^ (l as u64).wrapping_mul(0x85EBCA6Bu64));
    let target: usize = l / 2 + 1;
    sample_distinct(&mut rng, l, target)
}

/// Whether drawing the inputs of HDPC check `i` over `l` inputs ends within
/// `DRAW_LIMIT` draws.
pub open spec fn hdpc_draws_end_soon(l: usize, i: usize) -> bool {
    draws_suffice(hdpc_seed(l, i), 0, l, hdpc_degree(l as nat), DRAW_LIMIT as nat)
}

/// Whether the inputs of each of `h` HDPC checks over `l` inputs are found
/// within `DRAW_LIMIT` draws.
pub fn hdpc_found(l: usize, h: usize) -> (found: bool)
    requires
        l > 0,
    ensures
        found <==> forall|i: usize| i < h ==> #[trigger] hdpc_draws_end_soon(l, i),
        found ==> forall|i: usize| i < h ==> #[trigger] hdpc_draws_end(l, i),
{
    let target: usize = l / 2 + 1;
    let mut i: usize = 0;
    while i < h
        invariant
            i <= h,
            l > 0,
            target == hdpc_degree(l as nat),
            forall|c: usize| c < i ==> #[trigger] hdpc_draws_end_soon(l, c),
            forall|c: usize| c < i ==> #[trigger] hdpc_draws_end(l, c),
        decreases h - i,
    {
        let mut rng = seed_rng(
            (i as u64) ^ 0x9E3779B97F4A7C15u64 ^ (l as u64).wrapping_mul(0x85EBCA6Bu64),
        );
        if !draws_end_within(&mut rng, l, target, DRAW_LIMIT) {
            assert(!hdpc_draws_end_soon(l, i));
            return false;
        }
        assert(hdpc_draws_end_soon(l, i));
        assert(hdpc_draws_end(l, i));
        i = i + 1;
    }
    true
}

/// The number of inputs K + S + H for `k` source symbols.
pub open spec fn total_inputs(k: nat) -> nat {
    k + ldpc_count(k) + hdpc_count(k)
}

/// The number of inputs K + S + H for K source symbols; `None` if it does not
/// fit into a machine word.
pub fn inputs_for(k: usize) -> (l: Option<usize>)
    ensures
        l is Some <==> total_inputs(k as nat) <= usize::MAX,
        l matches Some(l) ==> l == total_inputs(k as nat),
{
    let s: usize = s_for(k);
    if k > usize::MAX - s {
        return None;
    }
    let h: usize = h_for(k);
    if k + s > usize::MAX - h {
        return None;
    }
    Some(k + s + h)
}

/// LDPC check block `i` over the source blocks.
pub open spec fn ldpc_block(source: Seq<Seq<u8>>, s: nat, size: nat, i: nat) -> Seq<u8> {
    xor_sum(source, ldpc_neighbors(source.len(), s, i), size)
}

/// The source blocks followed by the `s` LDPC check blocks.
pub open spec fn with_ldpc(source: Seq<Seq<u8>>, s: nat, size: nat) -> Seq<Seq<u8>> {
    source + Seq::new(s, |i: int| ldpc_block(source, s, size, i as nat))
}

/// HDPC check block `i` over the source and LDPC blocks.
pub open spec fn hdpc_block(inputs: Seq<Seq<u8>>, size: nat, i: nat) -> Seq<u8> {
    xor_sum(inputs, hdpc_inputs(inputs.len() as usize, i as usize), size)
}

/// The source blocks, the `s` LDPC check blocks and the `h` HDPC check blocks.
pub open spec fn precoded_blocks(source: Seq<Seq<u8>>, s: nat, h: nat, size: nat) -> Seq<Seq<u8>> {
    let inputs = with_ldpc(source, s, size);
    inputs + Seq::new(h, |i: int| hdpc_block(inputs, size, i as nat))
}

/// XORs the blocks at the indices in `list` into one block.
pub(crate) fn xor_listed(blocks: &Vec<Vec<u8>>, list: &Vec<usize>, symbol_size: usize) -> (data: Vec<u8>)
    requires
        strictly_increasing(list@),
        forall|p: int| 0 <= p < list@.len() ==> #[trigger] list@[p] < blocks@.len(),
        all_sized(block_views(blocks@), symbol_size as nat),
    ensures
        data@ == xor_sum(block_views(blocks@), list@.to_set(), symbol_size as nat),
        data@.len() == symbol_size,
{
    let ghost views = block_views(blocks@);
    let total: usize = blocks.len();
    let mut data: Vec<u8> = vec![0u8; symbol_size];
    let mut p: usize = 0;
    proof {
        lemma_xor_sum_empty(views, symbol_size as nat);
        assert(list@.take(0).to_set() =~= Set::<usize>::empty());
        assert(data@ =~= zero_block(symbol_size as nat));
    }
    while p < list.len()
        invariant
            p <= list@.len(),
            views == block_views(blocks@),
            views.len() == total,
            strictly_increasing(list@),
            forall|q: int| 0 <= q < list@.len() ==> #[trigger] list@[q] < blocks@.len(),
            all_sized(views, symbol_size as nat),
            data@.len() == symbol_size,
            data@ == xor_sum(views, list@.take(p as int).to_set(), symbol_size as nat),
        decreases list@.len() - p,
    {
        let n: usize = list[p];
        proof {
            let before = list@.take(p as int);
            let after = list@.take(p + 1);
            assert(after =~= before.push(n));
            assert forall|x: usize| after.to_set().contains(x) <==> before.to_set().insert(
                n,
            ).contains(x) by {
                if before.contains(x) {
                    let q = choose|q: int| 0 <= q < before.len() && before[q] == x;
                    assert(after[q] == x);
                }
                assert(after[p as int] == n);
            }
            assert(after.to_set() =~= before.to_set().insert(n));
            assert(views[n as int].len() == symbol_size);
            lemma_xor_sum_insert(views, before.to_set(), symbol_size as nat, n);
        }
        xor_inplace(data.as_mut_slice(), blocks[n].as_slice());
        p = p + 1;
    }
    proof {
        assert(list@.take(list@.len() as int) =~= list@);
    }
    data
}

/// Builds the K + S + H precoded symbol list (source symbols, then LDPC
/// checks, then HDPC checks).
pub fn build_precoded(source: &[Vec<u8>], s: usize, h: usize, symbol_size: usize) -> (precoded: Vec<
    Vec<u8>,
>)
    requires
        source@.len() + s + h <= usize::MAX,
        s + h > 0 ==> source@.len() > 0 && all_sized(block_views(source@), symbol_size as nat),
        forall|i: usize| i < h ==> #[trigger] hdpc_draws_end((source@.len() + s) as usize, i),
    ensures
        block_views(precoded@) == precoded_blocks(
            block_views(source@),
            s as nat,
            h as nat,
            symbol_size as nat,
        ),
{
    let ghost src = block_views(source@);
    let ghost size = symbol_size as nat;
    let k: usize = source.len();
    let mut precoded: Vec<Vec<u8>> = Vec::new();
    let mut j: usize = 0;
    while j < k
        invariant
            j <= k == source@.len(),
            src == block_views(source@),
            block_views(precoded@) == src.take(j as int),
        decreases k - j,
    {
        let block = slice_to_vec(source[j].as_slice());
        proof {
            lemma_block_views_push(precoded@, block);
            assert(src.take(j + 1) =~= src.take(j as int).push(block@));
        }
        precoded.push(block);
        j = j + 1;
    }
    let ghost inputs = with_ldpc(src, s as nat, size);
    proof {
        assert(block_views(precoded@).len() == precoded@.len());
        assert(src.take(k as int) =~= src);
        assert(inputs.take(k as int) =~= src);
    }
    let mut i: usize = 0;
    while i < s
        invariant
            i <= s,
            k == source@.len() == src.len(),
            k + s + h <= usize::MAX,
            size == symbol_size,
            src == block_views(source@),
            s > 0 ==> k > 0 && all_sized(src, size),
            inputs == with_ldpc(src, s as nat, size),
            inputs.len() == k + s,
            precoded@.len() == k + i,
            block_views(precoded@) == inputs.take(k + i),
            s > 0 ==> all_sized(block_views(precoded@), size),
        decreases s - i,
    {
        let list = precode_neighbors(k, s, i);
        proof {
            assert forall|p: int| 0 <= p < list@.len() implies #[trigger] list@[p] < k by {
                assert(list@.to_set().contains(list@[p]));
            }
        }
        let data = xor_listed(&precoded, &list, symbol_size);
        proof {
            let views = block_views(precoded@);
            let set = list@.to_set();
            assert forall|b: int| 0 <= b < size implies xor_byte(views, set, views.len(), b)
                == xor_byte(src, set, src.len(), b) by {
                lemma_xor_byte_trim(views, src, set, b);
            }
            assert(data@ =~= ldpc_block(src, s as nat, size, i as nat));
            assert(inputs[k + i] == data@);
            lemma_block_views_push(precoded@, data);
            assert(inputs.take(k + i + 1) =~= inputs.take(k + i).push(data@));
        }
        precoded.push(data);
        i = i + 1;
    }
    let ghost full = precoded_blocks(src, s as nat, h as nat, size);
    proof {
        assert(inputs.take(k + s) =~= inputs);
        assert(full.take(k + s) =~= inputs);
    }
    let mut i: usize = 0;
    while i < h
        invariant
            i <= h,
            k == source@.len() == src.len(),
            k + s + h <= usize::MAX,
            size == symbol_size,
            h > 0 ==> k > 0 && all_sized(src, size),
            forall|c: usize| c < h ==> #[trigger] hdpc_draws_end((k + s) as usize, c),
            inputs == with_ldpc(src, s as nat, size),
            inputs.len() == k + s,
            full == precoded_blocks(src, s as nat, h as nat, size),
            full.len() == k + s + h,
            precoded@.len() == k + s + i,
            block_views(precoded@) == full.take(k + s + i),
            h > 0 ==> all_sized(block_views(precoded@), size),
        decreases h - i,
    {
        let list = hdpc_neighbors(k, s, h, i);
        let data = xor_listed(&precoded, &list, symbol_size);
        proof {
            let views = block_views(precoded@);
            let set = list@.to_set();
            assert forall|x: usize| set.contains(x) implies x < inputs.len() by {
                let p = choose|p: int| 0 <= p < list@.len() && list@[p] == x;
            }
            assert forall|x: int| 0 <= x < inputs.len() implies views[x] == inputs[x] by {
                assert(full[x] == inputs[x]);
            }
            assert forall|b: int| 0 <= b < size implies xor_byte(views, set, views.len(), b)
                == xor_byte(inputs, set, inputs.len(), b) by {
                lemma_xor_byte_trim(views, inputs, set, b);
            }
            assert(data@ =~= hdpc_block(inputs, size, i as nat));
            assert(full[k + s + i] == data@);
            lemma_block_views_push(precoded@, data);
            assert(full.take(k + s + i + 1) =~= full.take(k + s + i).push(data@));
        }
        precoded.push(data);
        i = i + 1;
    }
    proof {
        assert(full.take(k + s + h) =~= full);
    }
    precoded
}

/// Precoding keeps the block size and yields K + S + H blocks.
pub proof fn lemma_precoded_sized(source: Seq<Seq<u8>>, s: nat, h: nat, size: nat)
    requires
        all_sized(source, size),
    ensures
        precoded_blocks(source, s, h, size).len() == source.len() + s + h,
        all_sized(precoded_blocks(source, s, h, size), size),
{
    let all = precoded_blocks(source, s, h, size);
    let inputs = with_ldpc(source, s, size);
    assert forall|i: int| 0 <= i < all.len() implies (#[trigger] all[i]).len() == size by {
        if i < source.len() {
            assert(all[i] == source[i]);
        } else if i < source.len() + s {
            assert(all[i] == ldpc_block(source, s, size, (i - source.len()) as nat));
        } else {
            assert(all[i] == hdpc_block(inputs, size, (i - source.len() - s) as nat));
        }
    }
}

/// Blocks beyond every index of the set do not matter to the sum.
pub proof fn lemma_xor_byte_trim(x: Seq<Seq<u8>>, y: Seq<Seq<u8>>, s: Set<usize>, b: int)
    requires
        y.len() <= x.len() <= usize::MAX + 1,
        forall|i: int| 0 <= i < y.len() ==> x[i] == y[i],
        forall|i: usize| s.contains(i) ==> i < y.len(),
    ensures
        xor_byte(x, s, x.len(), b) == xor_byte(y, s, y.len(), b),
    decreases x.len(),
{
    if x.len() == y.len() {
        lemma_xor_byte_agree(x, y, s, s, x.len(), b);
    } else {
        let shorter = x.drop_last();
        lemma_xor_byte_trim(shorter, y, s, b);
        lemma_xor_byte_agree(x, shorter, s, s, shorter.len(), b);
        assert(!s.contains((x.len() - 1) as usize));
    }
}

} // verus!
