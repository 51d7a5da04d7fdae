//! What a decoder recovers from an encoder's symbols.
//!
//! Decoding is peeling: an equation all but one of whose inputs are resolved
//! resolves the last one. The inputs that a decoder resolves are the least set
//! that the precode checks and the received symbols close under this rule, so
//! they depend on which symbols arrived and not on their order, and the values
//! are those that the encoder mixed.
use crate::blocks::{
    all_sized, lemma_xor_algebra, lemma_xor_sum_insert, lemma_xor_sum_remove,
    lemma_xor_sum_singleton, xor_byte, xor_sum, zero_block,
};
use crate::checksum::xxh3;
use crate::decoder::{constraints, DecoderError, DecoderView};
use crate::encoder::{block_count, checks_end, payload_inputs, source_block, source_blocks, EncoderView};
use crate::peel::{
    equation_ok, extends, ingest, known, lemma_below, lemma_resolved_bound, lemma_single,
    lemma_sweep, lemma_visit, mentions, peel_step, ripple, start, sweep,
    visit, well_formed, Equation, PeelState,
};
use crate::precode::{
    hdpc_block, hdpc_count, hdpc_degree, hdpc_draws_end, hdpc_inputs, hdpc_seed, ldpc_block, ldpc_count, ldpc_neighbors,
    lemma_precoded_sized, lemma_xor_byte_trim, total_inputs, with_ldpc,
};
use crate::progress::{law_progress_is_kept, lemma_checks_yield, lemma_ingest_keeps, yield_of};
use crate::simd::xor_bytes;
use crate::soliton::{lt_degree, lt_neighbors, lt_seed};
use crate::stream::{chacha8_word, lemma_first_distinct_below, lemma_first_distinct_len};
use vstd::prelude::*;

verus! {

/// Whether everything a peeling state holds is true of the inputs `x`.
pub open spec fn holds_of(st: PeelState, x: Seq<Seq<u8>>, size: nat) -> bool {
    &&& forall|i: usize| #[trigger] st.resolved.contains_key(i) ==> st.resolved[i] == x[i as int]
    &&& forall|p: int|
        0 <= p < st.equations.len() ==> #[trigger] equation_holds(st.equations[p], x, size)
}

/// Whether an open equation is true of the inputs `x`.
pub open spec fn equation_holds(slot: Option<Equation>, x: Seq<Seq<u8>>, size: nat) -> bool {
    slot matches Some(eq) ==> eq.data == xor_sum(x, eq.neighbors, size)
}

/// A visit keeps a state true.
proof fn lemma_visit_holds(st: PeelState, slot: int, idx: usize, x: Seq<Seq<u8>>, size: nat)
    requires
        x.len() <= usize::MAX,
        all_sized(x, size),
        well_formed(st, x.len(), size),
        holds_of(st, x, size),
        0 <= slot < st.equations.len(),
        st.resolved.contains_key(idx),
    ensures
        holds_of(visit(st, slot, idx), x, size),
{
    let after = visit(st, slot, idx);
    assert(equation_ok(st.equations[slot], x.len(), size));
    assert(equation_holds(st.equations[slot], x, size));
    if let Some(eq) = st.equations[slot] {
        if eq.neighbors.contains(idx) {
            assert(x[idx as int].len() == size);
            lemma_xor_sum_remove(x, eq.neighbors, size, idx);
            let rest = eq.neighbors.remove(idx);
            let last = rest.choose();
            if rest.len() == 1 {
                assert(rest.contains(last)) by {
                    if rest =~= Set::<usize>::empty() {
                    }
                }
                assert(eq.neighbors.contains(last));
                lemma_single(rest, last);
                assert(x[last as int].len() == size);
                lemma_xor_sum_singleton(x, size, last);
            }
        }
    }
    assert forall|p: int| 0 <= p < after.equations.len() implies #[trigger] equation_holds(
        after.equations[p],
        x,
        size,
    ) by {
        assert(equation_holds(st.equations[p], x, size));
    }
}

/// A sweep keeps a state true.
proof fn lemma_sweep_holds(st: PeelState, idx: usize, n: nat, x: Seq<Seq<u8>>, size: nat)
    requires
        x.len() <= usize::MAX,
        all_sized(x, size),
        well_formed(st, x.len(), size),
        holds_of(st, x, size),
        n <= st.equations.len(),
        st.resolved.contains_key(idx),
    ensures
        holds_of(sweep(st, idx, n), x, size),
    decreases n,
{
    if n > 0 {
        lemma_sweep_holds(st, idx, (n - 1) as nat, x, size);
        lemma_sweep(st, idx, (n - 1) as nat, x.len(), size);
        lemma_visit_holds(sweep(st, idx, (n - 1) as nat), n - 1, idx, x, size);
    }
}

/// Taking the first input off the queue keeps a state well formed, and
/// cancelling it keeps it well formed and removes it from all equations.
pub proof fn lemma_peel_step(st: PeelState, l: nat, size: nat)
    requires
        well_formed(st, l, size),
        st.queue.len() > 0,
    ensures
        well_formed(PeelState { queue: st.queue.drop_first(), ..st }, l, size),
        st.resolved.contains_key(st.queue.first()),
        well_formed(peel_step(st), l, size),
        extends(PeelState { queue: st.queue.drop_first(), ..st }, peel_step(st)),
{
    let popped = PeelState { queue: st.queue.drop_first(), ..st };
    assert(st.resolved.contains_key(st.queue[0]));
    assert forall|q: int| 0 <= q < popped.queue.len() implies popped.resolved.contains_key(
        #[trigger] popped.queue[q],
    ) by {
        assert(st.resolved.contains_key(st.queue[q + 1]));
    }
    lemma_sweep(popped, st.queue.first(), st.equations.len(), l, size);
}

/// A ripple keeps a state well formed, and true where it was true.
proof fn lemma_ripple_holds(st: PeelState, fuel: nat, x: Seq<Seq<u8>>, size: nat)
    requires
        x.len() <= usize::MAX,
        all_sized(x, size),
        well_formed(st, x.len(), size),
        holds_of(st, x, size),
    ensures
        well_formed(ripple(st, fuel), x.len(), size),
        holds_of(ripple(st, fuel), x, size),
    decreases fuel,
{
    if fuel > 0 && st.queue.len() > 0 {
        let popped = PeelState { queue: st.queue.drop_first(), ..st };
        lemma_peel_step(st, x.len(), size);
        assert(holds_of(popped, x, size));
        lemma_sweep_holds(popped, st.queue.first(), st.equations.len(), x, size);
        lemma_ripple_holds(peel_step(st), (fuel - 1) as nat, x, size);
    }
}

/// A sum splits into what is resolved and what is open.
proof fn lemma_split_byte(
    resolved: Map<usize, Seq<u8>>,
    x: Seq<Seq<u8>>,
    s: Set<usize>,
    size: nat,
    n: nat,
    b: int,
)
    requires
        n <= x.len() <= usize::MAX,
        0 <= b < size,
        forall|i: usize| #[trigger] resolved.contains_key(i) ==> resolved[i] == x[i as int],
    ensures
        xor_byte(x, s, n, b) ^ xor_byte(known(resolved, x.len(), size), s, n, b) == xor_byte(
            x,
            s.difference(resolved.dom()),
            n,
            b,
        ),
    decreases n,
{
    let table = known(resolved, x.len(), size);
    let open = s.difference(resolved.dom());
    if n > 0 {
        let m = (n - 1) as nat;
        lemma_split_byte(resolved, x, s, size, m, b);
        let all = xor_byte(x, s, m, b);
        let done = xor_byte(table, s, m, b);
        let i = m as usize;
        let v = x[m as int][b];
        if s.contains(i) {
            if resolved.contains_key(i) {
                assert(table[m as int][b] == v);
                lemma_xor_algebra(all, v, done ^ v);
                lemma_xor_algebra(v, done, v);
                lemma_xor_algebra(done, v, 0);
            } else {
                assert(table[m as int][b] == 0);
                lemma_xor_algebra(all, v, done);
                lemma_xor_algebra(done, 0, 0);
            }
        }
    } else {
        lemma_xor_algebra(0, 0, 0);
    }
}

/// Whether an equation's inputs are finitely many and below `l`.
pub open spec fn in_range(neighbors: Set<usize>, l: nat) -> bool {
    &&& neighbors.finite()
    &&& forall|n: usize| #[trigger] neighbors.contains(n) ==> n < l
}

/// Taking in an equation keeps a state well formed.
pub proof fn lemma_start(st: PeelState, neighbors: Set<usize>, data: Seq<u8>, l: nat, size: nat)
    requires
        well_formed(st, l, size),
        in_range(neighbors, l),
        data.len() == size,
    ensures
        well_formed(start(st, neighbors, data, l, size), l, size),
{
    let after = start(st, neighbors, data, l, size);
    let open = neighbors.difference(st.resolved.dom());
    assert forall|p: int| 0 <= p < after.equations.len() implies #[trigger] equation_ok(
        after.equations[p],
        l,
        size,
    ) by {
        if p < st.equations.len() {
            assert(equation_ok(st.equations[p], l, size));
        }
    }
    if open.len() == 1 {
        assert(open.contains(open.choose())) by {
            if open =~= Set::<usize>::empty() {
            }
        }
        assert(after.resolved.dom() =~= st.resolved.dom().insert(open.choose()));
        assert forall|q: int| 0 <= q < after.queue.len() implies after.resolved.contains_key(
            #[trigger] after.queue[q],
        ) by {
            if q < st.queue.len() {
                assert(st.resolved.contains_key(st.queue[q]));
            }
        }
    }
}

/// Taking in a true equation keeps a state true.
proof fn lemma_start_holds(st: PeelState, neighbors: Set<usize>, x: Seq<Seq<u8>>, size: nat)
    requires
        x.len() <= usize::MAX,
        all_sized(x, size),
        well_formed(st, x.len(), size),
        holds_of(st, x, size),
        in_range(neighbors, x.len()),
    ensures
        holds_of(start(st, neighbors, xor_sum(x, neighbors, size), x.len(), size), x, size),
{
    let data = xor_sum(x, neighbors, size);
    let after = start(st, neighbors, data, x.len(), size);
    let open = neighbors.difference(st.resolved.dom());
    let rest = xor_bytes(data, xor_sum(known(st.resolved, x.len(), size), neighbors, size));
    assert forall|b: int| 0 <= b < size implies rest[b] == xor_sum(x, open, size)[b] by {
        lemma_split_byte(st.resolved, x, neighbors, size, x.len(), b);
        assert(known(st.resolved, x.len(), size).len() == x.len());
    }
    assert(rest =~= xor_sum(x, open, size));
    if open.len() == 1 {
        let last = open.choose();
        assert(open.contains(last)) by {
            if open =~= Set::<usize>::empty() {
            }
        }
        assert(neighbors.contains(last));
        lemma_single(open, last);
        assert(x[last as int].len() == size);
        lemma_xor_sum_singleton(x, size, last);
    }
    assert forall|p: int| 0 <= p < after.equations.len() implies #[trigger] equation_holds(
        after.equations[p],
        x,
        size,
    ) by {
        if p < st.equations.len() {
            assert(equation_holds(st.equations[p], x, size));
        }
    }
}

/// The inputs that a symbol mixes lie in range.
pub proof fn lemma_lt_in_range(l: usize, table: Seq<u64>, esi: u32)
    requires
        l > 1,
    ensures
        in_range(lt_neighbors(l, table, esi), l as nat),
{
    if esi >= l {
        lemma_first_distinct_below(
            lt_seed(esi),
            chacha8_word(lt_seed(esi), 0).1,
            l,
            lt_degree(l, table, esi),
        );
    }
}

/// The inputs of a precode check lie in range.
proof fn lemma_constraint_in_range(k: nat, size: nat, p: int)
    requires
        k > 0,
        total_inputs(k) <= usize::MAX,
        0 <= p < constraints(k, size).len(),
    ensures
        constraints(k, size)[p] is Some,
        in_range(constraints(k, size)[p]->0.neighbors, total_inputs(k)),
        constraints(k, size)[p]->0.data == zero_block(size),
{
    let s = ldpc_count(k);
    let l = (k + s) as usize;
    if p < s {
        let set = ldpc_neighbors(k, s, p as nat);
        assert forall|j: usize| set.contains(j) implies j < k by {}
        lemma_finite_below(set, k);
    } else {
        let i = p - s;
        lemma_first_distinct_below(
            hdpc_seed(l, i as usize),
            0,
            l,
            hdpc_degree(l as nat),
        );
    }
}

/// A set of numbers below a bound is finite.
proof fn lemma_finite_below(s: Set<usize>, l: nat)
    requires
        forall|i: usize| s.contains(i) ==> i < l,
    ensures
        s.finite(),
{
    vstd::set_lib::lemma_int_range(0, l as int);
    let r = vstd::set_lib::set_int_range(0, l as int);
    let back = |i: int| i as usize;
    r.lemma_map_finite(back);
    assert forall|i: usize| s.contains(i) implies r.map(back).contains(i) by {
        assert(r.contains(i as int));
        assert(back(i as int) == i);
    }
    vstd::set_lib::lemma_set_subset_finite(r.map(back), s);
}

/// A check block added to the sum of what it covers cancels it.
proof fn lemma_check_cancels(x: Seq<Seq<u8>>, s: Set<usize>, size: nat, c: usize)
    requires
        c < x.len() <= usize::MAX,
        !s.contains(c),
        x[c as int] == xor_sum(x, s, size),
    ensures
        xor_sum(x, s.insert(c), size) == zero_block(size),
{
    lemma_xor_sum_insert(x, s, size, c);
    let sum = xor_sum(x, s, size);
    assert forall|b: int| 0 <= b < size implies sum[b] ^ sum[b] == 0 by {
        lemma_xor_algebra(sum[b], 0, 0);
    }
    assert(xor_sum(x, s.insert(c), size) =~= zero_block(size));
}

/// The number and size of the inputs of a payload.
pub proof fn lemma_inputs_sized(payload: Seq<u8>, size: nat)
    ensures
        payload_inputs(payload, size).len() == total_inputs(block_count(payload.len(), size)),
        all_sized(payload_inputs(payload, size), size),
{
    let k = block_count(payload.len(), size);
    lemma_precoded_sized(source_blocks(payload, size), ldpc_count(k), hdpc_count(k), size);
}

/// The precode checks are true of the inputs of a payload.
pub proof fn lemma_constraints_hold(payload: Seq<u8>, size: nat)
    requires
        size > 0,
        total_inputs(block_count(payload.len(), size)) <= usize::MAX,
    ensures
        ({
            let k = block_count(payload.len(), size);
            let st = PeelState {
                resolved: Map::empty(),
                equations: constraints(k, size),
                queue: Seq::empty(),
            };
            &&& well_formed(st, total_inputs(k), size)
            &&& holds_of(st, payload_inputs(payload, size), size)
        }),
{
    let k = block_count(payload.len(), size);
    lemma_block_count_positive(payload.len(), size);
    let s = ldpc_count(k);
    let h = hdpc_count(k);
    let l = (k + s) as usize;
    let source = source_blocks(payload, size);
    let with = with_ldpc(source, s, size);
    let x = payload_inputs(payload, size);
    let equations = constraints(k, size);
    lemma_inputs_sized(payload, size);
    assert forall|p: int| 0 <= p < equations.len() implies #[trigger] equation_ok(
        equations[p],
        total_inputs(k),
        size,
    ) by {
        lemma_constraint_in_range(k, size, p);
    }
    assert forall|p: int| 0 <= p < equations.len() implies #[trigger] equation_holds(
        equations[p],
        x,
        size,
    ) by {
        lemma_constraint_in_range(k, size, p);
        if p < s {
            let set = ldpc_neighbors(k, s, p as nat);
            let c = (k + p) as usize;
            assert(x[c as int] == ldpc_block(source, s, size, p as nat));
            assert forall|b: int| 0 <= b < size implies xor_byte(x, set, x.len(), b) == xor_byte(
                source,
                set,
                source.len(),
                b,
            ) by {
                lemma_xor_byte_trim(x, source, set, b);
            }
            assert(xor_sum(x, set, size) =~= xor_sum(source, set, size));
            lemma_check_cancels(x, set, size, c);
        } else {
            let i = (p - s) as nat;
            let set = hdpc_inputs(l, i as usize);
            let c = (l + i) as usize;
            lemma_first_distinct_below(
                hdpc_seed(l, i as usize),
                0,
                l,
                hdpc_degree(l as nat),
            );
            assert(with.len() == l);
            assert(x[c as int] == hdpc_block(with, size, i));
            assert forall|b: int| 0 <= b < size implies xor_byte(x, set, x.len(), b) == xor_byte(
                with,
                set,
                with.len(),
                b,
            ) by {
                lemma_xor_byte_trim(x, with, set, b);
            }
            assert(xor_sum(x, set, size) =~= xor_sum(with, set, size));
            lemma_check_cancels(x, set, size, c);
        }
    }
}

/// A payload has at least one block.
pub proof fn lemma_block_count_positive(len: nat, size: nat)
    requires
        size > 0,
    ensures
        block_count(len, size) > 0,
{
    if len > 0 {
        let a = len - 1;
        let d = size as int;
        assert(a / d >= 0) by (nonlinear_arith)
            requires
                a >= 0,
                d > 0,
        ;
    }
}

/// The decoder that matches an encoder, before any symbol.
pub open spec fn matching_decoder(encoder: EncoderView) -> DecoderView {
    DecoderView::fresh(
        encoder.payload_len,
        encoder.symbol_size,
        encoder.k,
        encoder.checksum,
        encoder.table,
    )
}

/// The decoder after the encoder's symbols with the given ESIs, in that order.
pub open spec fn fed(decoder: DecoderView, encoder: EncoderView, esis: Seq<u32>) -> DecoderView
    decreases esis.len(),
{
    if esis.len() == 0 {
        decoder
    } else {
        fed(decoder, encoder, esis.drop_last()).add_symbol(esis.last(), encoder.symbol(esis.last()))
    }
}

/// Whether a payload and a symbol size make an encoder.
pub open spec fn encodable(payload: Seq<u8>, size: nat) -> bool {
    &&& size > 0
    &&& total_inputs(block_count(payload.len(), size)) <= usize::MAX
}

/// Whatever symbols of an encoder have been fed to its matching decoder, each
/// input that is resolved has the encoder's value.
pub proof fn law_resolved_inputs_are_true(
    payload: Seq<u8>,
    size: nat,
    table: Seq<u64>,
    esis: Seq<u32>,
)
    requires
        encodable(payload, size),
    ensures
        ({
            let encoder = EncoderView::of(payload, size, table);
            let decoder = fed(matching_decoder(encoder), encoder, esis);
            &&& well_formed(decoder.state, encoder.inputs.len(), size)
            &&& holds_of(decoder.state, encoder.inputs, size)
            &&& decoder == DecoderView {
                state: decoder.state,
                received: decoder.received,
                ..matching_decoder(encoder)
            }
        }),
    decreases esis.len(),
{
    let encoder = EncoderView::of(payload, size, table);
    let x = encoder.inputs;
    lemma_inputs_sized(payload, size);
    if esis.len() == 0 {
        lemma_constraints_hold(payload, size);
    } else {
        let before = fed(matching_decoder(encoder), encoder, esis.drop_last());
        law_resolved_inputs_are_true(payload, size, table, esis.drop_last());
        let esi = esis.last();
        let neighbors = lt_neighbors(x.len() as usize, table, esi);
        assert(x.len() > 1);
        lemma_lt_in_range(x.len() as usize, table, esi);
        let data = encoder.symbol(esi);
        lemma_start(before.state, neighbors, data, x.len(), size);
        lemma_start_holds(before.state, neighbors, x, size);
        lemma_ripple_holds(
            start(before.state, neighbors, data, x.len(), size),
            x.len(),
            x,
            size,
        );
    }
}

/// A decoder that is complete gives back exactly the payload, whichever of the
/// encoder's symbols it was fed, in whatever order and however often.
pub proof fn law_complete_decoder_returns_payload(
    payload: Seq<u8>,
    size: nat,
    table: Seq<u64>,
    esis: Seq<u32>,
)
    requires
        encodable(payload, size),
        fed(
            matching_decoder(EncoderView::of(payload, size, table)),
            EncoderView::of(payload, size, table),
            esis,
        ).complete(),
    ensures
        fed(
            matching_decoder(EncoderView::of(payload, size, table)),
            EncoderView::of(payload, size, table),
            esis,
        ).reconstruct() == Ok::<Seq<u8>, DecoderError>(payload),
{
    let encoder = EncoderView::of(payload, size, table);
    let decoder = fed(matching_decoder(encoder), encoder, esis);
    let x = encoder.inputs;
    let k = encoder.k;
    law_resolved_inputs_are_true(payload, size, table, esis);
    lemma_inputs_sized(payload, size);
    lemma_resolved_bound(decoder.state, x.len(), size);
    lemma_below(decoder.state.resolved.dom(), x.len());
    lemma_payload_fits(payload.len(), size);
    let out = decoder.assembled();
    assert(out.len() == payload.len());
    assert forall|j: int| 0 <= j < payload.len() implies out[j] == payload[j] by {
        let d = size as int;
        let q = j / d;
        lemma_index_split(j, d);
        lemma_quotient_below(j, payload.len(), size);
        assert(decoder.state.resolved.contains_key(q as usize));
        assert(x[q] == source_block(payload, size, q as nat));
    }
    assert(out =~= payload);
}

/// Quotient and remainder of a position.
pub proof fn lemma_index_split(j: int, d: int)
    requires
        0 <= j,
        d > 0,
    ensures
        j == (j / d) * d + j % d,
        0 <= j % d < d,
        0 <= j / d,
{
    vstd::arithmetic::div_mod::lemma_fundamental_div_mod(j, d);
    assert((j / d) * d == d * (j / d)) by (nonlinear_arith);
    assert(0 <= j / d) by (nonlinear_arith)
        requires
            0 <= j,
            d > 0,
    ;
}

/// A position in the payload lies in one of its blocks.
proof fn lemma_quotient_below(j: int, len: nat, size: nat)
    requires
        0 <= j < len,
        size > 0,
    ensures
        j / (size as int) < block_count(len, size),
{
    vstd::arithmetic::div_mod::lemma_div_is_ordered(j, len - 1, size as int);
}

/// The blocks of a payload hold all of it.
pub proof fn lemma_payload_fits(len: nat, size: nat)
    requires
        size > 0,
    ensures
        len <= block_count(len, size) * size,
{
    if len > 0 {
        let a = len - 1;
        let d = size as int;
        lemma_index_split(a, d);
        assert((a / d + 1) * d == (a / d) * d + d) by (nonlinear_arith);
    } else {
        assert(0 <= block_count(len, size) * size) by (nonlinear_arith);
    }
}

/// Whether peeling has nothing left to do: no equation lacks exactly one input
/// of `r`.
pub open spec fn peeled(r: Set<usize>, equations: Set<Set<usize>>) -> bool {
    forall|e: Set<usize>| #[trigger] equations.contains(e) ==> e.difference(r).len() != 1
}

/// Whether `r` is the least set that peeling the equations leads to.
pub open spec fn is_peeling_of(r: Set<usize>, equations: Set<Set<usize>>) -> bool {
    &&& peeled(r, equations)
    &&& forall|c: Set<usize>| #[trigger] peeled(c, equations) ==> r.subset_of(c)
}

/// What is known of slot `p`, whose equation covered `origin` at first: the
/// inputs it lacks are resolved, the resolved ones it still has are queued (or
/// are `extra`), and an equation with a single input left has it resolved.
spec fn slot_tracks(st: PeelState, p: int, origin: Set<usize>, extra: Option<usize>) -> bool {
    match st.equations[p] {
        None => origin.subset_of(st.resolved.dom()),
        Some(eq) => {
            &&& eq.neighbors.subset_of(origin)
            &&& forall|n: usize|
                origin.contains(n) && !eq.neighbors.contains(n) ==> st.resolved.contains_key(n)
            &&& forall|n: usize|
                #![trigger eq.neighbors.contains(n)]
                eq.neighbors.contains(n) && st.resolved.contains_key(n) ==> st.queue.contains(n)
                    || extra == Some(n)
            &&& eq.neighbors.len() >= 1
            &&& eq.neighbors.len() == 1 ==> st.resolved.contains_key(eq.neighbors.choose())
        },
    }
}

/// Whether a peeling state follows from a set of equations: each slot stems
/// from one of them, each of them has a slot or is used up, and only inputs
/// that peeling leads to are resolved. Slots from `from` on may still mention
/// `extra`.
spec fn follows(
    st: PeelState,
    origins: Seq<Set<usize>>,
    equations: Set<Set<usize>>,
    from: nat,
    extra: Option<usize>,
) -> bool {
    &&& origins.len() == st.equations.len()
    &&& forall|p: int|
        0 <= p < origins.len() ==> equations.contains(#[trigger] origins[p]) && slot_tracks(
            st,
            p,
            origins[p],
            if p < from {
                None
            } else {
                extra
            },
        )
    &&& forall|e: Set<usize>| #[trigger]
        equations.contains(e) ==> e.subset_of(st.resolved.dom()) || origins.contains(e)
    &&& forall|c: Set<usize>| #[trigger]
        peeled(c, equations) ==> st.resolved.dom().subset_of(c)
}

/// A visit keeps a state following from its equations.
proof fn lemma_visit_follows(
    st: PeelState,
    origins: Seq<Set<usize>>,
    equations: Set<Set<usize>>,
    slot: nat,
    idx: usize,
    l: nat,
    size: nat,
)
    requires
        well_formed(st, l, size),
        follows(st, origins, equations, slot, Some(idx)),
        slot < st.equations.len(),
        st.resolved.contains_key(idx),
    ensures
        follows(visit(st, slot as int, idx), origins, equations, slot + 1, Some(idx)),
{
    let after = visit(st, slot as int, idx);
    lemma_visit(st, slot as int, idx, l, size);
    assert(equation_ok(st.equations[slot as int], l, size));
    assert(equations.contains(origins[slot as int]));
    assert(slot_tracks(st, slot as int, origins[slot as int], Some(idx)));
    let origin = origins[slot as int];
    assert forall|n: usize| st.queue.contains(n) implies after.queue.contains(n) by {
        let q = choose|q: int| 0 <= q < st.queue.len() && st.queue[q] == n;
        assert(after.queue[q] == n);
    }
    if let Some(eq) = st.equations[slot as int] {
        let rest = eq.neighbors.remove(idx);
        let last = rest.choose();
        if eq.neighbors.contains(idx) && rest.len() == 1 && !st.resolved.contains_key(last) {
            assert(rest.contains(last)) by {
                if rest =~= Set::<usize>::empty() {
                }
            }
            lemma_single(rest, last);
            assert(after.queue[st.queue.len() as int] == last);
            assert forall|c: Set<usize>| #[trigger] peeled(c, equations) implies after.resolved.dom().subset_of(
                c,
            ) by {
                assert(st.resolved.dom().subset_of(c));
                if !c.contains(last) {
                    assert(origin.difference(c) =~= set![last]);
                    assert(equations.contains(origin));
                    assert(origin.difference(c).len() == 1);
                }
            }
        } else if !eq.neighbors.contains(idx) {
            assert(after == st);
            if eq.neighbors.len() == 1 {
                let only = eq.neighbors.choose();
                assert(eq.neighbors.contains(only)) by {
                    if eq.neighbors =~= Set::<usize>::empty() {
                    }
                }
            }
        }
    }
    assert forall|p: int| 0 <= p < origins.len() implies equations.contains(
        #[trigger] origins[p],
    ) && slot_tracks(
        after,
        p,
        origins[p],
        if p < slot + 1 {
            None
        } else {
            Some(idx)
        },
    ) by {
        let extra: Option<usize> = if p < slot {
            None
        } else {
            Some(idx)
        };
        assert(slot_tracks(st, p, origins[p], extra));
        if p != slot {
            assert(after.equations[p] == st.equations[p]);
        }
    }
}

/// A sweep keeps a state following from its equations.
proof fn lemma_sweep_follows(
    st: PeelState,
    origins: Seq<Set<usize>>,
    equations: Set<Set<usize>>,
    n: nat,
    idx: usize,
    l: nat,
    size: nat,
)
    requires
        well_formed(st, l, size),
        follows(st, origins, equations, 0, Some(idx)),
        n <= st.equations.len(),
        st.resolved.contains_key(idx),
    ensures
        follows(sweep(st, idx, n), origins, equations, n, Some(idx)),
    decreases n,
{
    if n > 0 {
        let m = (n - 1) as nat;
        lemma_sweep_follows(st, origins, equations, m, idx, l, size);
        lemma_sweep(st, idx, m, l, size);
        lemma_visit_follows(sweep(st, idx, m), origins, equations, m, idx, l, size);
    }
}

/// A ripple with enough fuel empties the queue and keeps a state following
/// from its equations.
proof fn lemma_ripple_follows(
    st: PeelState,
    origins: Seq<Set<usize>>,
    equations: Set<Set<usize>>,
    fuel: nat,
    l: nat,
    size: nat,
)
    requires
        l <= usize::MAX,
        well_formed(st, l, size),
        follows(st, origins, equations, 0, None),
        l - st.resolved.dom().len() + st.queue.len() <= fuel,
    ensures
        well_formed(ripple(st, fuel), l, size),
        follows(ripple(st, fuel), origins, equations, 0, None),
        ripple(st, fuel).queue.len() == 0,
    decreases fuel,
{
    lemma_resolved_bound(st, l, size);
    if st.queue.len() > 0 {
        let idx = st.queue.first();
        let popped = PeelState { queue: st.queue.drop_first(), ..st };
        lemma_peel_step(st, l, size);
        assert forall|p: int| 0 <= p < origins.len() implies equations.contains(
            #[trigger] origins[p],
        ) && slot_tracks(popped, p, origins[p], Some(idx)) by {
            assert(slot_tracks(st, p, origins[p], None));
            if let Some(eq) = st.equations[p] {
                assert forall|n: usize|
                    #![trigger eq.neighbors.contains(n)]
                    eq.neighbors.contains(n) && popped.resolved.contains_key(n) implies popped.queue.contains(
                    n,
                ) || Some(idx) == Some(n) by {
                    assert(st.queue.contains(n));
                    let q = choose|q: int| 0 <= q < st.queue.len() && st.queue[q] == n;
                    if q > 0 {
                        assert(popped.queue[q - 1] == n);
                    }
                }
            }
        }
        assert(follows(popped, origins, equations, 0, Some(idx)));
        lemma_sweep_follows(popped, origins, equations, st.equations.len(), idx, l, size);
        let next = peel_step(st);
        assert(follows(next, origins, equations, 0, None)) by {
            assert forall|p: int| 0 <= p < origins.len() implies equations.contains(
                #[trigger] origins[p],
            ) && slot_tracks(next, p, origins[p], None) by {}
        }
        lemma_ripple_follows(next, origins, equations, (fuel - 1) as nat, l, size);
    }
}

/// A state at rest that follows from its equations has resolved exactly what
/// peeling leads to.
proof fn lemma_rest_is_peeling(
    st: PeelState,
    origins: Seq<Set<usize>>,
    equations: Set<Set<usize>>,
)
    requires
        follows(st, origins, equations, 0, None),
        st.queue.len() == 0,
    ensures
        is_peeling_of(st.resolved.dom(), equations),
{
    let r = st.resolved.dom();
    assert forall|e: Set<usize>| #[trigger] equations.contains(e) implies e.difference(r).len()
        != 1 by {
        if e.subset_of(r) {
            assert(e.difference(r) =~= Set::<usize>::empty());
        } else {
            let p = choose|p: int| 0 <= p < origins.len() && origins[p] == e;
            assert(equations.contains(origins[p]));
            assert(slot_tracks(st, p, origins[p], None));
            if let Some(eq) = st.equations[p] {
                assert(e.difference(r) =~= eq.neighbors);
                if eq.neighbors.len() == 1 {
                    let only = eq.neighbors.choose();
                    assert(eq.neighbors.contains(only)) by {
                        if eq.neighbors =~= Set::<usize>::empty() {
                        }
                    }
                }
            }
        }
    }
}

/// Taking in one more equation makes a state at rest follow from the larger
/// set of equations.
proof fn lemma_start_follows(
    st: PeelState,
    origins: Seq<Set<usize>>,
    equations: Set<Set<usize>>,
    neighbors: Set<usize>,
    data: Seq<u8>,
    l: nat,
    size: nat,
) -> (more: Seq<Set<usize>>)
    requires
        well_formed(st, l, size),
        follows(st, origins, equations, 0, None),
        st.queue.len() == 0,
        in_range(neighbors, l),
        data.len() == size,
    ensures
        follows(
            start(st, neighbors, data, l, size),
            more,
            equations.insert(neighbors),
            0,
            None,
        ),
{
    let after = start(st, neighbors, data, l, size);
    let open = neighbors.difference(st.resolved.dom());
    let all = equations.insert(neighbors);
    let more = if open.len() > 1 {
        origins.push(neighbors)
    } else {
        origins
    };
    let last = open.choose();
    if open.len() >= 1 {
        assert(open.contains(last)) by {
            if open =~= Set::<usize>::empty() {
            }
        }
    }
    assert forall|c: Set<usize>| #[trigger] peeled(c, all) implies after.resolved.dom().subset_of(
        c,
    ) by {
        assert(peeled(c, equations)) by {
            assert forall|e: Set<usize>| #[trigger] equations.contains(e) implies e.difference(
                c,
            ).len() != 1 by {
                assert(all.contains(e));
            }
        }
        if open.len() == 1 && !c.contains(last) {
            lemma_single(open, last);
            assert(neighbors.difference(c) =~= set![last]);
            assert(all.contains(neighbors));
        }
    }
    assert forall|p: int| 0 <= p < more.len() implies all.contains(#[trigger] more[p])
        && slot_tracks(after, p, more[p], None) by {
        if p < origins.len() {
            assert(more[p] == origins[p]);
            assert(slot_tracks(st, p, origins[p], None));
            if open.len() == 1 {
                assert(after.queue[0] == last);
                assert(after.queue.contains(last));
            }
            assert(after.equations[p] == st.equations[p]);
        }
    }
    assert forall|e: Set<usize>| #[trigger] all.contains(e) implies e.subset_of(
        after.resolved.dom(),
    ) || more.contains(e) by {
        if e == neighbors {
            if open.len() == 0 {
                assert(open =~= Set::<usize>::empty());
                assert forall|n: usize| e.contains(n) implies st.resolved.contains_key(n) by {
                    if !st.resolved.contains_key(n) {
                        assert(open.contains(n));
                    }
                }
            } else if open.len() == 1 {
                lemma_single(open, last);
                assert forall|n: usize| e.contains(n) implies after.resolved.contains_key(n) by {
                    if !st.resolved.contains_key(n) {
                        assert(open.contains(n));
                    }
                }
            } else {
                assert(more[origins.len() as int] == neighbors);
            }
        } else {
            assert(equations.contains(e));
            if origins.contains(e) {
                let q = choose|q: int| 0 <= q < origins.len() && origins[q] == e;
                assert(more[q] == e);
            }
        }
    }
    more
}

/// Whether `e` is the set of inputs in one of the precode checks.
pub open spec fn is_check(k: nat, e: Set<usize>) -> bool {
    exists|p: int|
        0 <= p < constraints(k, 0).len() && e == (#[trigger] constraints(k, 0)[p])->0.neighbors
}

/// Whether `e` is the set of inputs that one of the symbols mixes.
pub open spec fn is_mixed(k: nat, table: Seq<u64>, esis: Set<u32>, e: Set<usize>) -> bool {
    exists|esi: u32|
        esis.contains(esi) && e == #[trigger] lt_neighbors(total_inputs(k) as usize, table, esi)
}

/// The inputs in each equation that a decoder has from the precode checks and
/// the symbols with the given ESIs.
pub open spec fn equations_of(k: nat, table: Seq<u64>, esis: Set<u32>) -> Set<Set<usize>> {
    Set::new(|e: Set<usize>| is_check(k, e) || is_mixed(k, table, esis, e))
}

/// One more symbol adds one equation.
proof fn lemma_equations_insert(k: nat, table: Seq<u64>, esis: Set<u32>, esi: u32)
    ensures
        equations_of(k, table, esis.insert(esi)) == equations_of(k, table, esis).insert(
            lt_neighbors(total_inputs(k) as usize, table, esi),
        ),
{
    let new = lt_neighbors(total_inputs(k) as usize, table, esi);
    let more = equations_of(k, table, esis.insert(esi));
    let less = equations_of(k, table, esis).insert(new);
    assert forall|e: Set<usize>| more.contains(e) <==> less.contains(e) by {
        if is_mixed(k, table, esis.insert(esi), e) {
            let w = choose|w: u32|
                esis.insert(esi).contains(w) && e == #[trigger] lt_neighbors(
                    total_inputs(k) as usize,
                    table,
                    w,
                );
            if w != esi {
                assert(esis.contains(w));
            }
        }
        if is_mixed(k, table, esis, e) {
            let w = choose|w: u32|
                esis.contains(w) && e == #[trigger] lt_neighbors(
                    total_inputs(k) as usize,
                    table,
                    w,
                );
            assert(esis.insert(esi).contains(w));
        }
        if e == new {
            assert(esis.insert(esi).contains(esi));
        }
    }
    assert(more =~= less);
}

/// A fresh decoder follows from the precode checks.
proof fn lemma_fresh_follows(k: nat, size: nat, table: Seq<u64>) -> (origins: Seq<Set<usize>>)
    requires
        k > 0,
        total_inputs(k) <= usize::MAX,
        checks_end(k),
    ensures
        follows(
            PeelState {
                resolved: Map::empty(),
                equations: constraints(k, size),
                queue: Seq::empty(),
            },
            origins,
            equations_of(k, table, Set::empty()),
            0,
            None,
        ),
{
    let st = PeelState {
        resolved: Map::<usize, Seq<u8>>::empty(),
        equations: constraints(k, size),
        queue: Seq::empty(),
    };
    let s = ldpc_count(k);
    let l = (k + s) as usize;
    let equations = equations_of(k, table, Set::empty());
    let origins = Seq::new(st.equations.len(), |p: int| st.equations[p]->0.neighbors);
    assert forall|p: int| 0 <= p < origins.len() implies equations.contains(#[trigger] origins[p])
        && slot_tracks(st, p, origins[p], None) by {
        assert(origins[p] == constraints(k, 0)[p]->0.neighbors);
        assert(is_check(k, origins[p]));
        lemma_constraint_in_range(k, size, p);
        let e = origins[p];
        if p < s {
            let a = (k + p) as usize;
            let b = ((p as nat) % k) as usize;
            assert(p % (k as int) < k) by (nonlinear_arith)
                requires
                    k > 0,
            ;
            assert(ldpc_neighbors(k, s, p as nat).contains(b));
            lemma_two_elements(e, a, b);
        } else {
            let i = (p - s) as usize;
            let a = (l + i) as usize;
            assert(hdpc_draws_end(l, i));
            lemma_first_distinct_below(hdpc_seed(l, i), 0, l, hdpc_degree(l as nat));
            lemma_first_distinct_len(hdpc_seed(l, i), 0, l, hdpc_degree(l as nat));
            let b = hdpc_inputs(l, i).choose();
            assert(hdpc_inputs(l, i).contains(b)) by {
                if hdpc_inputs(l, i) =~= Set::<usize>::empty() {
                }
            }
            lemma_two_elements(e, a, b);
        }
    }
    assert forall|e: Set<usize>| #[trigger] equations.contains(e) implies e.subset_of(
        st.resolved.dom(),
    ) || origins.contains(e) by {
        assert(is_check(k, e));
        let p = choose|p: int|
            0 <= p < constraints(k, 0).len() && e == (#[trigger] constraints(k, 0)[p])->0.neighbors;
        assert(origins[p] == e);
    }
    origins
}

/// A finite set with two different elements has at least two.
proof fn lemma_two_elements(s: Set<usize>, a: usize, b: usize)
    requires
        s.finite(),
        s.contains(a),
        s.contains(b),
        a != b,
    ensures
        s.len() >= 2,
{
    assert(s.remove(a).contains(b));
    assert(s.remove(a).remove(b).len() + 2 == s.len());
}

/// A decoder fed with symbols follows from the checks and those symbols.
proof fn lemma_fed_follows(
    payload: Seq<u8>,
    size: nat,
    table: Seq<u64>,
    esis: Seq<u32>,
) -> (origins: Seq<Set<usize>>)
    requires
        encodable(payload, size),
        checks_end(block_count(payload.len(), size)),
    ensures
        ({
            let encoder = EncoderView::of(payload, size, table);
            let decoder = fed(matching_decoder(encoder), encoder, esis);
            &&& follows(
                decoder.state,
                origins,
                equations_of(encoder.k, table, esis.to_set()),
                0,
                None,
            )
            &&& decoder.state.queue.len() == 0
            &&& decoder.received.subset_of(esis.to_set())
        }),
    decreases esis.len(),
{
    let encoder = EncoderView::of(payload, size, table);
    let k = encoder.k;
    let l = total_inputs(k);
    lemma_block_count_positive(payload.len(), size);
    lemma_inputs_sized(payload, size);
    if esis.len() == 0 {
        assert(esis.to_set() =~= Set::<u32>::empty());
        lemma_fresh_follows(k, size, table)
    } else {
        let rest = esis.drop_last();
        let esi = esis.last();
        let before = fed(matching_decoder(encoder), encoder, rest);
        let origins = lemma_fed_follows(payload, size, table, rest);
        law_resolved_inputs_are_true(payload, size, table, rest);
        let neighbors = lt_neighbors(l as usize, table, esi);
        lemma_lt_in_range(l as usize, table, esi);
        let equations = equations_of(k, table, rest.to_set());
        let all = equations_of(k, table, esis.to_set());
        lemma_last_to_set(esis);
        lemma_equations_insert(k, table, rest.to_set(), esi);
        if before.received.contains(esi) {
            assert(rest.to_set().insert(esi) =~= rest.to_set());
            origins
        } else if before.complete() {
            lemma_resolved_bound(before.state, l, size);
            lemma_below(before.state.resolved.dom(), l);
            assert(neighbors.subset_of(before.state.resolved.dom()));
            assert forall|c: Set<usize>| #[trigger] peeled(
                c,
                all,
            ) implies before.state.resolved.dom().subset_of(c) by {
                assert(peeled(c, equations)) by {
                    assert forall|e: Set<usize>| #[trigger]
                        equations.contains(e) implies e.difference(c).len() != 1 by {
                        assert(all.contains(e));
                    }
                }
            }
            assert forall|p: int| 0 <= p < origins.len() implies all.contains(
                #[trigger] origins[p],
            ) && slot_tracks(before.state, p, origins[p], None) by {
                assert(equations.contains(origins[p]));
            }
            origins
        } else {
            lemma_ingest_follows(
                before.state,
                origins,
                equations,
                neighbors,
                encoder.symbol(esi),
                l,
                size,
            )
        }
    }
}

/// The elements of a list are its last one and those before it.
proof fn lemma_last_to_set(s: Seq<u32>)
    requires
        s.len() > 0,
    ensures
        s.to_set() == s.drop_last().to_set().insert(s.last()),
{
    let rest = s.drop_last();
    assert forall|y: u32| s.to_set().contains(y) <==> rest.to_set().insert(s.last()).contains(
        y,
    ) by {
        if rest.contains(y) {
            let q = choose|q: int| 0 <= q < rest.len() && rest[q] == y;
            assert(s[q] == y);
        }
        if s.contains(y) {
            let q = choose|q: int| 0 <= q < s.len() && s[q] == y;
            if q < rest.len() {
                assert(rest[q] == y);
            }
        }
        assert(s[s.len() - 1] == s.last());
    }
    assert(s.to_set() =~= rest.to_set().insert(s.last()));
}

/// The inputs that a decoder has resolved are exactly those that peeling the
/// precode checks and the received symbols leads to.
pub proof fn law_decoder_peels(payload: Seq<u8>, size: nat, table: Seq<u64>, esis: Seq<u32>)
    requires
        encodable(payload, size),
        checks_end(block_count(payload.len(), size)),
    ensures
        ({
            let encoder = EncoderView::of(payload, size, table);
            is_peeling_of(
                fed(matching_decoder(encoder), encoder, esis).state.resolved.dom(),
                equations_of(encoder.k, table, esis.to_set()),
            )
        }),
{
    let encoder = EncoderView::of(payload, size, table);
    let decoder = fed(matching_decoder(encoder), encoder, esis);
    let origins = lemma_fed_follows(payload, size, table, esis);
    lemma_rest_is_peeling(
        decoder.state,
        origins,
        equations_of(encoder.k, table, esis.to_set()),
    );
}

/// Symbols may arrive in any order and more than once: two decoders that got
/// the same symbols have resolved the same inputs with the same values, and
/// give the same answer.
pub proof fn law_order_is_irrelevant(
    payload: Seq<u8>,
    size: nat,
    table: Seq<u64>,
    a: Seq<u32>,
    b: Seq<u32>,
)
    requires
        encodable(payload, size),
        checks_end(block_count(payload.len(), size)),
        a.to_set() == b.to_set(),
    ensures
        ({
            let encoder = EncoderView::of(payload, size, table);
            let x = fed(matching_decoder(encoder), encoder, a);
            let y = fed(matching_decoder(encoder), encoder, b);
            &&& x.state.resolved == y.state.resolved
            &&& x.complete() == y.complete()
            &&& x.reconstruct() == y.reconstruct()
        }),
{
    let encoder = EncoderView::of(payload, size, table);
    let x = fed(matching_decoder(encoder), encoder, a);
    let y = fed(matching_decoder(encoder), encoder, b);
    law_decoder_peels(payload, size, table, a);
    law_decoder_peels(payload, size, table, b);
    law_resolved_inputs_are_true(payload, size, table, a);
    law_resolved_inputs_are_true(payload, size, table, b);
    assert(x.state.resolved.dom() =~= y.state.resolved.dom());
    assert(x.state.resolved =~= y.state.resolved);
    assert(x.assembled() =~= y.assembled());
}

/// More symbols never resolve fewer inputs.
pub proof fn law_more_symbols_resolve_more(
    payload: Seq<u8>,
    size: nat,
    table: Seq<u64>,
    a: Seq<u32>,
    b: Seq<u32>,
)
    requires
        encodable(payload, size),
        checks_end(block_count(payload.len(), size)),
        a.to_set().subset_of(b.to_set()),
    ensures
        ({
            let encoder = EncoderView::of(payload, size, table);
            let x = fed(matching_decoder(encoder), encoder, a);
            let y = fed(matching_decoder(encoder), encoder, b);
            x.state.resolved.dom().subset_of(y.state.resolved.dom())
        }),
{
    let encoder = EncoderView::of(payload, size, table);
    let y = fed(matching_decoder(encoder), encoder, b);
    let r = y.state.resolved.dom();
    law_decoder_peels(payload, size, table, a);
    law_decoder_peels(payload, size, table, b);
    let fewer = equations_of(encoder.k, table, a.to_set());
    let more = equations_of(encoder.k, table, b.to_set());
    assert(peeled(r, fewer)) by {
        assert forall|e: Set<usize>| #[trigger] fewer.contains(e) implies e.difference(r).len()
            != 1 by {
            if is_mixed(encoder.k, table, a.to_set(), e) {
                let w = choose|w: u32|
                    a.to_set().contains(w) && e == #[trigger] lt_neighbors(
                        total_inputs(encoder.k) as usize,
                        table,
                        w,
                    );
                assert(b.to_set().contains(w));
            }
            assert(more.contains(e));
        }
    }
}

/// A set of inputs to which an equation adds nothing but one input holds it.
proof fn lemma_last_input(r: Set<usize>, equations: Set<Set<usize>>, e: Set<usize>, x: usize)
    requires
        peeled(r, equations),
        equations.contains(e),
        e.contains(x),
        forall|n: usize| e.contains(n) && n != x ==> r.contains(n),
    ensures
        r.contains(x),
{
    if !r.contains(x) {
        assert(e.difference(r) =~= set![x]);
        assert(e.difference(r).len() == 1);
    }
}

/// The systematic phase suffices: once every source symbol has arrived, the
/// decoder is complete and gives back the payload, whatever else arrived.
pub proof fn law_source_symbols_suffice(
    payload: Seq<u8>,
    size: nat,
    table: Seq<u64>,
    esis: Seq<u32>,
)
    requires
        encodable(payload, size),
        checks_end(block_count(payload.len(), size)),
        block_count(payload.len(), size) <= u32::MAX + 1,
        forall|i: u32| i < block_count(payload.len(), size) ==> #[trigger] esis.contains(i),
    ensures
        ({
            let encoder = EncoderView::of(payload, size, table);
            let decoder = fed(matching_decoder(encoder), encoder, esis);
            &&& decoder.complete()
            &&& decoder.reconstruct() == Ok::<Seq<u8>, DecoderError>(payload)
        }),
{
    let encoder = EncoderView::of(payload, size, table);
    let decoder = fed(matching_decoder(encoder), encoder, esis);
    let k = encoder.k;
    let l = total_inputs(k);
    let r = decoder.state.resolved.dom();
    let equations = equations_of(k, table, esis.to_set());
    lemma_block_count_positive(payload.len(), size);
    lemma_inputs_sized(payload, size);
    law_decoder_peels(payload, size, table, esis);
    law_resolved_inputs_are_true(payload, size, table, esis);
    assert forall|i: usize| i < k implies r.contains(i) by {
        assert(esis.contains(i as u32));
        lemma_systematic_resolves(r, k, table, esis.to_set(), i as u32);
    }
    lemma_sources_lead_to_all(r, k, equations);
    lemma_all_below(r, l);
    law_complete_decoder_returns_payload(payload, size, table, esis);
}

/// A finite set that holds all numbers below `l` has at least `l` elements.
proof fn lemma_all_below(s: Set<usize>, l: nat)
    requires
        s.finite(),
        l <= usize::MAX + 1,
        forall|i: usize| i < l ==> s.contains(i),
    ensures
        s.len() >= l,
    decreases l,
{
    if l > 0 {
        let top = (l - 1) as usize;
        assert(s.contains(top));
        assert forall|i: usize| i < l - 1 implies s.remove(top).contains(i) by {
            assert(s.contains(i));
        }
        lemma_all_below(s.remove(top), (l - 1) as nat);
    }
}

/// Taking in one more equation and peeling makes a state at rest follow from
/// the larger set of equations, at rest again.
proof fn lemma_ingest_follows(
    st: PeelState,
    origins: Seq<Set<usize>>,
    equations: Set<Set<usize>>,
    neighbors: Set<usize>,
    data: Seq<u8>,
    l: nat,
    size: nat,
) -> (more: Seq<Set<usize>>)
    requires
        l <= usize::MAX,
        well_formed(st, l, size),
        follows(st, origins, equations, 0, None),
        st.queue.len() == 0,
        in_range(neighbors, l),
        data.len() == size,
    ensures
        follows(
            ingest(st, neighbors, data, l, size),
            more,
            equations.insert(neighbors),
            0,
            None,
        ),
        ingest(st, neighbors, data, l, size).queue.len() == 0,
{
    lemma_resolved_bound(st, l, size);
    lemma_start(st, neighbors, data, l, size);
    let more = lemma_start_follows(st, origins, equations, neighbors, data, l, size);
    let started = start(st, neighbors, data, l, size);
    let open = neighbors.difference(st.resolved.dom());
    if open.len() == 1 {
        assert(open.contains(open.choose())) by {
            if open =~= Set::<usize>::empty() {
            }
        }
        assert(started.resolved.dom() =~= st.resolved.dom().insert(open.choose()));
    }
    lemma_ripple_follows(started, more, equations.insert(neighbors), l, l, size);
    more
}

/// Whether a decoder follows from the precode checks and the symbols that take
/// part in decoding.
spec fn follows_received(decoder: DecoderView, origins: Seq<Set<usize>>) -> bool {
    follows(
        decoder.state,
        origins,
        equations_of(decoder.k, decoder.table, decoder.counted()),
        0,
        None,
    )
}

/// Whether a decoder is between two symbols: it has resolved what its
/// equations lead to, has nothing queued, and got no more out of its equations
/// than there are precode checks and symbols that take part.
pub closed spec fn settled(decoder: DecoderView) -> bool {
    &&& decoder.k > 0
    &&& decoder.inputs() <= usize::MAX
    &&& well_formed(decoder.state, decoder.inputs(), decoder.symbol_size)
    &&& decoder.state.queue.len() == 0
    &&& decoder.received.finite()
    &&& decoder.misfits.subset_of(decoder.received)
    &&& yield_of(decoder.state) <= ldpc_count(decoder.k) + hdpc_count(decoder.k)
        + decoder.counted().len()
    &&& exists|origins: Seq<Set<usize>>| #[trigger] follows_received(decoder, origins)
}

/// A decoder that has received nothing is settled, with nothing resolved.
pub proof fn law_fresh_decoder_is_settled(
    payload_len: nat,
    size: nat,
    k: nat,
    checksum: u64,
    table: Seq<u64>,
)
    requires
        k > 0,
        total_inputs(k) <= usize::MAX,
        checks_end(k),
    ensures
        settled(DecoderView::fresh(payload_len, size, k, checksum, table)),
        DecoderView::fresh(payload_len, size, k, checksum, table).resolved_count() == 0,
        !DecoderView::fresh(payload_len, size, k, checksum, table).complete(),
{
    let decoder = DecoderView::fresh(payload_len, size, k, checksum, table);
    assert forall|p: int| 0 <= p < decoder.state.equations.len() implies #[trigger] equation_ok(
        decoder.state.equations[p],
        total_inputs(k),
        size,
    ) by {
        lemma_constraint_in_range(k, size, p);
    }
    lemma_checks_yield(k, size);
    assert(decoder.state.resolved.dom() =~= Set::<usize>::empty());
    let origins = lemma_fresh_follows(k, size, table);
    assert(decoder.counted() =~= Set::<u32>::empty());
    assert(follows_received(decoder, origins));
}

/// A settled decoder stays settled with every symbol, whatever it carries.
pub proof fn law_decoder_stays_settled(decoder: DecoderView, esi: u32, data: Seq<u8>)
    requires
        settled(decoder),
    ensures
        settled(decoder.add_symbol(esi, data)),
        decoder.grows_to(decoder.add_symbol(esi, data)),
{
    law_progress_is_kept(decoder, esi, data);
    let after = decoder.add_symbol(esi, data);
    if !decoder.ignores(esi) && data.len() != decoder.symbol_size {
        assert(after.counted() =~= decoder.counted());
        let origins = choose|origins: Seq<Set<usize>>| #[trigger]
            follows_received(decoder, origins);
        assert(follows_received(after, origins));
    } else if !decoder.ignores(esi) {
        assert(after.counted() =~= decoder.counted().insert(esi));
        let k = decoder.k;
        let l = decoder.inputs();
        let size = decoder.symbol_size;
        let neighbors = lt_neighbors(l as usize, decoder.table, esi);
        let equations = equations_of(k, decoder.table, decoder.counted());
        let origins = choose|origins: Seq<Set<usize>>| #[trigger]
            follows_received(decoder, origins);
        lemma_lt_in_range(l as usize, decoder.table, esi);
        lemma_ingest_keeps(decoder.state, neighbors, data, l, size);
        lemma_equations_insert(k, decoder.table, decoder.counted(), esi);
        let more = lemma_ingest_follows(
            decoder.state,
            origins,
            equations,
            neighbors,
            data,
            l,
            size,
        );
        assert(follows_received(after, more));
    }
}

/// Inputs that peeling leads to include the precode checks as soon as they
/// include the source blocks.
proof fn lemma_sources_lead_to_all(r: Set<usize>, k: nat, equations: Set<Set<usize>>)
    requires
        k > 0,
        total_inputs(k) <= usize::MAX,
        peeled(r, equations),
        forall|e: Set<usize>| is_check(k, e) ==> #[trigger] equations.contains(e),
        forall|i: usize| i < k ==> r.contains(i),
    ensures
        forall|i: usize| i < total_inputs(k) ==> r.contains(i),
{
    let s = ldpc_count(k);
    let l = total_inputs(k);
    assert forall|i: usize| i < k + s implies r.contains(i) by {
        if i >= k {
            let p = i - k;
            let e = constraints(k, 0)[p]->0.neighbors;
            assert(is_check(k, e));
            assert(equations.contains(e));
            lemma_last_input(r, equations, e, i);
        }
    }
    assert forall|i: usize| i < l implies r.contains(i) by {
        if i >= k + s {
            let c = (k + s) as usize;
            let p = i - k;
            let e = constraints(k, 0)[p]->0.neighbors;
            lemma_first_distinct_below(
                hdpc_seed(c, (p - s) as usize),
                0,
                c,
                hdpc_degree(c as nat),
            );
            assert(is_check(k, e));
            assert(equations.contains(e));
            lemma_last_input(r, equations, e, i);
        }
    }
}

/// What completeness means: no more inputs than K + S + H are ever resolved, and
/// a decoder is complete exactly when that many are, exactly when all K source
/// blocks and S LDPC checks are, and exactly when all source blocks are. Fewer
/// than K symbols that take part in decoding never get there.
pub proof fn law_completeness(decoder: DecoderView)
    requires
        settled(decoder),
    ensures
        decoder.resolved_count() <= decoder.inputs(),
        decoder.complete() <==> decoder.resolved_count() == decoder.inputs(),
        decoder.complete() <==> (forall|i: usize|
            i < decoder.k + ldpc_count(decoder.k) ==> decoder.state.resolved.contains_key(i)),
        decoder.complete() <==> (forall|i: usize|
            i < decoder.k ==> decoder.state.resolved.contains_key(i)),
        decoder.counted().len() < decoder.k ==> !decoder.complete(),
{
    let k = decoder.k;
    let l = decoder.inputs();
    let r = decoder.state.resolved.dom();
    let equations = equations_of(k, decoder.table, decoder.counted());
    lemma_resolved_bound(decoder.state, l, decoder.symbol_size);
    lemma_below(r, l);
    let origins = choose|origins: Seq<Set<usize>>| #[trigger] follows_received(decoder, origins);
    lemma_rest_is_peeling(decoder.state, origins, equations);
    if forall|i: usize| i < k ==> decoder.state.resolved.contains_key(i) {
        assert forall|i: usize| i < k implies r.contains(i) by {
            assert(decoder.state.resolved.contains_key(i));
        }
        lemma_sources_lead_to_all(r, k, equations);
        lemma_all_below(r, l);
    }
    if forall|i: usize| i < k + ldpc_count(k) ==> decoder.state.resolved.contains_key(i) {
        assert forall|i: usize| i < k implies decoder.state.resolved.contains_key(i) by {}
    }
    if decoder.complete() {
        assert forall|i: usize| i < l implies decoder.state.resolved.contains_key(i) by {
            assert(r.contains(i));
        }
    }
}

/// Whatever its symbols carry, a decoder has resolved exactly what peeling the
/// checks and the symbols that take part leads to.
pub proof fn law_settled_decoder_has_peeled(decoder: DecoderView)
    requires
        settled(decoder),
    ensures
        is_peeling_of(
            decoder.state.resolved.dom(),
            equations_of(decoder.k, decoder.table, decoder.received.difference(decoder.misfits)),
        ),
{
    let origins = choose|origins: Seq<Set<usize>>| #[trigger] follows_received(decoder, origins);
    lemma_rest_is_peeling(
        decoder.state,
        origins,
        equations_of(decoder.k, decoder.table, decoder.counted()),
    );
}

/// Every input that is not resolved occurs in an open equation.
pub proof fn law_unresolved_inputs_are_covered(decoder: DecoderView, i: usize) -> (p: int)
    requires
        settled(decoder),
        i < decoder.inputs(),
        !decoder.state.resolved.contains_key(i),
    ensures
        0 <= p < decoder.state.equations.len(),
        mentions(decoder.state.equations, p, i),
{
    let k = decoder.k;
    let s = ldpc_count(k);
    let equations = equations_of(k, decoder.table, decoder.counted());
    let origins = choose|origins: Seq<Set<usize>>| #[trigger] follows_received(decoder, origins);
    let c: int = if i < k {
        i as int % s as int
    } else {
        i - k
    };
    if i < k {
        lemma_index_split(i as int, s as int);
        vstd::arithmetic::div_mod::lemma_fundamental_div_mod_converse(
            i - c,
            s as int,
            i as int / s as int,
            0,
        );
        assert(ldpc_neighbors(k, s, c as nat).contains(i));
    }
    let e = constraints(k, 0)[c]->0.neighbors;
    assert(e.contains(i));
    assert(is_check(k, e));
    assert(equations.contains(e));
    let p = choose|p: int| 0 <= p < origins.len() && origins[p] == e;
    assert(slot_tracks(decoder.state, p, origins[p], None));
    p
}

/// A decoder fed with an encoder's symbols is settled.
pub proof fn law_fed_decoder_is_settled(
    payload: Seq<u8>,
    size: nat,
    table: Seq<u64>,
    esis: Seq<u32>,
)
    requires
        encodable(payload, size),
        checks_end(block_count(payload.len(), size)),
    ensures
        ({
            let encoder = EncoderView::of(payload, size, table);
            let decoder = fed(matching_decoder(encoder), encoder, esis);
            &&& settled(decoder)
            &&& decoder.received.subset_of(esis.to_set())
        }),
    decreases esis.len(),
{
    let encoder = EncoderView::of(payload, size, table);
    lemma_block_count_positive(payload.len(), size);
    lemma_inputs_sized(payload, size);
    if esis.len() == 0 {
        law_fresh_decoder_is_settled(
            encoder.payload_len,
            size,
            encoder.k,
            encoder.checksum,
            table,
        );
    } else {
        law_fed_decoder_is_settled(payload, size, table, esis.drop_last());
        law_resolved_inputs_are_true(payload, size, table, esis.drop_last());
        lemma_last_to_set(esis);
        law_decoder_stays_settled(
            fed(matching_decoder(encoder), encoder, esis.drop_last()),
            esis.last(),
            encoder.symbol(esis.last()),
        );
    }
}

/// Fewer different symbols than there are source blocks never suffice.
pub proof fn law_too_few_symbols(payload: Seq<u8>, size: nat, table: Seq<u64>, esis: Seq<u32>)
    requires
        encodable(payload, size),
        checks_end(block_count(payload.len(), size)),
        esis.to_set().len() < block_count(payload.len(), size),
    ensures
        ({
            let encoder = EncoderView::of(payload, size, table);
            !fed(matching_decoder(encoder), encoder, esis).complete()
        }),
{
    let encoder = EncoderView::of(payload, size, table);
    let decoder = fed(matching_decoder(encoder), encoder, esis);
    law_fed_decoder_is_settled(payload, size, table, esis);
    law_resolved_inputs_are_true(payload, size, table, esis);
    vstd::seq_lib::seq_to_set_is_finite(esis);
    vstd::set_lib::lemma_len_subset(decoder.counted(), esis.to_set());
    law_completeness(decoder);
}

/// The precode stands in for a lost symbol: when every source symbol but `j`
/// has arrived, the LDPC check over `j` fills the gap, and the decoder is
/// complete and gives back the payload.
pub proof fn law_ldpc_check_fills_a_gap(
    payload: Seq<u8>,
    size: nat,
    table: Seq<u64>,
    esis: Seq<u32>,
    j: nat,
)
    requires
        encodable(payload, size),
        checks_end(block_count(payload.len(), size)),
        j < block_count(payload.len(), size),
        ({
            let k = block_count(payload.len(), size);
            let check = k + j % ldpc_count(k);
            &&& check <= u32::MAX
            &&& esis.contains(check as u32)
            &&& forall|i: u32| i < k && i != j ==> #[trigger] esis.contains(i)
        }),
    ensures
        ({
            let encoder = EncoderView::of(payload, size, table);
            let decoder = fed(matching_decoder(encoder), encoder, esis);
            &&& decoder.complete()
            &&& decoder.reconstruct() == Ok::<Seq<u8>, DecoderError>(payload)
        }),
{
    let encoder = EncoderView::of(payload, size, table);
    let decoder = fed(matching_decoder(encoder), encoder, esis);
    let k = encoder.k;
    let s = ldpc_count(k);
    let l = total_inputs(k);
    let p = (j % s) as int;
    let check = (k + p) as usize;
    let r = decoder.state.resolved.dom();
    let equations = equations_of(k, table, esis.to_set());
    lemma_block_count_positive(payload.len(), size);
    lemma_inputs_sized(payload, size);
    law_decoder_peels(payload, size, table, esis);
    law_resolved_inputs_are_true(payload, size, table, esis);
    lemma_index_split(j as int, s as int);
    assert(p < s);
    assert(esis.contains(check as u32));
    lemma_systematic_resolves(r, k, table, esis.to_set(), check as u32);
    assert forall|i: usize| i < k && i != j implies r.contains(i) by {
        assert(esis.contains(i as u32));
        lemma_systematic_resolves(r, k, table, esis.to_set(), i as u32);
    }
    let e = constraints(k, 0)[p]->0.neighbors;
    assert(is_check(k, e));
    assert((j - p) % (s as int) == 0) by {
        vstd::arithmetic::div_mod::lemma_fundamental_div_mod_converse(
            j - p,
            s as int,
            j as int / s as int,
            0,
        );
    }
    assert(ldpc_neighbors(k, s, p as nat).contains(j as usize));
    lemma_last_input(r, equations, e, j as usize);
    assert forall|i: usize| i < k implies r.contains(i) by {
        if i != j {
            assert(r.contains(i));
        }
    }
    lemma_sources_lead_to_all(r, k, equations);
    lemma_all_below(r, l);
    law_complete_decoder_returns_payload(payload, size, table, esis);
}

/// A received symbol of the systematic phase resolves its input.
proof fn lemma_systematic_resolves(
    r: Set<usize>,
    k: nat,
    table: Seq<u64>,
    esis: Set<u32>,
    esi: u32,
)
    requires
        total_inputs(k) <= usize::MAX,
        peeled(r, equations_of(k, table, esis)),
        esis.contains(esi),
        esi < total_inputs(k),
    ensures
        r.contains(esi as usize),
{
    let e = lt_neighbors(total_inputs(k) as usize, table, esi);
    assert(is_mixed(k, table, esis, e));
    lemma_last_input(r, equations_of(k, table, esis), e, esi as usize);
}

/// A symbol of the systematic phase carries one input unmixed: a source block
/// first, then the precode checks.
pub proof fn law_systematic_symbols(payload: Seq<u8>, size: nat, table: Seq<u64>, esi: u32)
    requires
        encodable(payload, size),
        esi < total_inputs(block_count(payload.len(), size)),
    ensures
        EncoderView::of(payload, size, table).symbol(esi) == payload_inputs(
            payload,
            size,
        )[esi as int],
        esi < block_count(payload.len(), size) ==> EncoderView::of(payload, size, table).symbol(esi)
            == source_block(payload, size, esi as nat),
{
    let x = payload_inputs(payload, size);
    lemma_inputs_sized(payload, size);
    assert(x[esi as int].len() == size);
    lemma_xor_sum_singleton(x, size, esi as usize);
    if esi < block_count(payload.len(), size) {
        assert(x[esi as int] == source_blocks(payload, size)[esi as int]);
    }
}

/// What a decoder hands out is complete and has the expected checksum.
pub proof fn law_delivered_payload_has_the_checksum(decoder: DecoderView, payload: Seq<u8>)
    requires
        decoder.reconstruct() == Ok::<Seq<u8>, DecoderError>(payload),
    ensures
        decoder.complete(),
        xxh3(payload) == decoder.checksum,
{
}

/// Once a decoder is complete, no symbol changes it any more.
pub proof fn law_complete_decoder_stays(decoder: DecoderView, esi: u32, data: Seq<u8>)
    requires
        decoder.complete(),
    ensures
        decoder.add_symbol(esi, data) == decoder,
{
}

/// A symbol that arrives again changes nothing, whatever it carries.
pub proof fn law_duplicates_change_nothing(
    decoder: DecoderView,
    esi: u32,
    data: Seq<u8>,
    again: Seq<u8>,
)
    ensures
        decoder.add_symbol(esi, data).add_symbol(esi, again) == decoder.add_symbol(esi, data),
{
}

} // verus!
