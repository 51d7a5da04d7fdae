//! How far a decoder has come: what symbols add, and what they cannot take
//! away.
use crate::decoder::{constraints, DecoderView};
use crate::peel::{
    ingest, lemma_sweep, peel_step, ripple, start, sweep, visit, well_formed,
    Equation, PeelState,
};
use crate::precode::{hdpc_count, ldpc_count};
use crate::recovery::{in_range, lemma_lt_in_range, lemma_peel_step, lemma_start};
use crate::soliton::lt_neighbors;
use vstd::prelude::*;

verus! {

/// The number of slots with an open equation.
pub open spec fn open_slots(equations: Seq<Option<Equation>>) -> nat
    decreases equations.len(),
{
    if equations.len() == 0 {
        0
    } else {
        open_slots(equations.drop_last()) + (if equations.last() is Some {
            1nat
        } else {
            0nat
        })
    }
}

/// What a state got out of its equations and what it can still get: the
/// resolved inputs and the open equations.
pub open spec fn yield_of(st: PeelState) -> nat {
    st.resolved.dom().len() + open_slots(st.equations)
}

/// Changing a slot changes the number of open ones by that slot.
proof fn lemma_open_update(equations: Seq<Option<Equation>>, p: int, slot: Option<Equation>)
    requires
        0 <= p < equations.len(),
    ensures
        open_slots(equations.update(p, slot)) + (if equations[p] is Some {
            1nat
        } else {
            0nat
        }) == open_slots(equations) + (if slot is Some {
            1nat
        } else {
            0nat
        }),
    decreases equations.len(),
{
    let after = equations.update(p, slot);
    if p == equations.len() - 1 {
        assert(after.drop_last() =~= equations.drop_last());
    } else {
        assert(after.drop_last() =~= equations.drop_last().update(p, slot));
        lemma_open_update(equations.drop_last(), p, slot);
    }
}

/// A list of open equations has as many open slots as it is long.
proof fn lemma_all_open(equations: Seq<Option<Equation>>)
    requires
        forall|p: int| 0 <= p < equations.len() ==> equations[p] is Some,
    ensures
        open_slots(equations) == equations.len(),
    decreases equations.len(),
{
    if equations.len() > 0 {
        lemma_all_open(equations.drop_last());
    }
}

/// A visit that resolves an input uses up an equation.
proof fn lemma_visit_yield(st: PeelState, slot: int, idx: usize)
    requires
        st.resolved.dom().finite(),
        0 <= slot < st.equations.len(),
    ensures
        yield_of(visit(st, slot, idx)) <= yield_of(st),
{
    if let Some(eq) = st.equations[slot] {
        if eq.neighbors.contains(idx) {
            let after = visit(st, slot, idx);
            lemma_open_update(st.equations, slot, after.equations[slot]);
            let last = eq.neighbors.remove(idx).choose();
            assert(st.resolved.insert(last, after.resolved[last]).dom() =~= st.resolved.dom().insert(
                last,
            ));
        }
    }
}

/// A sweep resolves no more inputs than it uses up equations.
proof fn lemma_sweep_yield(st: PeelState, idx: usize, n: nat, l: nat, size: nat)
    requires
        well_formed(st, l, size),
        n <= st.equations.len(),
        st.resolved.contains_key(idx),
    ensures
        yield_of(sweep(st, idx, n)) <= yield_of(st),
    decreases n,
{
    if n > 0 {
        let m = (n - 1) as nat;
        lemma_sweep_yield(st, idx, m, l, size);
        lemma_sweep(st, idx, m, l, size);
        lemma_visit_yield(sweep(st, idx, m), m as int, idx);
    }
}

/// Whether `after` has all that `before` has resolved, with the same values.
pub open spec fn keeps(before: PeelState, after: PeelState) -> bool {
    forall|i: usize| #[trigger]
        before.resolved.contains_key(i) ==> after.resolved.contains_key(i) && after.resolved[i]
            == before.resolved[i]
}

/// A ripple keeps what is resolved, and resolves no more inputs than it uses up
/// equations.
pub proof fn lemma_ripple_keeps(st: PeelState, fuel: nat, l: nat, size: nat)
    requires
        well_formed(st, l, size),
    ensures
        well_formed(ripple(st, fuel), l, size),
        keeps(st, ripple(st, fuel)),
        yield_of(ripple(st, fuel)) <= yield_of(st),
    decreases fuel,
{
    if fuel > 0 && st.queue.len() > 0 {
        let popped = PeelState { queue: st.queue.drop_first(), ..st };
        let next = peel_step(st);
        lemma_peel_step(st, l, size);
        lemma_sweep_yield(popped, st.queue.first(), st.equations.len(), l, size);
        lemma_ripple_keeps(next, (fuel - 1) as nat, l, size);
        let last = ripple(st, fuel);
        assert forall|i: usize| #[trigger] st.resolved.contains_key(i) implies
            last.resolved.contains_key(i) && last.resolved[i] == st.resolved[i] by {
            assert(popped.resolved.contains_key(i));
            assert(next.resolved.contains_key(i));
        }
    }
}

/// Taking in an equation keeps what is resolved and yields at most one input
/// or one open equation more.
proof fn lemma_start_keeps(st: PeelState, neighbors: Set<usize>, data: Seq<u8>, l: nat, size: nat)
    requires
        well_formed(st, l, size),
        in_range(neighbors, l),
    ensures
        keeps(st, start(st, neighbors, data, l, size)),
        yield_of(start(st, neighbors, data, l, size)) <= yield_of(st) + 1,
{
    let after = start(st, neighbors, data, l, size);
    let open = neighbors.difference(st.resolved.dom());
    if open.len() == 1 {
        let last = open.choose();
        assert(open.contains(last)) by {
            if open =~= Set::<usize>::empty() {
            }
        }
        assert(after.resolved.dom() =~= st.resolved.dom().insert(last));
    } else if open.len() > 0 {
        assert(after.equations.drop_last() =~= st.equations);
    }
}

/// Taking in an equation and peeling keeps a state well formed and what it has
/// resolved, and yields at most one input or one open equation more.
pub proof fn lemma_ingest_keeps(
    st: PeelState,
    neighbors: Set<usize>,
    data: Seq<u8>,
    l: nat,
    size: nat,
)
    requires
        well_formed(st, l, size),
        in_range(neighbors, l),
        data.len() == size,
    ensures
        well_formed(ingest(st, neighbors, data, l, size), l, size),
        keeps(st, ingest(st, neighbors, data, l, size)),
        yield_of(ingest(st, neighbors, data, l, size)) <= yield_of(st) + 1,
{
    let started = start(st, neighbors, data, l, size);
    lemma_start(st, neighbors, data, l, size);
    lemma_start_keeps(st, neighbors, data, l, size);
    lemma_ripple_keeps(started, l, l, size);
    let after = ripple(started, l);
    assert forall|i: usize| #[trigger] st.resolved.contains_key(i) implies
        after.resolved.contains_key(i) && after.resolved[i] == st.resolved[i] by {
        assert(started.resolved.contains_key(i));
    }
}

/// The precode checks are all open at first.
pub proof fn lemma_checks_yield(k: nat, size: nat)
    ensures
        open_slots(constraints(k, size)) == ldpc_count(k) + hdpc_count(k),
{
    lemma_all_open(constraints(k, size));
}

/// Progress is never lost: a symbol, whatever it carries, leaves every resolved input resolved with the value it had, so the number of
/// resolved inputs does not fall and a complete decoder stays complete.
pub proof fn law_progress_is_kept(decoder: DecoderView, esi: u32, data: Seq<u8>)
    requires
        decoder.k > 0,
        decoder.inputs() <= usize::MAX,
        well_formed(decoder.state, decoder.inputs(), decoder.symbol_size),
    ensures
        decoder.grows_to(decoder.add_symbol(esi, data)),
        well_formed(
            decoder.add_symbol(esi, data).state,
            decoder.inputs(),
            decoder.symbol_size,
        ),
{
    let after = decoder.add_symbol(esi, data);
    if !decoder.ignores(esi) && data.len() == decoder.symbol_size {
        let l = decoder.inputs();
        let neighbors = lt_neighbors(l as usize, decoder.table, esi);
        lemma_lt_in_range(l as usize, decoder.table, esi);
        lemma_ingest_keeps(decoder.state, neighbors, data, l, decoder.symbol_size);
        vstd::set_lib::lemma_len_subset(
            decoder.state.resolved.dom(),
            after.state.resolved.dom(),
        );
    }
}

} // verus!
