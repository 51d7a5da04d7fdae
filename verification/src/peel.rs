//! The peeling process: what a decoder knows, and what one more symbol teaches
//! it.
use crate::blocks::{xor_sum, zero_block};
use crate::simd::xor_bytes;
use vstd::prelude::*;

verus! {

/// The XOR of the inputs in `neighbors` is `data`.
#[verifier::ext_equal]
pub struct Equation {
    pub neighbors: Set<usize>,
    pub data: Seq<u8>,
}

/// Resolved inputs, the equations still open (slot by slot; `None` is a slot
/// whose equation is used up), and the resolved inputs that have not been
/// cancelled from the equations yet.
#[verifier::ext_equal]
pub struct PeelState {
    pub resolved: Map<usize, Seq<u8>>,
    pub equations: Seq<Option<Equation>>,
    pub queue: Seq<usize>,
}

/// Cancels the resolved input `idx` from the equation in `slot`. An equation
/// that is left with one unresolved input resolves it; one that is left with
/// none is used up.
pub open spec fn visit(st: PeelState, slot: int, idx: usize) -> PeelState {
    match st.equations[slot] {
        None => st,
        Some(eq) => if !eq.neighbors.contains(idx) {
            st
        } else {
            let rest = Equation {
                neighbors: eq.neighbors.remove(idx),
                data: xor_bytes(eq.data, st.resolved[idx]),
            };
            let last = rest.neighbors.choose();
            if rest.neighbors.len() == 1 && !st.resolved.contains_key(last) {
                PeelState {
                    resolved: st.resolved.insert(last, rest.data),
                    equations: st.equations.update(slot, None),
                    queue: st.queue.push(last),
                }
            } else if rest.neighbors.len() == 0 {
                PeelState { equations: st.equations.update(slot, None), ..st }
            } else {
                PeelState { equations: st.equations.update(slot, Some(rest)), ..st }
            }
        },
    }
}

/// Cancels the resolved input `idx` from the equations in the slots below `n`,
/// one after the other.
pub open spec fn sweep(st: PeelState, idx: usize, n: nat) -> PeelState
    decreases n,
{
    if n == 0 {
        st
    } else {
        visit(sweep(st, idx, (n - 1) as nat), n - 1, idx)
    }
}

/// Cancels the first queued input from all equations.
pub open spec fn peel_step(st: PeelState) -> PeelState {
    sweep(
        PeelState { queue: st.queue.drop_first(), ..st },
        st.queue.first(),
        st.equations.len(),
    )
}

/// Cancels queued inputs, first in first out, until none is left or `fuel` of
/// them have been handled.
pub open spec fn ripple(st: PeelState, fuel: nat) -> PeelState
    decreases fuel,
{
    if fuel == 0 || st.queue.len() == 0 {
        st
    } else {
        ripple(peel_step(st), (fuel - 1) as nat)
    }
}

/// The inputs that are resolved, with zero blocks in place of the others.
pub open spec fn known(resolved: Map<usize, Seq<u8>>, l: nat, size: nat) -> Seq<Seq<u8>> {
    Seq::new(
        l,
        |i: int|
            if resolved.contains_key(i as usize) {
                resolved[i as usize]
            } else {
                zero_block(size)
            },
    )
}

/// A new equation with what is resolved already cancelled from it: it resolves
/// an input, opens a slot, or says nothing new.
pub open spec fn start(st: PeelState, neighbors: Set<usize>, data: Seq<u8>, l: nat, size: nat) -> PeelState {
    let open = neighbors.difference(st.resolved.dom());
    let rest = xor_bytes(data, xor_sum(known(st.resolved, l, size), neighbors, size));
    if open.len() == 1 {
        PeelState {
            resolved: st.resolved.insert(open.choose(), rest),
            queue: st.queue.push(open.choose()),
            ..st
        }
    } else if open.len() > 0 {
        PeelState {
            equations: st.equations.push(Some(Equation { neighbors: open, data: rest })),
            ..st
        }
    } else {
        st
    }
}

/// Takes in the equation that the inputs in `neighbors` sum to `data`, and
/// resolves everything that follows by peeling.
pub open spec fn ingest(st: PeelState, neighbors: Set<usize>, data: Seq<u8>, l: nat, size: nat) -> PeelState {
    ripple(start(st, neighbors, data, l, size), l)
}

/// The element of a set with one element.
pub proof fn lemma_single(s: Set<usize>, x: usize)
    requires
        s.finite(),
        s.len() == 1,
        s.contains(x),
    ensures
        s.choose() == x,
        s == set![x],
{
    let y = s.choose();
    if y != x {
        assert(s.remove(x).len() == 0);
        assert(s.remove(x).contains(y));
        assert(s.remove(x) =~= Set::<usize>::empty());
    }
    assert forall|z: usize| s.contains(z) implies z == x by {
        if z != x {
            assert(s.remove(x).len() == 0);
            assert(s.remove(x).contains(z));
            assert(s.remove(x) =~= Set::<usize>::empty());
        }
    }
    assert(s =~= set![x]);
}

/// A sweep below `n` leaves the slots from `n` on alone.
pub proof fn lemma_sweep_untouched(st: PeelState, idx: usize, n: nat)
    requires
        n <= st.equations.len(),
    ensures
        sweep(st, idx, n).equations.len() == st.equations.len(),
        forall|p: int|
            n <= p < st.equations.len() ==> sweep(st, idx, n).equations[p] == st.equations[p],
    decreases n,
{
    if n > 0 {
        lemma_sweep_untouched(st, idx, (n - 1) as nat);
    }
}

/// Whether the equation in slot `p` mentions input `idx`.
pub open spec fn mentions(equations: Seq<Option<Equation>>, p: int, idx: usize) -> bool {
    equations[p] matches Some(eq) && eq.neighbors.contains(idx)
}

/// A sweep passes over slots that do not mention the input.
pub proof fn lemma_sweep_skip(st: PeelState, idx: usize, a: nat, b: nat)
    requires
        a <= b <= st.equations.len(),
        forall|p: int| a <= p < b ==> !#[trigger] mentions(st.equations, p, idx),
    ensures
        sweep(st, idx, a) == sweep(st, idx, b),
    decreases b - a,
{
    if a < b {
        lemma_sweep_skip(st, idx, a, (b - 1) as nat);
        lemma_sweep_untouched(st, idx, (b - 1) as nat);
        assert(!mentions(st.equations, b - 1, idx));
    }
}

/// Whether blocks have `size` bytes, inputs lie below `l`, sets are finite, and
/// queued inputs are resolved.
pub open spec fn well_formed(st: PeelState, l: nat, size: nat) -> bool {
    &&& st.resolved.dom().finite()
    &&& forall|i: usize| #[trigger]
        st.resolved.contains_key(i) ==> i < l && st.resolved[i].len() == size
    &&& forall|p: int|
        0 <= p < st.equations.len() ==> #[trigger] equation_ok(st.equations[p], l, size)
    &&& forall|q: int|
        0 <= q < st.queue.len() ==> st.resolved.contains_key(#[trigger] st.queue[q])
}

/// Whether an open equation has finitely many neighbors below `l` and `size`
/// bytes of data.
pub open spec fn equation_ok(slot: Option<Equation>, l: nat, size: nat) -> bool {
    slot matches Some(eq) ==> {
        &&& eq.neighbors.finite()
        &&& eq.data.len() == size
        &&& forall|n: usize| #[trigger] eq.neighbors.contains(n) ==> n < l
    }
}

/// How a state relates to an earlier one: resolved inputs keep their values,
/// each newly resolved input is queued once, and equations only lose inputs.
pub open spec fn extends(before: PeelState, after: PeelState) -> bool {
    &&& forall|i: usize| #[trigger]
        before.resolved.contains_key(i) ==> after.resolved.contains_key(i) && after.resolved[i]
            == before.resolved[i]
    &&& after.resolved.dom().len() - before.resolved.dom().len() == after.queue.len()
        - before.queue.len()
    &&& after.equations.len() == before.equations.len()
    &&& forall|p: int, n: usize|
        0 <= p < after.equations.len() && #[trigger] mentions(after.equations, p, n) ==> mentions(
            before.equations,
            p,
            n,
        )
}

/// A visit keeps a state well formed and removes the input from the slot.
pub proof fn lemma_visit(st: PeelState, slot: int, idx: usize, l: nat, size: nat)
    requires
        well_formed(st, l, size),
        0 <= slot < st.equations.len(),
        st.resolved.contains_key(idx),
    ensures
        well_formed(visit(st, slot, idx), l, size),
        extends(st, visit(st, slot, idx)),
        !mentions(visit(st, slot, idx).equations, slot, idx),
{
    let after = visit(st, slot, idx);
    assert(equation_ok(st.equations[slot], l, size));
    assert forall|p: int| 0 <= p < after.equations.len() implies #[trigger] equation_ok(
        after.equations[p],
        l,
        size,
    ) by {
        assert(equation_ok(st.equations[p], l, size));
    }
    if let Some(eq) = st.equations[slot] {
        if eq.neighbors.contains(idx) {
            let rest = eq.neighbors.remove(idx);
            let last = rest.choose();
            if rest.len() == 1 && !st.resolved.contains_key(last) {
                assert(rest.contains(last)) by {
                    if rest =~= Set::<usize>::empty() {
                    }
                }
                assert(after.resolved.dom() =~= st.resolved.dom().insert(last));
                assert forall|q: int| 0 <= q < after.queue.len() implies after.resolved.contains_key(
                    #[trigger] after.queue[q],
                ) by {
                    if q < st.queue.len() {
                        assert(st.resolved.contains_key(st.queue[q]));
                    }
                }
            }
        }
    }
    assert forall|p: int, n: usize|
        0 <= p < after.equations.len() && #[trigger] mentions(
            after.equations,
            p,
            n,
        ) implies mentions(st.equations, p, n) by {
        if p != slot {
            assert(after.equations[p] == st.equations[p]);
        }
    }
}

/// A sweep keeps a state well formed and removes the input from the slots it
/// covers.
pub proof fn lemma_sweep(st: PeelState, idx: usize, n: nat, l: nat, size: nat)
    requires
        well_formed(st, l, size),
        n <= st.equations.len(),
        st.resolved.contains_key(idx),
    ensures
        well_formed(sweep(st, idx, n), l, size),
        extends(st, sweep(st, idx, n)),
        forall|p: int| 0 <= p < n ==> !#[trigger] mentions(sweep(st, idx, n).equations, p, idx),
    decreases n,
{
    if n > 0 {
        let mid = sweep(st, idx, (n - 1) as nat);
        lemma_sweep(st, idx, (n - 1) as nat, l, size);
        lemma_visit(mid, n - 1, idx, l, size);
        let after = sweep(st, idx, n);
        assert forall|p: int| 0 <= p < n implies !#[trigger] mentions(after.equations, p, idx) by {
            if p < n - 1 {
                assert(!mentions(mid.equations, p, idx));
            }
        }
    }
}

/// The resolved inputs of a well formed state number at most `l`.
pub proof fn lemma_resolved_bound(st: PeelState, l: nat, size: nat)
    requires
        well_formed(st, l, size),
        l <= usize::MAX + 1,
    ensures
        st.resolved.dom().len() <= l,
{
    lemma_below(st.resolved.dom(), l);
}

/// A set of numbers below `l` has at most `l` elements; with `l` elements it
/// holds all of them.
pub proof fn lemma_below(s: Set<usize>, l: nat)
    requires
        s.finite(),
        forall|i: usize| s.contains(i) ==> i < l,
        l <= usize::MAX + 1,
    ensures
        s.len() <= l,
        s.len() == l ==> forall|i: usize| i < l ==> s.contains(i),
    decreases l,
{
    if l == 0 {
        assert(s =~= Set::<usize>::empty());
    } else {
        let top = (l - 1) as usize;
        lemma_below(s.remove(top), (l - 1) as nat);
        if s.len() == l {
            assert(s.contains(top));
            assert forall|i: usize| i < l implies s.contains(i) by {
                if i != top {
                    assert(s.remove(top).contains(i));
                }
            }
        }
    }
}

} // verus!
