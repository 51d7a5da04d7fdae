//! Fountain decoder.
use crate::blocks::{
    lemma_xor_algebra, lemma_xor_sum_empty, lemma_xor_sum_insert, xor_sum, zero_block,
};
use crate::checksum::{xxh3, xxh3_64};
use crate::encoder::{checks_end, checks_end_soon, EncodedSymbol};
use crate::peel::{
    equation_ok, ingest, known, lemma_below, lemma_resolved_bound, lemma_single, lemma_sweep,
    lemma_sweep_skip, lemma_sweep_untouched, mentions, peel_step, ripple, start, sweep, visit,
    well_formed, Equation, PeelState,
};
use crate::precode::{
    h_for, hdpc_count, hdpc_draws_end, hdpc_found, hdpc_inputs, hdpc_neighbors, ldpc_count, ldpc_neighbors,
    precode_neighbors, s_for, total_inputs,
};
use crate::progress::keeps;
use crate::recovery::{
    law_completeness, law_decoder_stays_settled, law_fresh_decoder_is_settled, settled,
};
use crate::simd::{xor_bytes, xor_inplace};
use crate::soliton::{lt_draws_end, lt_draws_end_soon, lt_neighbors, SolitonSampler};
use crate::stream::strictly_increasing;
use std::collections::{HashMap, HashSet, VecDeque};
use vstd::prelude::*;

verus! {

broadcast use vstd::std_specs::hash::group_hash_axioms;

/// Why a payload cannot be handed out.
#[derive(Debug, Clone, Copy, PartialEq, Eq)]
pub enum DecoderError {
    ChecksumMismatch { expected: u64, got: u64 },
    Incomplete { resolved: usize, total_required: usize },
}

/// Why a symbol cannot be taken in.
#[derive(Debug, Clone, Copy, PartialEq, Eq)]
pub enum SymbolError {
    /// `DRAW_LIMIT` draws do not yield the symbol's neighbors.
    DrawLimit,
    /// A block of one size would have to be XORed with one of another.
    Size,
}

/// A symbol of another size than the decoder's. It is kept, but nothing can be
/// cancelled from it.
#[derive(Debug)]
struct Misfit {
    esi: u32,
    neighbors: Vec<usize>,
}

/// The ESIs of kept symbols.
closed spec fn misfit_esis(misfits: Seq<Misfit>) -> Set<u32> {
    Set::new(|esi: u32| exists|p: int| 0 <= p < misfits.len() && #[trigger] misfits[p].esi == esi)
}

/// An active symbol equation in the peeling decoder.
#[derive(Debug)]
struct ActiveEquation {
    data: Vec<u8>,
    neighbors: HashSet<usize>,
}

/// The equation in a slot.
closed spec fn slot_view(slot: Option<ActiveEquation>) -> Option<Equation> {
    match slot {
        None => None,
        Some(eq) => Some(Equation { neighbors: eq.neighbors@, data: eq.data@ }),
    }
}

/// The equations in all slots.
closed spec fn slot_views(slots: Seq<Option<ActiveEquation>>) -> Seq<Option<Equation>> {
    Seq::new(slots.len(), |p: int| slot_view(slots[p]))
}

/// The contents of the resolved blocks.
closed spec fn resolved_views(resolved: Map<usize, Vec<u8>>) -> Map<usize, Seq<u8>> {
    Map::new(|i: usize| resolved.contains_key(i), |i: usize| resolved[i]@)
}

/// The peeling state that the parts of a decoder stand for.
closed spec fn parts(
    resolved: Map<usize, Vec<u8>>,
    slots: Seq<Option<ActiveEquation>>,
    queue: Seq<usize>,
) -> PeelState {
    PeelState { resolved: resolved_views(resolved), equations: slot_views(slots), queue }
}

/// The single element of a set.
fn only_element(set: &HashSet<usize>) -> (x: usize)
    requires
        set@.finite(),
        set@.len() == 1,
    ensures
        set@.contains(x),
        x == set@.choose(),
{
    for y in it: set.iter()
        invariant
            it.index() == 0,
            set@.finite(),
            set@.len() == 1,
    {
        proof {
            let keys = it.seq().unref();
            assert(keys.to_set() == set@);
            assert(keys[0] == *y);
            assert(keys.contains(*y));
            lemma_single(set@, *y);
        }
        return *y;
    }
    proof {
        assert(false);
    }
    0
}

/// Cancels the resolved input `idx` from the equation in `slot`.
fn visit_slot(
    equations: &mut Vec<Option<ActiveEquation>>,
    resolved: &mut HashMap<usize, Vec<u8>>,
    queue: &mut VecDeque<usize>,
    slot: usize,
    idx: usize,
    idx_data: &Vec<u8>,
    Ghost(l): Ghost<nat>,
    Ghost(size): Ghost<nat>,
)
    requires
        slot < old(equations)@.len(),
        well_formed(parts(old(resolved)@, old(equations)@, old(queue)@), l, size),
        old(resolved)@.contains_key(idx),
        old(resolved)@[idx]@ == idx_data@,
    ensures
        parts(final(resolved)@, final(equations)@, final(queue)@) == visit(
            parts(old(resolved)@, old(equations)@, old(queue)@),
            slot as int,
            idx,
        ),
{
    let ghost st = parts(resolved@, equations@, queue@);
    let ghost slots = equations@;
    proof {
        assert(st.equations[slot as int] == slot_view(slots[slot as int]));
        assert(equation_ok(st.equations[slot as int], l, size));
        assert(st.resolved.contains_key(idx));
        assert(st.resolved[idx] == idx_data@);
    }
    let mut cell: Option<ActiveEquation> = None;
    std::mem::swap(&mut cell, &mut equations[slot]);
    match cell {
        None => {
            proof {
                assert(equations@ =~= slots);
            }
        },
        Some(mut eq) => {
            if !eq.neighbors.remove(&idx) {
                proof {
                    assert(eq.neighbors@ =~= slots[slot as int]->0.neighbors@);
                }
                equations.set(slot, Some(eq));
                proof {
                    assert(slot_views(equations@) =~= slot_views(slots));
                }
            } else {
                xor_inplace(eq.data.as_mut_slice(), idx_data.as_slice());
                let ghost rest = Equation { neighbors: eq.neighbors@, data: eq.data@ };
                if eq.neighbors.len() == 1 {
                    let last: usize = only_element(&eq.neighbors);
                    if !resolved.contains_key(&last) {
                        resolved.insert(last, eq.data);
                        queue.push_back(last);
                        proof {
                            assert(resolved_views(resolved@) =~= st.resolved.insert(
                                last,
                                rest.data,
                            ));
                            assert(slot_views(equations@) =~= st.equations.update(
                                slot as int,
                                None,
                            ));
                        }
                    } else {
                        equations.set(slot, Some(eq));
                        proof {
                            assert(slot_views(equations@) =~= st.equations.update(
                                slot as int,
                                Some(rest),
                            ));
                        }
                    }
                } else if eq.neighbors.len() == 0 {
                    proof {
                        assert(slot_views(equations@) =~= st.equations.update(slot as int, None));
                    }
                } else {
                    equations.set(slot, Some(eq));
                    proof {
                        assert(slot_views(equations@) =~= st.equations.update(
                            slot as int,
                            Some(rest),
                        ));
                    }
                }
            }
        },
    }
}

/// Whether each list of the reverse index is increasing and within the slots,
/// and every open equation is listed under each input it mentions.
closed spec fn index_ok(rev: Seq<Vec<usize>>, equations: Seq<Option<Equation>>) -> bool {
    &&& forall|n: int| 0 <= n < rev.len() ==> strictly_increasing((#[trigger] rev[n])@)
    &&& forall|n: int, q: int|
        0 <= n < rev.len() && 0 <= q < rev[n]@.len() ==> #[trigger] rev[n]@[q] < equations.len()
    &&& forall|p: int, n: usize|
        0 <= p < equations.len() && #[trigger] mentions(equations, p, n) ==> n < rev.len()
            && rev[n as int]@.contains(p as usize)
}

/// Cancels the resolved input `idx` from every equation that mentions it.
fn cancel(
    equations: &mut Vec<Option<ActiveEquation>>,
    resolved: &mut HashMap<usize, Vec<u8>>,
    queue: &mut VecDeque<usize>,
    rev: &mut Vec<Vec<usize>>,
    idx: usize,
    Ghost(l): Ghost<nat>,
    Ghost(size): Ghost<nat>,
)
    requires
        well_formed(parts(old(resolved)@, old(equations)@, old(queue)@), l, size),
        old(resolved)@.contains_key(idx),
        idx < old(rev)@.len(),
        index_ok(old(rev)@, parts(old(resolved)@, old(equations)@, old(queue)@).equations),
    ensures
        parts(final(resolved)@, final(equations)@, final(queue)@) == sweep(
            parts(old(resolved)@, old(equations)@, old(queue)@),
            idx,
            old(equations)@.len(),
        ),
        well_formed(parts(final(resolved)@, final(equations)@, final(queue)@), l, size),
        final(rev)@.len() == old(rev)@.len(),
        index_ok(final(rev)@, parts(final(resolved)@, final(equations)@, final(queue)@).equations),
{
    let ghost st = parts(resolved@, equations@, queue@);
    let ghost rev_before = rev@;
    let total: usize = equations.len();
    let idx_data: Vec<u8> = match resolved.get(&idx) {
        Some(block) => {
            let copy = block.clone();
            assert(copy@ =~= block@);
            copy
        },
        None => Vec::new(),
    };
    let mut slots: Vec<usize> = Vec::new();
    std::mem::swap(&mut slots, &mut rev[idx]);
    let ghost first: nat = if slots@.len() > 0 {
        slots@[0] as nat
    } else {
        total as nat
    };
    proof {
        assert(rev@ == rev_before.update(idx as int, rev@[idx as int]));
        assert(slots@ == rev_before[idx as int]@);
        assert(strictly_increasing(rev_before[idx as int]@));
        assert(st.equations.len() == total);
        assert forall|p: int| 0 <= p < first implies !#[trigger] mentions(
            st.equations,
            p,
            idx,
        ) by {
            if mentions(st.equations, p, idx) {
                assert(rev_before[idx as int]@.contains(p as usize));
                let q = choose|q: int| 0 <= q < slots@.len() && slots@[q] == p as usize;
                assert(slots@[0] <= slots@[q]);
            }
        }
        if slots@.len() > 0 {
            assert(rev_before[idx as int]@[0] < st.equations.len());
        }
        lemma_sweep_skip(st, idx, 0, first);
    }
    let mut i: usize = 0;
    while i < slots.len()
        invariant
            i <= slots@.len(),
            total == equations@.len() == st.equations.len(),
            well_formed(st, l, size),
            st.resolved.contains_key(idx),
            st.resolved[idx] == idx_data@,
            strictly_increasing(slots@),
            forall|q: int| 0 <= q < slots@.len() ==> #[trigger] slots@[q] < total,
            forall|p: int|
                0 <= p < total && #[trigger] mentions(st.equations, p, idx) ==> slots@.contains(
                    p as usize,
                ),
            parts(resolved@, equations@, queue@) == sweep(
                st,
                idx,
                (if i < slots@.len() {
                    slots@[i as int] as nat
                } else {
                    total as nat
                }),
            ),
        decreases slots@.len() - i,
    {
        let slot: usize = slots[i];
        proof {
            lemma_sweep(st, idx, slot as nat, l, size);
            let now = parts(resolved@, equations@, queue@);
            assert(now.resolved.contains_key(idx));
            assert(now.resolved[idx] == idx_data@);
        }
        visit_slot(equations, resolved, queue, slot, idx, &idx_data, Ghost(l), Ghost(size));
        proof {
            let next: nat = if i + 1 < slots@.len() {
                slots@[i + 1] as nat
            } else {
                total as nat
            };
            assert(parts(resolved@, equations@, queue@) == sweep(st, idx, (slot + 1) as nat));
            assert(equations@.len() == total) by {
                lemma_sweep_untouched(st, idx, (slot + 1) as nat);
                assert(parts(resolved@, equations@, queue@).equations.len() == equations@.len());
            }
            assert(slot + 1 <= next) by {
                if i + 1 < slots@.len() {
                    assert(slots@[i as int] < slots@[i + 1]);
                }
            }
            assert forall|p: int| slot + 1 <= p < next implies !#[trigger] mentions(
                st.equations,
                p,
                idx,
            ) by {
                if mentions(st.equations, p, idx) {
                    assert(slots@.contains(p as usize));
                    let q = choose|q: int| 0 <= q < slots@.len() && slots@[q] == p as usize;
                    if q <= i {
                        assert(slots@[q] <= slots@[i as int]);
                    } else {
                        assert(slots@[i + 1] <= slots@[q]);
                    }
                }
            }
            lemma_sweep_skip(st, idx, (slot + 1) as nat, next);
        }
        i = i + 1;
    }
    proof {
        lemma_sweep(st, idx, total as nat, l, size);
        let now = parts(resolved@, equations@, queue@);
        assert forall|p: int, n: usize|
            0 <= p < now.equations.len() && #[trigger] mentions(now.equations, p, n) implies n
            < rev@.len() && rev@[n as int]@.contains(p as usize) by {
            assert(mentions(st.equations, p, n));
            assert(n != idx);
            assert(rev@[n as int] == rev_before[n as int]);
        }
        assert forall|n: int| 0 <= n < rev@.len() implies strictly_increasing(
            (#[trigger] rev@[n])@,
        ) by {
            if n != idx {
                assert(rev@[n] == rev_before[n]);
            }
        }
        assert forall|n: int, q: int| 0 <= n < rev@.len() && 0 <= q < rev@[n]@.len() implies
            #[trigger] rev@[n]@[q] < now.equations.len() by {
            if n != idx {
                assert(rev@[n] == rev_before[n]);
                assert(rev_before[n]@[q] < st.equations.len());
            }
        }
    }
}

/// XORs into `data` the listed inputs that are resolved, and returns the
/// others.
fn cancel_known(
    resolved: &HashMap<usize, Vec<u8>>,
    list: &Vec<usize>,
    data: &mut Vec<u8>,
    Ghost(l): Ghost<nat>,
    Ghost(size): Ghost<nat>,
) -> (open: HashSet<usize>)
    requires
        l <= usize::MAX,
        strictly_increasing(list@),
        forall|p: int| 0 <= p < list@.len() ==> #[trigger] list@[p] < l,
        old(data)@.len() == size,
        forall|i: usize| #[trigger]
            resolved@.contains_key(i) ==> i < l && resolved@[i]@.len() == size,
    ensures
        final(data)@ == xor_bytes(
            old(data)@,
            xor_sum(known(resolved_views(resolved@), l, size), list@.to_set(), size),
        ),
        final(data)@.len() == size,
        open@ == list@.to_set().difference(resolved_views(resolved@).dom()),
        open@.finite(),
        forall|n: usize| open@.contains(n) ==> list@.contains(n) && n < l,
{
    let ghost table = known(resolved_views(resolved@), l, size);
    let ghost dom = resolved_views(resolved@).dom();
    let ghost given = data@;
    let mut open: HashSet<usize> = HashSet::new();
    let mut p: usize = 0;
    proof {
        lemma_xor_sum_empty(table, size);
        assert(list@.take(0).to_set() =~= Set::<usize>::empty());
        assert forall|b: int| 0 <= b < size implies given[b] ^ 0u8 == given[b] by {
            lemma_xor_algebra(given[b], 0, 0);
        }
        assert(given =~= xor_bytes(given, zero_block(size)));
        assert(open@ =~= list@.take(0).to_set().difference(dom));
    }
    while p < list.len()
        invariant
            p <= list@.len(),
            l <= usize::MAX,
            strictly_increasing(list@),
            forall|q: int| 0 <= q < list@.len() ==> #[trigger] list@[q] < l,
            forall|i: usize| #[trigger]
                resolved@.contains_key(i) ==> i < l && resolved@[i]@.len() == size,
            table == known(resolved_views(resolved@), l, size),
            dom == resolved_views(resolved@).dom(),
            given.len() == size,
            data@.len() == size,
            data@ == xor_bytes(given, xor_sum(table, list@.take(p as int).to_set(), size)),
            open@ == list@.take(p as int).to_set().difference(dom),
            open@.finite(),
            forall|n: usize| open@.contains(n) ==> list@.contains(n) && n < l,
        decreases list@.len() - p,
    {
        let n: usize = list[p];
        let ghost before = list@.take(p as int).to_set();
        let ghost after = list@.take(p + 1).to_set();
        proof {
            let a = list@.take(p as int);
            let b = list@.take(p + 1);
            assert(b =~= a.push(n));
            assert forall|x: usize| after.contains(x) <==> before.insert(n).contains(x) by {
                if a.contains(x) {
                    let q = choose|q: int| 0 <= q < a.len() && a[q] == x;
                    assert(b[q] == x);
                }
                assert(b[p as int] == n);
            }
            assert(after =~= before.insert(n));
            assert(table[n as int].len() == size);
            lemma_xor_sum_insert(table, before, size, n);
            let sum = xor_sum(table, before, size);
            assert forall|i: int| 0 <= i < size implies (given[i] ^ sum[i]) ^ table[n as int][i]
                == given[i] ^ (sum[i] ^ table[n as int][i]) by {
                lemma_xor_algebra(given[i], sum[i], table[n as int][i]);
            }
            assert(xor_bytes(data@, table[n as int]) =~= xor_bytes(
                given,
                xor_sum(table, after, size),
            ));
        }
        match resolved.get(&n) {
            Some(block) => {
                xor_inplace(data.as_mut_slice(), block.as_slice());
                proof {
                    assert(dom.contains(n));
                    assert(open@ =~= after.difference(dom));
                }
            },
            None => {
                open.insert(n);
                proof {
                    assert(!dom.contains(n));
                    assert(table[n as int] == zero_block(size));
                    assert forall|i: int| 0 <= i < size implies data@[i] ^ 0u8 == data@[i] by {
                        lemma_xor_algebra(data@[i], 0, 0);
                    }
                    assert(xor_bytes(data@, table[n as int]) =~= data@);
                    assert(open@ =~= after.difference(dom));
                    assert(list@.contains(n)) by {
                        assert(list@[p as int] == n);
                    }
                }
            },
        }
        p = p + 1;
    }
    proof {
        assert(list@.take(list@.len() as int) =~= list@);
    }
    open
}

/// The elements of a list, as a set.
fn to_set(list: &Vec<usize>) -> (set: HashSet<usize>)
    ensures
        set@ == list@.to_set(),
        set@.finite(),
{
    let mut set: HashSet<usize> = HashSet::new();
    let mut p: usize = 0;
    proof {
        assert(set@ =~= list@.take(0).to_set());
    }
    while p < list.len()
        invariant
            p <= list@.len(),
            set@ == list@.take(p as int).to_set(),
            set@.finite(),
        decreases list@.len() - p,
    {
        set.insert(list[p]);
        proof {
            lemma_push_to_set(list@.take(p as int), list@[p as int]);
            assert(list@.take(p + 1) =~= list@.take(p as int).push(list@[p as int]));
        }
        p = p + 1;
    }
    proof {
        assert(list@.take(list@.len() as int) =~= list@);
    }
    set
}

/// Appending an element to a list adds it to the set of its elements.
proof fn lemma_push_to_set(list: Seq<usize>, x: usize)
    ensures
        list.push(x).to_set() == list.to_set().insert(x),
{
    let longer = list.push(x);
    assert forall|y: usize| longer.to_set().contains(y) <==> list.to_set().insert(x).contains(y) by {
        if list.contains(y) {
            let q = choose|q: int| 0 <= q < list.len() && list[q] == y;
            assert(longer[q] == y);
        }
        if longer.contains(y) {
            let q = choose|q: int| 0 <= q < longer.len() && longer[q] == y;
            if q < list.len() {
                assert(list[q] == y);
            }
        }
        assert(longer[list.len() as int] == x);
    }
    assert(longer.to_set() =~= list.to_set().insert(x));
}

/// An increasing list below `m`, with a larger number below `l` appended.
proof fn lemma_listed(list: Seq<usize>, x: usize, m: nat, l: nat)
    requires
        strictly_increasing(list),
        forall|y: usize| list.to_set().contains(y) ==> y < m,
        m <= x < l,
    ensures
        strictly_increasing(list.push(x)),
        list.push(x).to_set() == list.to_set().insert(x),
        forall|y: usize|
            list.push(x).to_set().contains(y) ==> list.push(x).contains(y) && y < l,
{
    lemma_push_to_set(list, x);
    assert forall|q: int| 0 <= q < list.len() implies list[q] < m by {
        assert(list.to_set().contains(list[q]));
    }
}

/// The constraint equations of the precode: each check block XORed with the
/// inputs it covers gives zero.
pub open spec fn constraints(k: nat, size: nat) -> Seq<Option<Equation>> {
    let s = ldpc_count(k);
    let l = (k + s) as usize;
    Seq::new(
        s,
        |i: int|
            Some(
                Equation {
                    neighbors: ldpc_neighbors(k, s, i as nat).insert((k + i) as usize),
                    data: zero_block(size),
                },
            ),
    ) + Seq::new(
        hdpc_count(k),
        |i: int|
            Some(
                Equation {
                    neighbors: hdpc_inputs(l, i as usize).insert((l + i) as usize),
                    data: zero_block(size),
                },
            ),
    )
}

/// What a decoder holds.
#[verifier::ext_equal]
pub struct DecoderView {
    pub payload_len: nat,
    pub symbol_size: nat,
    pub k: nat,
    pub checksum: u64,
    pub table: Seq<u64>,
    pub state: PeelState,
    pub received: Set<u32>,
    /// Those received symbols whose data has another size.
    pub misfits: Set<u32>,
}

impl DecoderView {
    /// A decoder that has received nothing.
    pub open spec fn fresh(payload_len: nat, size: nat, k: nat, checksum: u64, table: Seq<u64>) -> DecoderView {
        DecoderView {
            payload_len,
            symbol_size: size,
            k,
            checksum,
            table,
            state: PeelState {
                resolved: Map::empty(),
                equations: constraints(k, size),
                queue: Seq::empty(),
            },
            received: Set::empty(),
            misfits: Set::empty(),
        }
    }

    /// The number of inputs K + S + H.
    pub open spec fn inputs(self) -> nat {
        total_inputs(self.k)
    }

    /// The number of resolved inputs.
    pub open spec fn resolved_count(self) -> nat {
        self.state.resolved.dom().len()
    }

    /// Whether all inputs are resolved.
    pub open spec fn complete(self) -> bool {
        self.resolved_count() >= self.inputs()
    }

    /// Whether a symbol would change nothing: all is resolved, or its ESI came
    /// before.
    pub open spec fn ignores(self, esi: u32) -> bool {
        self.complete() || self.received.contains(esi)
    }

    /// The inputs that a symbol mixes.
    pub open spec fn neighbors(self, esi: u32) -> Set<usize> {
        lt_neighbors(self.inputs() as usize, self.table, esi)
    }

    /// The received symbols that take part in decoding.
    pub open spec fn counted(self) -> Set<u32> {
        self.received.difference(self.misfits)
    }

    /// The inputs that occur in a symbol of another size.
    pub open spec fn held(self) -> Set<usize> {
        Set::new(
            |i: usize|
                exists|esi: u32|
                    self.misfits.contains(esi) && #[trigger] self.neighbors(esi).contains(i),
        )
    }

    /// The decoder after one more symbol. A symbol of another size is kept as an
    /// equation from which nothing can be cancelled.
    pub open spec fn add_symbol(self, esi: u32, data: Seq<u8>) -> DecoderView {
        if self.ignores(esi) {
            self
        } else if data.len() == self.symbol_size {
            DecoderView {
                state: ingest(
                    self.state,
                    self.neighbors(esi),
                    data,
                    self.inputs(),
                    self.symbol_size,
                ),
                received: self.received.insert(esi),
                ..self
            }
        } else {
            DecoderView {
                received: self.received.insert(esi),
                misfits: self.misfits.insert(esi),
                ..self
            }
        }
    }

    /// Whether one more symbol would have a block of one size XORed with one of
    /// another: the symbol resolves an input of a kept symbol of another size,
    /// or is itself of another size and mixes a resolved input, or only a
    /// single one, which precode checks cover.
    pub open spec fn clashes(self, esi: u32, data: Seq<u8>) -> bool {
        if self.ignores(esi) {
            false
        } else if data.len() == self.symbol_size {
            !self.held().disjoint(self.add_symbol(esi, data).state.resolved.dom())
        } else {
            self.neighbors(esi).len() == 1 || !self.neighbors(esi).disjoint(
                self.state.resolved.dom(),
            )
        }
    }

    /// The decoder after a symbol that clashes: one of another size is left out.
    pub open spec fn after_clash(self, esi: u32, data: Seq<u8>) -> DecoderView {
        if data.len() == self.symbol_size {
            self.add_symbol(esi, data)
        } else {
            self
        }
    }

    /// The decoder after one more symbol, and whether it is complete, or why the
    /// symbol cannot be taken in.
    pub open spec fn try_add_symbol(self, esi: u32, data: Seq<u8>) -> (
        DecoderView,
        Result<bool, SymbolError>,
    ) {
        if !self.ignores(esi) && !lt_draws_end_soon(self.inputs() as usize, self.table, esi) {
            (self, Err(SymbolError::DrawLimit))
        } else if self.clashes(esi, data) {
            (self.after_clash(esi, data), Err(SymbolError::Size))
        } else {
            (self.add_symbol(esi, data), Ok(self.add_symbol(esi, data).complete()))
        }
    }

    /// Whether `after` has all that this decoder has: the same transfer, every
    /// resolved input with its value, and every ESI that was received.
    pub open spec fn grows_to(self, after: DecoderView) -> bool {
        &&& after == DecoderView {
            state: after.state,
            received: after.received,
            misfits: after.misfits,
            ..self
        }
        &&& keeps(self.state, after.state)
        &&& self.received.subset_of(after.received)
        &&& self.misfits.subset_of(after.misfits)
        &&& self.resolved_count() <= after.resolved_count()
        &&& self.complete() ==> after.complete()
    }

    /// The number of payload bytes that K blocks can hold.
    pub open spec fn assembled_len(self) -> nat {
        if self.payload_len <= self.k * self.symbol_size {
            self.payload_len
        } else {
            self.k * self.symbol_size
        }
    }

    /// The source blocks one after the other, cut to the payload length.
    pub open spec fn assembled(self) -> Seq<u8> {
        Seq::new(
            self.assembled_len(),
            |j: int|
                self.state.resolved[(j / self.symbol_size as int) as usize][j
                    % self.symbol_size as int],
        )
    }

    /// What reconstruction gives.
    pub open spec fn reconstruct(self) -> Result<Seq<u8>, DecoderError> {
        if !self.complete() {
            Err(
                DecoderError::Incomplete {
                    resolved: self.resolved_count() as usize,
                    total_required: self.inputs() as usize,
                },
            )
        } else if xxh3(self.assembled()) != self.checksum {
            Err(
                DecoderError::ChecksumMismatch {
                    expected: self.checksum,
                    got: xxh3(self.assembled()),
                },
            )
        } else {
            Ok(self.assembled())
        }
    }
}

/// Fountain Decoder reconstructs source payload from received fountain symbols.
///
/// The decoding graph spans K source symbols plus S LDPC and H HDPC precode
/// checks; reconstruction is complete once all K + S + H inputs are resolved.
#[derive(Debug)]
pub struct FountainDecoder {
    payload_len: usize,
    symbol_size: usize,
    k: usize,
    l: usize,
    expected_checksum: u64,
    sampler: SolitonSampler,
    resolved_source_symbols: HashMap<usize, Vec<u8>>,
    /// Active equations in slot-based storage (`None` = resolved/removed).
    active_equations: Vec<Option<ActiveEquation>>,
    /// Reverse index: for each input the equation slots that still mention it.
    rev: Vec<Vec<usize>>,
    received_esis: HashSet<u32>,
    /// Kept symbols of another size.
    misfits: Vec<Misfit>,
}

impl View for FountainDecoder {
    type V = DecoderView;

    closed spec fn view(&self) -> DecoderView {
        DecoderView {
            payload_len: self.payload_len as nat,
            symbol_size: self.symbol_size as nat,
            k: self.k as nat,
            checksum: self.expected_checksum,
            table: self.sampler.table(),
            state: parts(
                self.resolved_source_symbols@,
                self.active_equations@,
                Seq::empty(),
            ),
            received: self.received_esis@,
            misfits: misfit_esis(self.misfits@),
        }
    }
}

impl FountainDecoder {
    /// Whether the parts of the decoder fit together.
    pub closed spec fn wf(&self) -> bool {
        &&& self.k > 0
        &&& self.l == total_inputs(self.k as nat)
        &&& self.rev@.len() == self.l
        &&& self.sampler.wf()
        &&& self.sampler.inputs() == self.l
        &&& well_formed(self@.state, self.l as nat, self.symbol_size as nat)
        &&& index_ok(self.rev@, self@.state.equations)
        &&& forall|p: int|
            0 <= p < self.misfits@.len() ==> (#[trigger] self.misfits@[p]).neighbors@.to_set()
                == self@.neighbors(self.misfits@[p].esi)
        &&& settled(self@)
    }

    /// Between two symbols a decoder is settled: no more inputs than K + S + H
    /// are resolved, and it is complete exactly when that many are, exactly when
    /// all K source blocks and S LDPC checks are, and never before K symbols
    /// counted.
    pub proof fn law_settled(&self)
        requires
            self.wf(),
        ensures
            settled(self@),
            self@.resolved_count() <= self@.inputs(),
            self@.complete() <==> self@.resolved_count() == self@.inputs(),
            self@.complete() <==> (forall|i: usize|
                i < self@.k + ldpc_count(self@.k) ==> self@.state.resolved.contains_key(i)),
            self@.counted().len() < self@.k ==> !self@.complete(),
    {
        law_completeness(self@);
    }

    /// Creates a decoder for an expected payload length, symbol size, number of
    /// source blocks and checksum, with the degree table for its K + S + H
    /// inputs.
    ///
    /// The precode checks take part in peeling from the start, so missing
    /// systematic symbols are resolved through them.
    pub fn new(
        payload_len: usize,
        symbol_size: usize,
        k: usize,
        expected_checksum: u64,
        thresholds: Vec<u64>,
    ) -> (decoder: Self)
        requires
            k > 0,
            total_inputs(k as nat) <= usize::MAX,
            thresholds@.len() == total_inputs(k as nat) + 1,
            checks_end(k as nat),
        ensures
            decoder.wf(),
            decoder@ == DecoderView::fresh(
                payload_len as nat,
                symbol_size as nat,
                k as nat,
                expected_checksum,
                thresholds@,
            ),
            decoder@.resolved_count() == 0,
            !decoder@.complete(),
    {
        let s: usize = s_for(k);
        let h: usize = h_for(k);
        let l: usize = k + s + h;
        let ghost n = l as nat;
        let ghost size = symbol_size as nat;
        let ghost equations = constraints(k as nat, size);
        let mut rev: Vec<Vec<usize>> = Vec::new();
        while rev.len() < l
            invariant
                rev@.len() <= l,
                forall|i: int| 0 <= i < rev@.len() ==> (#[trigger] rev@[i])@.len() == 0,
            decreases l - rev@.len(),
        {
            rev.push(Vec::new());
        }
        let mut decoder = FountainDecoder {
            payload_len,
            symbol_size,
            k,
            l,
            expected_checksum,
            sampler: SolitonSampler::new(l, thresholds),
            resolved_source_symbols: HashMap::new(),
            active_equations: Vec::new(),
            rev,
            received_esis: HashSet::new(),
            misfits: Vec::new(),
        };
        let ghost blank = decoder;
        proof {
            assert(decoder@.state.resolved =~= Map::<usize, Seq<u8>>::empty());
            assert(decoder@.state.equations =~= equations.take(0));
            assert(decoder@.received =~= Set::<u32>::empty());
            assert(decoder@.misfits =~= Set::<u32>::empty());
        }
        let mut i: usize = 0;
        while i < s
            invariant
                i <= s,
                k > 0,
                s == ldpc_count(k as nat),
                h == hdpc_count(k as nat),
                n == l == k + s + h,
                l <= usize::MAX,
                size == symbol_size,
                equations == constraints(k as nat, size),
                decoder.rev@.len() == n,
                well_formed(decoder@.state, n, size),
                index_ok(decoder.rev@, decoder@.state.equations),
                decoder@.state.resolved == Map::<usize, Seq<u8>>::empty(),
                decoder@.state.equations == equations.take(i as int),
                decoder == (FountainDecoder {
                    rev: decoder.rev,
                    active_equations: decoder.active_equations,
                    ..blank
                }),
            decreases s - i,
        {
            let mut list = precode_neighbors(k, s, i);
            let ghost before = list@;
            list.push(k + i);
            proof {
                lemma_listed(before, (k + i) as usize, k as nat, n);
                assert(before.to_set().insert((k + i) as usize) == equations[i as int]->0.neighbors);
                assert(equations.take(i + 1) =~= equations.take(i as int).push(equations[i as int]));
            }
            let zeros: Vec<u8> = vec![0u8; symbol_size];
            let set = to_set(&list);
            proof {
                assert(zeros@ =~= zero_block(size));
            }
            decoder.open_equation(&list, set, zeros, Ghost(n), Ghost(size));
            i = i + 1;
        }
        let mut i: usize = 0;
        while i < h
            invariant
                i <= h,
                k > 0,
                s == ldpc_count(k as nat),
                h == hdpc_count(k as nat),
                n == l == k + s + h,
                l <= usize::MAX,
                size == symbol_size,
                checks_end(k as nat),
                equations == constraints(k as nat, size),
                decoder.rev@.len() == n,
                well_formed(decoder@.state, n, size),
                index_ok(decoder.rev@, decoder@.state.equations),
                decoder@.state.resolved == Map::<usize, Seq<u8>>::empty(),
                decoder@.state.equations == equations.take(s + i),
                decoder == (FountainDecoder {
                    rev: decoder.rev,
                    active_equations: decoder.active_equations,
                    ..blank
                }),
            decreases h - i,
        {
            proof {
                assert(hdpc_draws_end((k + s) as usize, i));
            }
            let mut list = hdpc_neighbors(k, s, h, i);
            let ghost before = list@;
            list.push(k + s + i);
            proof {
                assert forall|x: usize| before.to_set().contains(x) implies x < k + s by {
                    let q = choose|q: int| 0 <= q < before.len() && before[q] == x;
                }
                lemma_listed(before, (k + s + i) as usize, (k + s) as nat, n);
                assert(before.to_set().insert((k + s + i) as usize) == equations[s
                    + i]->0.neighbors);
                assert(equations.take(s + i + 1) =~= equations.take(s + i).push(equations[s + i]));
            }
            let zeros: Vec<u8> = vec![0u8; symbol_size];
            let set = to_set(&list);
            proof {
                assert(zeros@ =~= zero_block(size));
            }
            decoder.open_equation(&list, set, zeros, Ghost(n), Ghost(size));
            i = i + 1;
        }
        proof {
            assert(equations.take(s + h) =~= equations);
            law_fresh_decoder_is_settled(
                payload_len as nat,
                size,
                k as nat,
                expected_checksum,
                thresholds@,
            );
        }
        decoder
    }

    /// Like `new`, for any number of source blocks: `None` when `DRAW_LIMIT`
    /// draws do not yield the inputs of some HDPC check.
    pub fn try_new(
        payload_len: usize,
        symbol_size: usize,
        k: usize,
        expected_checksum: u64,
        thresholds: Vec<u64>,
    ) -> (decoder: Option<Self>)
        requires
            k > 0,
            total_inputs(k as nat) <= usize::MAX,
            thresholds@.len() == total_inputs(k as nat) + 1,
        ensures
            decoder is Some <==> checks_end_soon(k as nat),
            decoder matches Some(d) ==> d.wf() && d@ == DecoderView::fresh(
                payload_len as nat,
                symbol_size as nat,
                k as nat,
                expected_checksum,
                thresholds@,
            ) && d@.resolved_count() == 0 && !d@.complete(),
    {
        let s: usize = s_for(k);
        let h: usize = h_for(k);
        if hdpc_found(k + s, h) {
            Some(Self::new(payload_len, symbol_size, k, expected_checksum, thresholds))
        } else {
            None
        }
    }

    /// Returns the number of resolved inputs (sources + precode checks).
    pub fn resolved_count(&self) -> (count: usize)
        ensures
            count == self@.resolved_count(),
            self.wf() ==> count <= self@.inputs(),
    {
        proof {
            if self.wf() {
                self.law_settled();
            }
            assert(self@.state.resolved.dom() =~= self.resolved_source_symbols@.dom());
        }
        self.resolved_source_symbols.len()
    }

    /// Returns the symbol size in bytes.
    pub fn symbol_size(&self) -> (size: usize)
        ensures
            size == self@.symbol_size,
    {
        self.symbol_size
    }

    /// Returns total required source blocks K.
    pub fn k(&self) -> (k: usize)
        ensures
            k == self@.k,
    {
        self.k
    }

    /// Returns the total number of inputs K + S + H.
    pub fn l(&self) -> (l: usize)
        requires
            self.wf(),
        ensures
            l == self@.inputs(),
    {
        self.l
    }

    /// Returns true if all K + S + H inputs are fully resolved.
    pub fn is_complete(&self) -> (complete: bool)
        requires
            self.wf(),
        ensures
            complete == self@.complete(),
            complete <==> self@.resolved_count() == self@.inputs(),
    {
        self.resolved_count() >= self.l
    }

    /// Whether a symbol would change nothing: all is resolved, or its ESI came
    /// before.
    pub fn ignores_symbol(&self, esi: u32) -> (ignored: bool)
        requires
            self.wf(),
        ensures
            ignored == self@.ignores(esi),
    {
        self.is_complete() || self.received_esis.contains(&esi)
    }

    /// Opens a slot for an equation and lists it in the reverse index. Every
    /// neighbor of the equation occurs in `candidates`.
    fn open_equation(
        &mut self,
        candidates: &Vec<usize>,
        neighbors: HashSet<usize>,
        data: Vec<u8>,
        Ghost(l): Ghost<nat>,
        Ghost(size): Ghost<nat>,
    )
        requires
            l <= usize::MAX,
            strictly_increasing(candidates@),
            neighbors@.finite(),
            forall|n: usize| neighbors@.contains(n) ==> candidates@.contains(n) && n < l,
            data@.len() == size,
            old(self).rev@.len() == l,
            well_formed(old(self)@.state, l, size),
            index_ok(old(self).rev@, old(self)@.state.equations),
        ensures
            final(self).rev@.len() == l,
            final(self).active_equations@ == old(self).active_equations@.push(
                Some(ActiveEquation { data, neighbors }),
            ),
            final(self)@.state == (PeelState {
                equations: old(self)@.state.equations.push(
                    Some(Equation { neighbors: neighbors@, data: data@ }),
                ),
                ..old(self)@.state
            }),
            well_formed(final(self)@.state, l, size),
            index_ok(final(self).rev@, final(self)@.state.equations),
            *final(self) == (FountainDecoder {
                rev: final(self).rev,
                active_equations: final(self).active_equations,
                ..*old(self)
            }),
    {
        let slot: usize = self.active_equations.len();
        let ghost before = self.rev@;
        let ghost st = self@.state;
        let ghost opened = Equation { neighbors: neighbors@, data: data@ };
        let mut i: usize = 0;
        while i < candidates.len()
            invariant
                i <= candidates@.len(),
                l <= usize::MAX,
                strictly_increasing(candidates@),
                forall|n: usize| neighbors@.contains(n) ==> candidates@.contains(n) && n < l,
                self.rev@.len() == l == before.len(),
                slot == self.active_equations@.len() == st.equations.len(),
                index_ok(before, st.equations),
                *self == (FountainDecoder { rev: self.rev, ..*old(self) }),
                forall|n: int|
                    0 <= n < l ==> #[trigger] self.rev@[n]@ == (if neighbors@.contains(n as usize)
                        && candidates@.take(i as int).contains(n as usize) {
                        before[n]@.push(slot)
                    } else {
                        before[n]@
                    }),
            decreases candidates@.len() - i,
        {
            let n: usize = candidates[i];
            let ghost rev_now = self.rev@;
            proof {
                assert(!candidates@.take(i as int).contains(n)) by {
                    if candidates@.take(i as int).contains(n) {
                        let q = choose|q: int|
                            0 <= q < i && candidates@.take(i as int)[q] == n;
                        assert(candidates@[q] < candidates@[i as int]);
                    }
                }
                assert forall|m: usize| candidates@.take(i + 1).contains(m) <==> candidates@.take(
                    i as int,
                ).contains(m) || m == n by {
                    let a = candidates@.take(i as int);
                    let b = candidates@.take(i + 1);
                    if a.contains(m) {
                        let q = choose|q: int| 0 <= q < a.len() && a[q] == m;
                        assert(b[q] == m);
                    }
                    if b.contains(m) {
                        let q = choose|q: int| 0 <= q < b.len() && b[q] == m;
                        if q < i {
                            assert(a[q] == m);
                        }
                    }
                    assert(b[i as int] == n);
                }
            }
            if neighbors.contains(&n) {
                let mut list: Vec<usize> = Vec::new();
                std::mem::swap(&mut list, &mut self.rev[n]);
                list.push(slot);
                self.rev.set(n, list);
                proof {
                    assert forall|m: int| 0 <= m < l && m != n implies self.rev@[m]
                        == rev_now[m] by {}
                    assert(rev_now[n as int]@ == before[n as int]@);
                    assert(self.rev@[n as int]@ == before[n as int]@.push(slot));
                }
            }
            proof {
                assert forall|m: int| 0 <= m < l implies #[trigger] self.rev@[m]@ == (
                if neighbors@.contains(m as usize) && candidates@.take(i + 1).contains(m as usize) {
                    before[m]@.push(slot)
                } else {
                    before[m]@
                }) by {
                    if m != n {
                        assert(self.rev@[m] == rev_now[m]);
                    }
                }
            }
            i = i + 1;
        }
        proof {
            assert(candidates@.take(candidates@.len() as int) =~= candidates@);
        }
        self.active_equations.push(Some(ActiveEquation { data, neighbors }));
        proof {
            let now = self@.state;
            let rev = self.rev@;
            assert(now.equations =~= st.equations.push(Some(opened)));
            assert forall|n: int| 0 <= n < rev.len() implies strictly_increasing(
                (#[trigger] rev[n])@,
            ) by {
                assert(strictly_increasing(before[n]@));
                assert forall|a: int, b: int| 0 <= a < b < rev[n]@.len() implies rev[n]@[a]
                    < rev[n]@[b] by {
                    if b < before[n]@.len() {
                    } else {
                        assert(before[n]@[a] < st.equations.len());
                    }
                }
            }
            assert forall|n: int, q: int| 0 <= n < rev.len() && 0 <= q < rev[n]@.len() implies
                #[trigger] rev[n]@[q] < now.equations.len() by {
                if q < before[n]@.len() {
                    assert(before[n]@[q] < st.equations.len());
                }
            }
            assert forall|p: int, n: usize|
                0 <= p < now.equations.len() && #[trigger] mentions(now.equations, p, n) implies n
                < rev.len() && rev[n as int]@.contains(p as usize) by {
                if p < slot {
                    assert(mentions(st.equations, p, n));
                    assert(before[n as int]@.contains(p as usize));
                    let q = choose|q: int|
                        0 <= q < before[n as int]@.len() && before[n as int]@[q] == p as usize;
                    assert(rev[n as int]@[q] == p as usize);
                } else {
                    assert(neighbors@.contains(n));
                    assert(rev[n as int]@[before[n as int]@.len() as int] == slot);
                }
            }
            assert forall|p: int| 0 <= p < now.equations.len() implies #[trigger] equation_ok(
                now.equations[p],
                l,
                size,
            ) by {
                if p < slot {
                    assert(equation_ok(st.equations[p], l, size));
                }
            }
        }
    }

    /// Cancels queued inputs, first in first out, until none is left.
    fn ripple_all(&mut self, queue: VecDeque<usize>, Ghost(l): Ghost<nat>, Ghost(size): Ghost<nat>)
        requires
            l <= usize::MAX,
            old(self).rev@.len() == l,
            queue@.len() <= old(self)@.state.resolved.dom().len(),
            well_formed(
                parts(
                    old(self).resolved_source_symbols@,
                    old(self).active_equations@,
                    queue@,
                ),
                l,
                size,
            ),
            index_ok(old(self).rev@, old(self)@.state.equations),
        ensures
            final(self).rev@.len() == l,
            final(self)@.state == ripple(
                parts(
                    old(self).resolved_source_symbols@,
                    old(self).active_equations@,
                    queue@,
                ),
                l,
            ),
            well_formed(final(self)@.state, l, size),
            index_ok(final(self).rev@, final(self)@.state.equations),
            *final(self) == (FountainDecoder {
                rev: final(self).rev,
                active_equations: final(self).active_equations,
                resolved_source_symbols: final(self).resolved_source_symbols,
                ..*old(self)
            }),
    {
        let ghost first = parts(self.resolved_source_symbols@, self.active_equations@, queue@);
        let ghost mut pops: nat = 0;
        let mut queue = queue;
        while queue.len() > 0
            invariant
                l <= usize::MAX,
                self.rev@.len() == l,
                well_formed(
                    parts(self.resolved_source_symbols@, self.active_equations@, queue@),
                    l,
                    size,
                ),
                index_ok(self.rev@, self@.state.equations),
                pops + queue@.len() <= self@.state.resolved.dom().len(),
                pops <= l,
                ripple(first, l) == ripple(
                    parts(self.resolved_source_symbols@, self.active_equations@, queue@),
                    (l - pops) as nat,
                ),
                *self == (FountainDecoder {
                    rev: self.rev,
                    active_equations: self.active_equations,
                    resolved_source_symbols: self.resolved_source_symbols,
                    ..*old(self)
                }),
            decreases l - pops,
        {
            let ghost st = parts(self.resolved_source_symbols@, self.active_equations@, queue@);
            proof {
                lemma_resolved_bound(st, l, size);
            }
            match queue.pop_front() {
                Some(idx) => {
                    let ghost popped = PeelState { queue: st.queue.drop_first(), ..st };
                    proof {
                        assert(idx == st.queue[0]);
                        assert(st.resolved.contains_key(st.queue[0]));
                        assert(queue@ =~= st.queue.drop_first());
                        assert(well_formed(popped, l, size)) by {
                            assert forall|q: int|
                                0 <= q < popped.queue.len() implies popped.resolved.contains_key(
                                #[trigger] popped.queue[q],
                            ) by {
                                assert(st.resolved.contains_key(st.queue[q + 1]));
                            }
                        }
                        lemma_sweep(popped, idx, st.equations.len(), l, size);
                    }
                    cancel(
                        &mut self.active_equations,
                        &mut self.resolved_source_symbols,
                        &mut queue,
                        &mut self.rev,
                        idx,
                        Ghost(l),
                        Ghost(size),
                    );
                    proof {
                        pops = pops + 1;
                        assert(parts(
                            self.resolved_source_symbols@,
                            self.active_equations@,
                            queue@,
                        ) == peel_step(st));
                    }
                },
                None => {},
            }
        }
        proof {
            assert(queue@ =~= Seq::<usize>::empty());
        }
    }

    /// Takes in a symbol of the right size that counts, and runs peeling
    /// resolution.
    fn ingest_symbol(&mut self, symbol: EncodedSymbol)
        requires
            old(self).wf(),
            !old(self)@.ignores(symbol.esi),
            symbol.data@.len() == old(self)@.symbol_size,
            lt_draws_end(old(self)@.inputs() as usize, old(self)@.table, symbol.esi),
        ensures
            final(self).wf(),
            final(self)@ == old(self)@.add_symbol(symbol.esi, symbol.data@),
    {
        proof {
            law_decoder_stays_settled(self@, symbol.esi, symbol.data@);
        }
        let ghost before = self@;
        let ghost l = self.l as nat;
        let ghost size = self.symbol_size as nat;
        self.received_esis.insert(symbol.esi);
        let (_degree, neighbors_vec) = self.sampler.get_neighbors(symbol.esi);
        let mut data: Vec<u8> = symbol.data;
        proof {
            assert forall|i: usize| #[trigger]
                self.resolved_source_symbols@.contains_key(i) implies i < l
                && self.resolved_source_symbols@[i]@.len() == size by {
                assert(before.state.resolved.contains_key(i));
            }
        }
        let neighbors = cancel_known(
            &self.resolved_source_symbols,
            &neighbors_vec,
            &mut data,
            Ghost(l),
            Ghost(size),
        );
        let mut queue: VecDeque<usize> = VecDeque::new();
        proof {
            assert(queue@ =~= Seq::<usize>::empty());
        }
        let ghost wanted = start(
            before.state,
            before.neighbors(symbol.esi),
            symbol.data@,
            l,
            size,
        );
        if neighbors.len() == 1 {
            let single: usize = only_element(&neighbors);
            proof {
                assert(neighbors@.contains(single));
            }
            self.resolved_source_symbols.insert(single, data);
            queue.push_back(single);
            proof {
                let now = parts(self.resolved_source_symbols@, self.active_equations@, queue@);
                assert(now.resolved =~= wanted.resolved);
                assert(now.queue =~= wanted.queue);
                assert(now == wanted);
                assert(now.resolved.dom() =~= before.state.resolved.dom().insert(single));
                assert forall|p: int| 0 <= p < now.equations.len() implies #[trigger] equation_ok(
                    now.equations[p],
                    l,
                    size,
                ) by {
                    assert(equation_ok(before.state.equations[p], l, size));
                }
                assert(well_formed(now, l, size));
                assert(index_ok(self.rev@, now.equations));
            }
        } else if neighbors.len() > 0 {
            self.open_equation(&neighbors_vec, neighbors, data, Ghost(l), Ghost(size));
            proof {
                let now = parts(self.resolved_source_symbols@, self.active_equations@, queue@);
                assert(now == wanted);
            }
        } else {
            proof {
                let now = parts(self.resolved_source_symbols@, self.active_equations@, queue@);
                assert(now == wanted);
            }
        }
        self.ripple_all(queue, Ghost(l), Ghost(size));
    }

    /// Keeps a symbol of another size that counts, given its neighbors.
    fn keep_misfit(&mut self, esi: u32, neighbors: Vec<usize>)
        requires
            old(self).wf(),
            !old(self)@.ignores(esi),
            neighbors@.to_set() == old(self)@.neighbors(esi),
        ensures
            final(self).wf(),
            final(self)@ == (DecoderView {
                received: old(self)@.received.insert(esi),
                misfits: old(self)@.misfits.insert(esi),
                ..old(self)@
            }),
    {
        let ghost before = *self;
        self.received_esis.insert(esi);
        self.misfits.push(Misfit { esi, neighbors });
        proof {
            let now = self.misfits@;
            let was = before.misfits@;
            assert forall|e: u32| misfit_esis(now).contains(e) <==> misfit_esis(was).insert(
                esi,
            ).contains(e) by {
                if misfit_esis(was).contains(e) {
                    let p = choose|p: int| 0 <= p < was.len() && #[trigger] was[p].esi == e;
                    assert(now[p].esi == e);
                }
                assert(now[was.len() as int].esi == esi);
                if misfit_esis(now).contains(e) {
                    let p = choose|p: int| 0 <= p < now.len() && #[trigger] now[p].esi == e;
                    if p < was.len() {
                        assert(was[p].esi == e);
                    }
                }
            }
            assert(self@.misfits =~= before@.misfits.insert(esi));
            let sample = Seq::new(before@.symbol_size + 1, |b: int| 0u8);
            law_decoder_stays_settled(before@, esi, sample);
            assert(self@ == before@.add_symbol(esi, sample));
        }
    }

    /// Whether any of the listed inputs is resolved.
    fn any_resolved(&self, list: &Vec<usize>) -> (any: bool)
        ensures
            any <==> !list@.to_set().disjoint(self@.state.resolved.dom()),
    {
        let mut p: usize = 0;
        while p < list.len()
            invariant
                p <= list@.len(),
                forall|q: int|
                    0 <= q < p ==> !self@.state.resolved.contains_key(#[trigger] list@[q]),
            decreases list@.len() - p,
        {
            if self.resolved_source_symbols.contains_key(&list[p]) {
                proof {
                    assert(list@.contains(list@[p as int]));
                    assert(self@.state.resolved.contains_key(list@[p as int]));
                }
                return true;
            }
            proof {
                assert(!self@.state.resolved.contains_key(list@[p as int]));
            }
            p = p + 1;
        }
        false
    }

    /// Whether an input of a kept symbol of another size is resolved.
    fn misfit_resolved(&self) -> (any: bool)
        requires
            self.wf(),
        ensures
            any <==> !self@.held().disjoint(self@.state.resolved.dom()),
    {
        let mut p: usize = 0;
        while p < self.misfits.len()
            invariant
                p <= self.misfits@.len(),
                self.wf(),
                forall|q: int|
                    0 <= q < p ==> self@.neighbors((#[trigger] self.misfits@[q]).esi).disjoint(
                        self@.state.resolved.dom(),
                    ),
            decreases self.misfits@.len() - p,
        {
            let ghost esi = self.misfits@[p as int].esi;
            if self.any_resolved(&self.misfits[p].neighbors) {
                proof {
                    let i = choose|i: usize|
                        self@.neighbors(esi).contains(i) && self@.state.resolved.dom().contains(i);
                    assert(self@.misfits.contains(esi));
                    assert(self@.held().contains(i));
                }
                return true;
            }
            p = p + 1;
        }
        proof {
            assert forall|i: usize| self@.held().contains(i) implies
                !self@.state.resolved.dom().contains(i) by {
                let esi = choose|esi: u32|
                    self@.misfits.contains(esi) && #[trigger] self@.neighbors(esi).contains(i);
                let q = choose|q: int|
                    0 <= q < self.misfits@.len() && #[trigger] self.misfits@[q].esi == esi;
                assert(self@.neighbors(self.misfits@[q].esi).contains(i));
            }
        }
        false
    }

    /// Ingests a received EncodedSymbol and runs peeling resolution.
    /// Returns true if decoding is complete afterwards.
    pub fn add_symbol(&mut self, symbol: EncodedSymbol) -> (complete: bool)
        requires
            old(self).wf(),
            !old(self)@.clashes(symbol.esi, symbol.data@),
            old(self)@.ignores(symbol.esi) || lt_draws_end(
                old(self)@.inputs() as usize,
                old(self)@.table,
                symbol.esi,
            ),
        ensures
            final(self).wf(),
            final(self)@ == old(self)@.add_symbol(symbol.esi, symbol.data@),
            old(self)@.grows_to(final(self)@),
            complete == final(self)@.complete(),
    {
        proof {
            law_decoder_stays_settled(self@, symbol.esi, symbol.data@);
        }
        if self.ignores_symbol(symbol.esi) {
            return self.is_complete();
        }
        if symbol.data.len() == self.symbol_size {
            self.ingest_symbol(symbol);
        } else {
            let (_degree, neighbors) = self.sampler.get_neighbors(symbol.esi);
            self.keep_misfit(symbol.esi, neighbors);
        }
        self.is_complete()
    }

    /// Like `add_symbol`, for any symbol: an error when the symbol counts and
    /// `DRAW_LIMIT` draws do not yield its neighbors, or when a block of one size
    /// would have to be XORed with one of another.
    pub fn try_add_symbol(&mut self, symbol: EncodedSymbol) -> (complete: Result<bool, SymbolError>)
        requires
            old(self).wf(),
        ensures
            final(self).wf(),
            old(self)@.grows_to(final(self)@),
            (final(self)@, complete) == old(self)@.try_add_symbol(symbol.esi, symbol.data@),
    {
        let ghost before = self@;
        proof {
            law_decoder_stays_settled(self@, symbol.esi, symbol.data@);
        }
        if self.ignores_symbol(symbol.esi) {
            return Ok(self.is_complete());
        }
        if !self.sampler.neighbors_found(symbol.esi) {
            return Err(SymbolError::DrawLimit);
        }
        if symbol.data.len() == self.symbol_size {
            self.ingest_symbol(symbol);
            proof {
                assert(self@.held() =~= before.held());
            }
            if self.misfit_resolved() {
                return Err(SymbolError::Size);
            }
        } else {
            let (degree, neighbors) = self.sampler.get_neighbors(symbol.esi);
            proof {
                assert(neighbors@.no_duplicates());
                neighbors@.unique_seq_to_set();
            }
            if degree == 1 || self.any_resolved(&neighbors) {
                return Err(SymbolError::Size);
            }
            self.keep_misfit(symbol.esi, neighbors);
        }
        Ok(self.is_complete())
    }

    /// Reconstructs full payload buffer and verifies checksum once complete.
    pub fn reconstruct(&self) -> (result: Result<Vec<u8>, DecoderError>)
        requires
            self.wf(),
        ensures
            match result {
                Ok(payload) => self@.reconstruct() == Ok::<Seq<u8>, DecoderError>(payload@),
                Err(e) => self@.reconstruct() == Err::<Seq<u8>, DecoderError>(e),
            },
    {
        if !self.is_complete() {
            return Err(
                DecoderError::Incomplete {
                    resolved: self.resolved_count(),
                    total_required: self.l,
                },
            );
        }
        let ghost st = self@.state;
        let ghost size = self.symbol_size as int;
        proof {
            lemma_resolved_bound(st, self.l as nat, self.symbol_size as nat);
            lemma_below(st.resolved.dom(), self.l as nat);
        }
        let mut reconstructed: Vec<u8> = Vec::new();
        let mut i: usize = 0;
        proof {
            assert(0 * size == 0) by (nonlinear_arith);
        }
        while i < self.k
            invariant
                self.wf(),
                i <= self.k <= self.l,
                st == self@.state,
                size == self.symbol_size,
                forall|j: usize| j < self.l ==> st.resolved.contains_key(j),
                reconstructed@.len() == (if self.payload_len <= i * size {
                    self.payload_len as int
                } else {
                    i * size
                }),
                forall|j: int|
                    0 <= j < reconstructed@.len() ==> #[trigger] reconstructed@[j]
                        == st.resolved[(j / size) as usize][j % size],
            decreases self.k - i,
        {
            let remaining: usize = self.payload_len - reconstructed.len();
            let to_copy: usize = if remaining < self.symbol_size {
                remaining
            } else {
                self.symbol_size
            };
            proof {
                assert((i + 1) * size == i * size + size) by (nonlinear_arith);
                assert(st.resolved.contains_key(i));
            }
            match self.resolved_source_symbols.get(&i) {
                Some(block) => {
                    let ghost before = reconstructed@;
                    proof {
                        assert(st.resolved[i] == block@);
                    }
                    let mut b: usize = 0;
                    while b < to_copy
                        invariant
                            b <= to_copy <= size,
                            size == block@.len(),
                            st.resolved[i] == block@,
                            to_copy > 0 ==> before.len() == i * size,
                            reconstructed@.len() == before.len() + b,
                            forall|j: int|
                                0 <= j < reconstructed@.len() ==> #[trigger] reconstructed@[j]
                                    == st.resolved[(j / size) as usize][j % size],
                        decreases to_copy - b,
                    {
                        proof {
                            vstd::arithmetic::div_mod::lemma_fundamental_div_mod_converse(
                                i * size + b,
                                size,
                                i as int,
                                b as int,
                            );
                        }
                        reconstructed.push(block[b]);
                        b = b + 1;
                    }
                },
                None => {},
            }
            i = i + 1;
        }
        proof {
            assert(reconstructed@ =~= self@.assembled());
        }
        let checksum: u64 = xxh3_64(reconstructed.as_slice());
        if checksum != self.expected_checksum {
            return Err(
                DecoderError::ChecksumMismatch { expected: self.expected_checksum, got: checksum },
            );
        }
        Ok(reconstructed)
    }
}

} // verus!
