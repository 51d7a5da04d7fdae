//! What encoder and decoder make of a payload.
use crate::blocks::{
    block_views, lemma_xor_algebra, lemma_xor_sum_insert, lemma_xor_sum_singleton, xor_sum, zero_block,
};
use crate::checksum::xxh3;
use crate::decoder::{constraints, DecoderError, DecoderView, SymbolError};
use crate::encoder::{block_count, payload_inputs, source_block, EncoderView};
use crate::peel::{known, lemma_single, ripple, start, well_formed, PeelState};
use crate::precode::{
    hdpc_count, hdpc_inputs, ldpc_count, ldpc_neighbors, precoded_blocks, with_ldpc,
};
use crate::progress::lemma_ripple_keeps;
use crate::recovery::{
    encodable, equation_holds, holds_of, lemma_block_count_positive, lemma_constraints_hold,
    lemma_index_split, lemma_inputs_sized, lemma_lt_in_range, lemma_payload_fits,
    lemma_start,
};
use crate::simd::xor_bytes;
use crate::soliton::{lt_draws_end_soon, lt_neighbors};
use vstd::prelude::*;

verus! {

/// XOR goes byte by byte, and undoes itself.
pub proof fn law_xor_undoes_itself(a: Seq<u8>, b: Seq<u8>, i: int)
    requires
        a.len() == b.len(),
        0 <= i < a.len(),
    ensures
        xor_bytes(a, b).len() == a.len(),
        xor_bytes(a, b)[i] == a[i] ^ b[i],
        xor_bytes(xor_bytes(a, b), b) == a,
        xor_bytes(a, b) == xor_bytes(b, a),
{
    assert forall|j: int| 0 <= j < a.len() implies (a[j] ^ b[j]) ^ b[j] == a[j] && a[j] ^ b[j]
        == b[j] ^ a[j] by {
        lemma_xor_algebra(a[j], b[j], 0);
    }
    assert(xor_bytes(xor_bytes(a, b), b) =~= a);
    assert(xor_bytes(a, b) =~= xor_bytes(b, a));
}

/// A payload is cut into as few blocks as hold it, and at least one. Every byte
/// has its place in order, and the rest of the last block is zero.
pub proof fn law_blocks_cut_the_payload(payload: Seq<u8>, size: nat, at: int)
    requires
        size > 0,
        0 <= at,
    ensures
        ({
            let k = block_count(payload.len(), size);
            let inputs = payload_inputs(payload, size);
            &&& k >= 1
            &&& payload.len() <= k * size
            &&& payload.len() > 0 ==> (k - 1) * size < payload.len()
            &&& payload.len() == 0 ==> k == 1
            &&& at < k * size ==> {
                let block = inputs[at / size as int];
                &&& block.len() == size
                &&& block[at % size as int] == (if at < payload.len() {
                    payload[at]
                } else {
                    0u8
                })
            }
        }),
{
    let k = block_count(payload.len(), size);
    let d = size as int;
    lemma_payload_fits(payload.len(), size);
    lemma_block_count_positive(payload.len(), size);
    lemma_inputs_sized(payload, size);
    if payload.len() > 0 {
        lemma_index_split(payload.len() - 1, d);
        assert((k - 1) * size == ((payload.len() - 1) / d) * d);
    }
    if at < k * size {
        lemma_index_split(at, d);
        let q = at / d;
        assert(q < k) by (nonlinear_arith)
            requires
                at == q * d + at % d,
                0 <= at % d,
                at < k * d,
                d > 0,
        ;
        assert(payload_inputs(payload, size)[q] == source_block(payload, size, q as nat));
    }
}

/// Behind the source blocks come the LDPC and then the HDPC checks, and each check
/// cancels with what it covers: the XOR of all of it is zero.
pub proof fn law_checks_cancel(payload: Seq<u8>, size: nat, i: nat, b: int)
    requires
        encodable(payload, size),
        0 <= b < size,
    ensures
        ({
            let k = block_count(payload.len(), size);
            let s = ldpc_count(k);
            let h = hdpc_count(k);
            let inputs = payload_inputs(payload, size);
            &&& inputs.len() == k + s + h
            &&& i < s ==> xor_sum(inputs, ldpc_neighbors(k, s, i).insert((k + i) as usize), size)[b]
                == 0
            &&& i < h ==> xor_sum(
                inputs,
                hdpc_inputs((k + s) as usize, i as usize).insert((k + s + i) as usize),
                size,
            )[b] == 0
        }),
{
    let k = block_count(payload.len(), size);
    let s = ldpc_count(k);
    let h = hdpc_count(k);
    let inputs = payload_inputs(payload, size);
    lemma_inputs_sized(payload, size);
    lemma_constraints_hold(payload, size);
    let st = PeelState {
        resolved: Map::<usize, Seq<u8>>::empty(),
        equations: constraints(k, size),
        queue: Seq::empty(),
    };
    assert(holds_of(st, inputs, size));
    if i < s {
        assert(equation_holds(st.equations[i as int], inputs, size));
    }
    if i < h {
        assert(equation_holds(st.equations[(s + i) as int], inputs, size));
    }
}

/// A decoder knows the same checks: an equation for each, over the check and what
/// it covers, that sums up to zero.
pub proof fn law_decoder_knows_the_checks(k: nat, size: nat, i: nat, b: int)
    requires
        0 <= b < size,
        k + ldpc_count(k) + hdpc_count(k) <= usize::MAX,
    ensures
        constraints(k, size).len() == ldpc_count(k) + hdpc_count(k),
        i < ldpc_count(k) ==> (constraints(k, size)[i as int] matches Some(e) && e.neighbors
            == ldpc_neighbors(k, ldpc_count(k), i).insert((k + i) as usize) && e.data.len() == size
            && e.data[b] == 0),
        i < hdpc_count(k) ==> (constraints(k, size)[(ldpc_count(k) + i) as int] matches Some(e)
            && e.neighbors == hdpc_inputs((k + ldpc_count(k)) as usize, i as usize).insert(
            (k + ldpc_count(k) + i) as usize,
        ) && e.data.len() == size && e.data[b] == 0),
{
}

/// A symbol is worth its last missing input: cancelling all other inputs that it
/// mixes leaves the block of the one.
pub proof fn law_symbol_holds_each_of_its_inputs(
    payload: Seq<u8>,
    size: nat,
    table: Seq<u64>,
    esi: u32,
    n: usize,
)
    requires
        encodable(payload, size),
        lt_neighbors(payload_inputs(payload, size).len() as usize, table, esi).contains(n),
    ensures
        ({
            let inputs = payload_inputs(payload, size);
            let mixed = lt_neighbors(inputs.len() as usize, table, esi);
            let symbol = EncoderView::of(payload, size, table).symbol(esi);
            &&& symbol.len() == size
            &&& n < inputs.len()
            &&& xor_bytes(symbol, xor_sum(inputs, mixed.remove(n), size)) == inputs[n as int]
        }),
{
    let inputs = payload_inputs(payload, size);
    let l = inputs.len() as usize;
    let mixed = lt_neighbors(l, table, esi);
    lemma_inputs_sized(payload, size);
    lemma_block_count_positive(payload.len(), size);
    lemma_lt_in_range(l, table, esi);
    assert(inputs[n as int].len() == size);
    let rest = xor_sum(inputs, mixed.remove(n), size);
    lemma_xor_sum_insert(inputs, mixed.remove(n), size, n);
    assert(mixed.remove(n).insert(n) =~= mixed);
    let symbol = xor_sum(inputs, mixed, size);
    assert forall|b: int| 0 <= b < size implies xor_bytes(symbol, rest)[b] == inputs[n as int][b] by {
        lemma_xor_algebra(rest[b], inputs[n as int][b], 0);
        lemma_xor_algebra(inputs[n as int][b], rest[b], 0);
    }
    assert(xor_bytes(symbol, rest) =~= inputs[n as int]);
}

/// An encoder tells of its payload the length, the symbol size, the number of
/// blocks, and the checksum of all of it.
pub proof fn law_encoder_describes_its_payload(payload: Seq<u8>, size: nat, table: Seq<u64>)
    ensures
        ({
            let encoder = EncoderView::of(payload, size, table);
            &&& encoder.payload_len == payload.len()
            &&& encoder.symbol_size == size
            &&& encoder.k == block_count(payload.len(), size)
            &&& encoder.checksum == xxh3(payload)
            &&& encoder.table == table
        }),
{
}

/// A new decoder is for the payload that it was made for, has received nothing and
/// resolved nothing, and ignores no symbol.
pub proof fn law_new_decoder(
    payload_len: nat,
    size: nat,
    k: nat,
    checksum: u64,
    table: Seq<u64>,
    esi: u32,
)
    requires
        k > 0,
    ensures
        ({
            let decoder = DecoderView::fresh(payload_len, size, k, checksum, table);
            &&& decoder.payload_len == payload_len
            &&& decoder.symbol_size == size
            &&& decoder.k == k
            &&& decoder.checksum == checksum
            &&& decoder.table == table
            &&& decoder.inputs() == k + ldpc_count(k) + hdpc_count(k)
            &&& decoder.resolved_count() == 0
            &&& !decoder.complete()
            &&& !decoder.ignores(esi)
            &&& decoder.neighbors(esi) == lt_neighbors(
                (k + ldpc_count(k) + hdpc_count(k)) as usize,
                table,
                esi,
            )
        }),
{
    let decoder = DecoderView::fresh(payload_len, size, k, checksum, table);
    assert(decoder.state.resolved.dom() =~= Set::<usize>::empty());
}

/// The source blocks in order, without what is behind the payload's length.
pub open spec fn is_assembled(decoder: DecoderView, payload: Seq<u8>) -> bool {
    &&& payload.len() <= decoder.payload_len
    &&& payload.len() <= decoder.k * decoder.symbol_size
    &&& payload.len() == decoder.payload_len || payload.len() == decoder.k * decoder.symbol_size
    &&& forall|j: int|
        0 <= j < payload.len() ==> #[trigger] payload[j] == decoder.state.resolved[(j
            / decoder.symbol_size as int) as usize][j % decoder.symbol_size as int]
}

/// What reconstruction gives: the assembled blocks if all is resolved and their
/// checksum is the expected one, and otherwise how much is resolved, or which
/// checksum came out.
pub proof fn law_reconstruction(decoder: DecoderView)
    ensures
        decoder.reconstruct() is Ok ==> decoder.complete(),
        match decoder.reconstruct() {
            Ok(payload) => is_assembled(decoder, payload) && xxh3(payload) == decoder.checksum,
            Err(DecoderError::Incomplete { resolved, total_required }) => {
                &&& !decoder.complete()
                &&& resolved == decoder.state.resolved.dom().len() as usize
                &&& total_required == (decoder.k + ldpc_count(decoder.k) + hdpc_count(
                    decoder.k,
                )) as usize
            },
            Err(DecoderError::ChecksumMismatch { expected, got }) => {
                &&& decoder.complete()
                &&& expected == decoder.checksum
                &&& got != expected
                &&& exists|payload: Seq<u8>| #[trigger]
                    is_assembled(decoder, payload) && xxh3(payload) == got
            },
        },
        decoder.complete() <==> decoder.state.resolved.dom().len() >= decoder.k + ldpc_count(
            decoder.k,
        ) + hdpc_count(decoder.k),
{
    let out = decoder.assembled();
    assert(is_assembled(decoder, out));
}

/// A symbol counts exactly if something is missing and its ESI is new, and from
/// then on it is known; one that does not count changes nothing.
pub proof fn law_symbols_count_once(decoder: DecoderView, esi: u32, data: Seq<u8>)
    ensures
        decoder.ignores(esi) <==> decoder.complete() || decoder.received.contains(esi),
        decoder.ignores(esi) ==> decoder.add_symbol(esi, data) == decoder,
        !decoder.ignores(esi) ==> decoder.add_symbol(esi, data).received
            == decoder.received.insert(esi),
        decoder.add_symbol(esi, data).ignores(esi),
        decoder.add_symbol(esi, data).payload_len == decoder.payload_len,
        decoder.add_symbol(esi, data).symbol_size == decoder.symbol_size,
        decoder.add_symbol(esi, data).k == decoder.k,
        decoder.add_symbol(esi, data).checksum == decoder.checksum,
        decoder.add_symbol(esi, data).table == decoder.table,
{
}

/// A symbol of another size resolves nothing; it is remembered as such.
pub proof fn law_symbols_of_another_size_resolve_nothing(
    decoder: DecoderView,
    esi: u32,
    data: Seq<u8>,
)
    ensures
        data.len() != decoder.symbol_size ==> decoder.add_symbol(esi, data).state == decoder.state,
        data.len() != decoder.symbol_size && !decoder.ignores(esi) ==> decoder.add_symbol(
            esi,
            data,
        ).misfits == decoder.misfits.insert(esi),
        data.len() == decoder.symbol_size ==> decoder.add_symbol(esi, data).misfits
            == decoder.misfits,
{
}

/// When sizes meet: a symbol of the right size must resolve an input that a symbol
/// of another size mixes; a symbol of another size must mix a resolved input or
/// only one. So without symbols of another size nothing ever clashes.
pub proof fn law_when_sizes_meet(decoder: DecoderView, esi: u32, data: Seq<u8>)
    ensures
        decoder.ignores(esi) ==> !decoder.clashes(esi, data),
        !decoder.ignores(esi) && data.len() == decoder.symbol_size ==> (decoder.clashes(esi, data)
            <==> exists|other: u32, i: usize|
            {
                &&& decoder.misfits.contains(other)
                &&& #[trigger] decoder.neighbors(other).contains(i)
                &&& decoder.add_symbol(esi, data).state.resolved.contains_key(i)
            }),
        !decoder.ignores(esi) && data.len() != decoder.symbol_size ==> (decoder.clashes(esi, data)
            <==> decoder.neighbors(esi).len() == 1 || exists|i: usize|
            #[trigger] decoder.neighbors(esi).contains(i) && decoder.state.resolved.contains_key(
                i,
            )),
        data.len() == decoder.symbol_size && decoder.misfits == Set::<u32>::empty()
            ==> !decoder.clashes(esi, data),
{
    let after = decoder.add_symbol(esi, data);
    let held = decoder.held();
    if !decoder.ignores(esi) && data.len() == decoder.symbol_size {
        if exists|other: u32, i: usize|
            {
                &&& decoder.misfits.contains(other)
                &&& #[trigger] decoder.neighbors(other).contains(i)
                &&& after.state.resolved.contains_key(i)
            } {
            let (other, i) = choose|other: u32, i: usize|
                {
                    &&& decoder.misfits.contains(other)
                    &&& #[trigger] decoder.neighbors(other).contains(i)
                    &&& after.state.resolved.contains_key(i)
                };
            assert(held.contains(i));
            assert(after.state.resolved.dom().contains(i));
        }
        if decoder.clashes(esi, data) {
            let i = choose|i: usize|
                held.contains(i) && after.state.resolved.dom().contains(i);
            let other = choose|other: u32|
                decoder.misfits.contains(other) && #[trigger] decoder.neighbors(other).contains(i);
            assert(decoder.neighbors(other).contains(i));
        }
    }
    if !decoder.ignores(esi) && data.len() != decoder.symbol_size {
        if exists|i: usize|
            #[trigger] decoder.neighbors(esi).contains(i) && decoder.state.resolved.contains_key(
                i,
            ) {
            let i = choose|i: usize|
                #[trigger] decoder.neighbors(esi).contains(i)
                    && decoder.state.resolved.contains_key(i);
            assert(decoder.state.resolved.dom().contains(i));
        }
        if decoder.clashes(esi, data) && decoder.neighbors(esi).len() != 1 {
            let i = choose|i: usize|
                decoder.neighbors(esi).contains(i) && decoder.state.resolved.dom().contains(i);
            assert(decoder.neighbors(esi).contains(i));
        }
    }
}

/// Trying to take in a symbol fails only if it counts, and either its inputs are
/// not found or sizes meet. Otherwise it is taken in, and the answer is whether all
/// is resolved. Where inputs are not found nothing changes.
pub proof fn law_trying_a_symbol(decoder: DecoderView, esi: u32, data: Seq<u8>)
    ensures
        ({
            let (next, result) = decoder.try_add_symbol(esi, data);
            let l = (decoder.k + ldpc_count(decoder.k) + hdpc_count(decoder.k)) as usize;
            let found = lt_draws_end_soon(l, decoder.table, esi);
            &&& decoder.ignores(esi) ==> next == decoder && result == Ok::<bool, SymbolError>(
                decoder.complete(),
            )
            &&& !decoder.ignores(esi) && !found ==> next == decoder && result == Err::<
                bool,
                SymbolError,
            >(SymbolError::DrawLimit)
            &&& !decoder.ignores(esi) && found && decoder.clashes(esi, data) ==> result == Err::<
                bool,
                SymbolError,
            >(SymbolError::Size)
            &&& !decoder.ignores(esi) && found && !decoder.clashes(esi, data) ==> next
                == decoder.add_symbol(esi, data) && result == Ok::<bool, SymbolError>(
                next.complete(),
            )
        }),
{
}

/// A symbol of the systematic phase resolves its input with just its data, whatever
/// that is.
pub proof fn law_systematic_symbols_resolve_their_inputs(
    decoder: DecoderView,
    esi: u32,
    data: Seq<u8>,
)
    requires
        decoder.k > 0,
        decoder.inputs() <= usize::MAX,
        well_formed(decoder.state, decoder.inputs(), decoder.symbol_size),
        !decoder.ignores(esi),
        data.len() == decoder.symbol_size,
        esi < decoder.inputs(),
        !decoder.state.resolved.contains_key(esi as usize),
    ensures
        decoder.add_symbol(esi, data).state.resolved.contains_key(esi as usize),
        decoder.add_symbol(esi, data).state.resolved[esi as usize] == data,
{
    let l = decoder.inputs();
    let size = decoder.symbol_size;
    let st = decoder.state;
    let n = esi as usize;
    let mixed = decoder.neighbors(esi);
    lemma_lt_in_range(l as usize, decoder.table, esi);
    let open = mixed.difference(st.resolved.dom());
    assert(open =~= set![n]);
    assert(open.len() == 1);
    lemma_single(open, n);
    let table = known(st.resolved, l, size);
    assert(table[n as int] == zero_block(size));
    lemma_xor_sum_singleton(table, size, n);
    assert(mixed =~= set![n]);
    assert forall|b: int| 0 <= b < size implies data[b] ^ 0u8 == data[b] by {
        lemma_xor_algebra(data[b], 0, 0);
    }
    let started = start(st, mixed, data, l, size);
    assert(xor_bytes(data, xor_sum(table, mixed, size)) =~= data);
    lemma_start(st, mixed, data, l, size);
    lemma_ripple_keeps(started, l, l, size);
    assert(started.resolved.contains_key(n));
    assert(ripple(started, l).resolved[n] == data);
}

/// Precoding keeps the blocks it is given, and adds for each LDPC check the XOR of
/// the given blocks that it covers, and for each HDPC check the XOR of the blocks,
/// LDPC checks among them, that it covers.
pub proof fn law_precoding(source: Seq<Seq<u8>>, s: nat, h: nat, size: nat, i: nat)
    requires
        source.len() + s + h <= usize::MAX,
    ensures
        ({
            let k = source.len();
            let all = precoded_blocks(source, s, h, size);
            &&& all.len() == k + s + h
            &&& i < k ==> all[i as int] == source[i as int]
            &&& i < s ==> all[(k + i) as int] == xor_sum(source, ldpc_neighbors(k, s, i), size)
            &&& i < h ==> all[(k + s + i) as int] == xor_sum(
                all.subrange(0, (k + s) as int),
                hdpc_inputs((k + s) as usize, i as usize),
                size,
            )
        }),
{
    let all = precoded_blocks(source, s, h, size);
    let with = with_ldpc(source, s, size);
    assert(all.subrange(0, (source.len() + s) as int) =~= with);
}

/// Contents are taken block by block, whole and in order.
pub proof fn law_contents_of_blocks(blocks: Seq<Vec<u8>>, i: int)
    requires
        0 <= i < blocks.len(),
    ensures
        block_views(blocks).len() == blocks.len(),
        block_views(blocks)[i] == blocks[i]@,
{
}

} // verus!
