//! Fountain encoder.
use crate::blocks::{all_sized, block_views, xor_sum};
use crate::checksum::{xxh3, xxh3_64};
use crate::precode::{
    build_precoded, h_for, hdpc_count, hdpc_draws_end, hdpc_draws_end_soon, hdpc_found, ldpc_count,
    lemma_precoded_sized, precoded_blocks, s_for, total_inputs, xor_listed,
};
use crate::soliton::{lt_draws_end, lt_draws_end_soon, lt_neighbors, SolitonSampler};
use vstd::prelude::*;

verus! {

/// The number of blocks of `size` bytes that hold `len` bytes; at least one.
pub open spec fn block_count(len: nat, size: nat) -> nat {
    if len == 0 {
        1
    } else {
        ((len - 1) / size as int + 1) as nat
    }
}

/// Source block `i` of a payload, padded with zeros at the end.
pub open spec fn source_block(payload: Seq<u8>, size: nat, i: nat) -> Seq<u8> {
    Seq::new(
        size,
        |j: int|
            if i * size + j < payload.len() {
                payload[i * size + j]
            } else {
                0u8
            },
    )
}

/// The source blocks of a payload.
pub open spec fn source_blocks(payload: Seq<u8>, size: nat) -> Seq<Seq<u8>> {
    Seq::new(block_count(payload.len(), size), |i: int| source_block(payload, size, i as nat))
}

/// The K + S + H inputs of a payload.
pub open spec fn payload_inputs(payload: Seq<u8>, size: nat) -> Seq<Seq<u8>> {
    let k = block_count(payload.len(), size);
    precoded_blocks(source_blocks(payload, size), ldpc_count(k), hdpc_count(k), size)
}

/// Whether drawing the inputs of every HDPC check for `k` source symbols comes
/// to an end.
pub open spec fn checks_end(k: nat) -> bool {
    forall|i: usize|
        i < hdpc_count(k) ==> #[trigger] hdpc_draws_end((k + ldpc_count(k)) as usize, i)
}

/// Whether drawing the inputs of every HDPC check for `k` source symbols ends
/// within the draw limit.
pub open spec fn checks_end_soon(k: nat) -> bool {
    forall|i: usize|
        i < hdpc_count(k) ==> #[trigger] hdpc_draws_end_soon((k + ldpc_count(k)) as usize, i)
}

/// Encoded symbol structure sent over the network.
#[derive(Debug, Clone, PartialEq, Eq)]
pub struct EncodedSymbol {
    pub esi: u32,
    pub symbol_size: usize,
    pub data: Vec<u8>,
}

/// Fountain Encoder partitions payload data into K source symbols, adds S
/// LDPC and H HDPC precode checks, and generates rateless fountain symbols over
/// the K + S + H inputs.
#[derive(Debug, Clone)]
pub struct FountainEncoder {
    payload_len: usize,
    symbol_size: usize,
    k: usize,
    l: usize,
    precoded: Vec<Vec<u8>>,
    sampler: SolitonSampler,
    checksum: u64,
}

/// What an encoder holds.
pub struct EncoderView {
    pub payload_len: nat,
    pub symbol_size: nat,
    pub k: nat,
    pub inputs: Seq<Seq<u8>>,
    pub table: Seq<u64>,
    pub checksum: u64,
}

impl EncoderView {
    /// The encoder of a payload.
    pub open spec fn of(payload: Seq<u8>, size: nat, table: Seq<u64>) -> EncoderView {
        EncoderView {
            payload_len: payload.len(),
            symbol_size: size,
            k: block_count(payload.len(), size),
            inputs: payload_inputs(payload, size),
            table,
            checksum: xxh3(payload),
        }
    }

    /// The data of symbol `esi`: the XOR of the inputs it mixes.
    pub open spec fn symbol(self, esi: u32) -> Seq<u8> {
        xor_sum(
            self.inputs,
            lt_neighbors(self.inputs.len() as usize, self.table, esi),
            self.symbol_size,
        )
    }
}

impl View for FountainEncoder {
    type V = EncoderView;

    closed spec fn view(&self) -> EncoderView {
        EncoderView {
            payload_len: self.payload_len as nat,
            symbol_size: self.symbol_size as nat,
            k: self.k as nat,
            inputs: block_views(self.precoded@),
            table: self.sampler.table(),
            checksum: self.checksum,
        }
    }
}

impl FountainEncoder {
    /// Whether the parts of the encoder fit together.
    pub closed spec fn wf(&self) -> bool {
        &&& self.precoded@.len() == self.l
        &&& self.l > 1
        &&& all_sized(block_views(self.precoded@), self.symbol_size as nat)
        &&& self.sampler.wf()
        &&& self.sampler.inputs() == self.l
    }

    /// Creates a FountainEncoder from raw payload data, target symbol size and
    /// the degree table for its K + S + H inputs.
    pub fn new(payload: &[u8], symbol_size: usize, thresholds: Vec<u64>) -> (encoder: Self)
        requires
            symbol_size > 0,
            total_inputs(block_count(payload@.len(), symbol_size as nat)) <= usize::MAX,
            thresholds@.len() == total_inputs(block_count(payload@.len(), symbol_size as nat)) + 1,
            checks_end(block_count(payload@.len(), symbol_size as nat)),
        ensures
            encoder.wf(),
            encoder@ == EncoderView::of(payload@, symbol_size as nat, thresholds@),
    {
        let payload_len: usize = payload.len();
        let checksum: u64 = xxh3_64(payload);
        let ghost size = symbol_size as nat;
        let k: usize = source_count(payload_len, symbol_size);
        let mut source_symbols: Vec<Vec<u8>> = Vec::new();
        let mut i: usize = 0;
        let ghost blocks = source_blocks(payload@, size);
        while i < k
            invariant
                i <= k,
                symbol_size > 0,
                size == symbol_size,
                payload_len == payload@.len(),
                k == block_count(payload@.len(), size),
                blocks == source_blocks(payload@, size),
                source_symbols@.len() == i,
                block_views(source_symbols@) =~= blocks.take(i as int),
            decreases k - i,
        {
            let block = cut_block(payload, symbol_size, i);
            source_symbols.push(block);
            i = i + 1;
        }
        proof {
            assert(blocks.take(k as int) =~= blocks);
        }
        let s: usize = s_for(k);
        let h: usize = h_for(k);
        let l: usize = k + s + h;
        let precoded = build_precoded(source_symbols.as_slice(), s, h, symbol_size);
        proof {
            lemma_precoded_sized(blocks, s as nat, h as nat, size);
            assert(block_views(precoded@).len() == l);
        }
        let sampler = SolitonSampler::new(l, thresholds);
        FountainEncoder { payload_len, symbol_size, k, l, precoded, sampler, checksum }
    }

    /// Like `new`, for any payload: `None` when `DRAW_LIMIT` draws do not yield
    /// the inputs of some HDPC check.
    pub fn try_new(payload: &[u8], symbol_size: usize, thresholds: Vec<u64>) -> (encoder: Option<
        Self,
    >)
        requires
            symbol_size > 0,
            total_inputs(block_count(payload@.len(), symbol_size as nat)) <= usize::MAX,
            thresholds@.len() == total_inputs(block_count(payload@.len(), symbol_size as nat)) + 1,
        ensures
            encoder is Some <==> checks_end_soon(block_count(payload@.len(), symbol_size as nat)),
            encoder matches Some(e) ==> e.wf() && e@ == EncoderView::of(
                payload@,
                symbol_size as nat,
                thresholds@,
            ),
    {
        let k: usize = source_count(payload.len(), symbol_size);
        let s: usize = s_for(k);
        let h: usize = h_for(k);
        if hdpc_found(k + s, h) {
            Some(Self::new(payload, symbol_size, thresholds))
        } else {
            None
        }
    }

    /// Returns the number of source blocks K.
    pub fn k(&self) -> (k: usize)
        ensures
            k == self@.k,
    {
        self.k
    }

    /// Returns the number of encodable inputs K + S + H (source + precode).
    pub fn l(&self) -> (l: usize)
        requires
            self.wf(),
        ensures
            l == self@.inputs.len(),
    {
        self.l
    }

    /// Returns the payload length in bytes.
    pub fn payload_len(&self) -> (len: usize)
        ensures
            len == self@.payload_len,
    {
        self.payload_len
    }

    /// Returns symbol size in bytes.
    pub fn symbol_size(&self) -> (size: usize)
        ensures
            size == self@.symbol_size,
    {
        self.symbol_size
    }

    /// Returns the XXH3 64-bit checksum of the full payload.
    pub fn checksum(&self) -> (checksum: u64)
        ensures
            checksum == self@.checksum,
    {
        self.checksum
    }

    /// Encodes a single symbol for a given Encoding Symbol ID (ESI).
    pub fn encode_symbol(&self, esi: u32) -> (symbol: EncodedSymbol)
        requires
            self.wf(),
            lt_draws_end(self@.inputs.len() as usize, self@.table, esi),
        ensures
            symbol.esi == esi,
            symbol.symbol_size == self@.symbol_size,
            symbol.data@ == self@.symbol(esi),
            symbol.data@.len() == self@.symbol_size,
    {
        let (_degree, neighbors) = self.sampler.get_neighbors(esi);
        let data = xor_listed(&self.precoded, &neighbors, self.symbol_size);
        EncodedSymbol { esi, symbol_size: self.symbol_size, data }
    }

    /// Like `encode_symbol`, for any ESI: `None` when `DRAW_LIMIT` draws do not
    /// yield the symbol's neighbors.
    pub fn try_encode_symbol(&self, esi: u32) -> (symbol: Option<EncodedSymbol>)
        requires
            self.wf(),
        ensures
            symbol is Some <==> lt_draws_end_soon(
                self@.inputs.len() as usize,
                self@.table,
                esi,
            ),
            symbol matches Some(s) ==> {
                &&& s.esi == esi
                &&& s.symbol_size == self@.symbol_size
                &&& s.data@ == self@.symbol(esi)
                &&& s.data@.len() == self@.symbol_size
            },
    {
        if self.sampler.neighbors_found(esi) {
            Some(self.encode_symbol(esi))
        } else {
            None
        }
    }
}

/// The number of source blocks of a payload of `payload_len` bytes.
pub fn source_count(payload_len: usize, symbol_size: usize) -> (k: usize)
    requires
        symbol_size > 0,
    ensures
        k == block_count(payload_len as nat, symbol_size as nat),
{
    if payload_len == 0 {
        1
    } else {
        proof {
            let a = payload_len as int - 1;
            let d = symbol_size as int;
            assert(a / d <= a) by (nonlinear_arith)
                requires
                    a >= 0,
                    d > 0,
            ;
        }
        (payload_len - 1) / symbol_size + 1
    }
}

/// Cuts source block `i` out of the payload.
fn cut_block(payload: &[u8], symbol_size: usize, i: usize) -> (block: Vec<u8>)
    requires
        symbol_size > 0,
        i < block_count(payload@.len(), symbol_size as nat),
    ensures
        block@ == source_block(payload@, symbol_size as nat, i as nat),
{
    let len: usize = payload.len();
    let ghost size = symbol_size as nat;
    proof {
        if len > 0 {
            let a = len as int - 1;
            let d = symbol_size as int;
            let q = i as int;
            vstd::arithmetic::div_mod::lemma_fundamental_div_mod(a, d);
            assert(q * d <= a) by (nonlinear_arith)
                requires
                    a == d * (a / d) + a % d,
                    0 <= a % d,
                    0 <= q <= a / d,
                    d > 0,
            ;
        } else {
            assert(i * symbol_size == 0) by (nonlinear_arith)
                requires
                    i == 0,
            ;
        }
    }
    let start: usize = i * symbol_size;
    let mut block: Vec<u8> = vec![0u8; symbol_size];
    let mut j: usize = 0;
    while j < symbol_size && j < len - start
        invariant
            j <= symbol_size,
            size == symbol_size,
            len == payload@.len(),
            start == i * size,
            start <= len,
            j <= len - start,
            block@.len() == symbol_size,
            forall|q: int| 0 <= q < j ==> block@[q] == payload@[start + q],
            forall|q: int| j <= q < symbol_size ==> block@[q] == 0,
        decreases symbol_size - j,
    {
        block.set(j, payload[start + j]);
        j = j + 1;
    }
    assert(block@ =~= source_block(payload@, size, i as nat));
    block
}

} // verus!
