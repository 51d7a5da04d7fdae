//! Fountain encoding and decoding behind plain values, for callers in other
//! languages.
use crate::decoder::{DecoderError, DecoderView, FountainDecoder, SymbolError};
use crate::encoder::{block_count, checks_end_soon, EncodedSymbol, EncoderView, FountainEncoder};
use crate::precode::total_inputs;
use crate::soliton::lt_draws_end_soon;
use vstd::prelude::*;
use vstd::slice::slice_to_vec;
use vstd::string::{StrSliceExecFns, StringExecFns};

verus! {

/// The hexadecimal digit of a number below 16.
pub open spec fn hex_digit(d: nat) -> char {
    if d < 10 {
        ('0' as nat + d) as char
    } else {
        ('a' as nat + d - 10) as char
    }
}

/// The lowest `n` hexadecimal digits of a number, highest first.
pub open spec fn hex_text(v: nat, n: nat) -> Seq<char>
    decreases n,
{
    if n == 0 {
        Seq::empty()
    } else {
        hex_text(v / 16, (n - 1) as nat).push(hex_digit(v % 16))
    }
}

/// What a hexadecimal digit, in either case, stands for.
pub open spec fn digit_value(c: char) -> Option<nat> {
    if '0' <= c && c <= '9' {
        Some((c as nat - '0' as nat) as nat)
    } else if 'a' <= c && c <= 'f' {
        Some((c as nat - 'a' as nat + 10) as nat)
    } else if 'A' <= c && c <= 'F' {
        Some((c as nat - 'A' as nat + 10) as nat)
    } else {
        None
    }
}

/// The number that hexadecimal digits stand for; `None` if one is no digit.
pub open spec fn digits_value(s: Seq<char>) -> Option<nat>
    decreases s.len(),
{
    if s.len() == 0 {
        Some(0)
    } else {
        match (digits_value(s.drop_last()), digit_value(s.last())) {
            (Some(v), Some(d)) => Some(16 * v + d),
            _ => None,
        }
    }
}

/// The digits of a text, without a plus sign in front.
pub open spec fn unsigned_part(s: Seq<char>) -> Seq<char> {
    if s.len() > 0 && s[0] == '+' {
        s.skip(1)
    } else {
        s
    }
}

/// The 64-bit number that a hexadecimal text stands for; `None` if it is no
/// such text or the number is too large.
pub open spec fn checksum_value(s: Seq<char>) -> Option<u64> {
    let digits = unsigned_part(s);
    match digits_value(digits) {
        Some(v) => if digits.len() > 0 && v <= u64::MAX {
            Some(v as u64)
        } else {
            None
        },
        None => None,
    }
}

/// The text of a hexadecimal digit.
fn digit_text(d: u64) -> (text: &'static str)
    requires
        d < 16,
    ensures
        text@ == seq![hex_digit(d as nat)],
{
    proof {
        reveal_strlit("0");
        reveal_strlit("1");
        reveal_strlit("2");
        reveal_strlit("3");
        reveal_strlit("4");
        reveal_strlit("5");
        reveal_strlit("6");
        reveal_strlit("7");
        reveal_strlit("8");
        reveal_strlit("9");
        reveal_strlit("a");
        reveal_strlit("b");
        reveal_strlit("c");
        reveal_strlit("d");
        reveal_strlit("e");
        reveal_strlit("f");
    }
    let text: &'static str = match d {
        0 => "0",
        1 => "1",
        2 => "2",
        3 => "3",
        4 => "4",
        5 => "5",
        6 => "6",
        7 => "7",
        8 => "8",
        9 => "9",
        10 => "a",
        11 => "b",
        12 => "c",
        13 => "d",
        14 => "e",
        _ => "f",
    };
    proof {
        assert(text@ =~= seq![hex_digit(d as nat)]);
    }
    text
}

/// The 16 hexadecimal digits of a number.
fn hex_of(v: u64) -> (text: String)
    ensures
        text@ == hex_text(v as nat, 16),
{
    let mut digits: Vec<u64> = Vec::new();
    let mut rest: u64 = v;
    while digits.len() < 16
        invariant
            digits@.len() <= 16,
            forall|i: int| 0 <= i < digits@.len() ==> #[trigger] digits@[i] < 16,
            forall|n: nat|
                n + digits@.len() <= 16 ==> #[trigger] hex_text(v as nat, n + digits@.len())
                    == hex_text(rest as nat, n) + spelled(digits@),
        decreases 16 - digits@.len(),
    {
        let ghost before = digits@;
        let ghost was = rest;
        digits.push(rest % 16);
        rest = rest / 16;
        proof {
            assert forall|n: nat| n + digits@.len() <= 16 implies #[trigger] hex_text(
                v as nat,
                n + digits@.len(),
            ) == hex_text(rest as nat, n) + spelled(digits@) by {
                let m = n + 1;
                assert(hex_text(v as nat, m + before.len()) == hex_text(was as nat, m) + spelled(
                    before,
                ));
                assert(digits@.drop_last() =~= before);
                assert(spelled(digits@) == seq![hex_digit((was % 16) as nat)] + spelled(before));
                assert(hex_text(was as nat, m) == hex_text(rest as nat, n).push(
                    hex_digit((was % 16) as nat),
                ));
                assert(hex_text(rest as nat, n).push(hex_digit((was % 16) as nat)) + spelled(before)
                    =~= hex_text(rest as nat, n) + spelled(digits@));
            }
        }
    }
    proof {
        assert(hex_text(v as nat, 0 + digits@.len()) == hex_text(rest as nat, 0) + spelled(
            digits@,
        ));
        assert(hex_text(rest as nat, 0) + spelled(digits@) =~= spelled(digits@));
    }
    let mut text = String::new();
    let mut i: usize = 16;
    proof {
        assert(digits@.take(16) =~= digits@);
        assert(text@ + spelled(digits@) =~= spelled(digits@));
    }
    while i > 0
        invariant
            i <= 16 == digits@.len(),
            forall|j: int| 0 <= j < digits@.len() ==> #[trigger] digits@[j] < 16,
            text@ + spelled(digits@.take(i as int)) == spelled(digits@),
        decreases i,
    {
        proof {
            let shorter = digits@.take(i - 1);
            assert(digits@.take(i as int).drop_last() =~= shorter);
            assert(spelled(digits@.take(i as int)) == seq![hex_digit(digits@[i - 1] as nat)]
                + spelled(shorter));
            assert(text@ + (seq![hex_digit(digits@[i - 1] as nat)] + spelled(shorter)) =~= (text@
                + seq![hex_digit(digits@[i - 1] as nat)]) + spelled(shorter));
        }
        i = i - 1;
        text.append(digit_text(digits[i]));
    }
    proof {
        assert(digits@.take(0) =~= Seq::<u64>::empty());
        assert(text@ + spelled(digits@.take(0)) =~= text@);
    }
    text
}

/// Digits spelled out, last one first.
spec fn spelled(digits: Seq<u64>) -> Seq<char>
    decreases digits.len(),
{
    if digits.len() == 0 {
        Seq::empty()
    } else {
        seq![hex_digit(digits.last() as nat)] + spelled(digits.drop_last())
    }
}

/// What a hexadecimal digit stands for.
fn parse_digit(c: char) -> (d: Option<u64>)
    ensures
        match d {
            Some(v) => digit_value(c) == Some(v as nat) && v < 16,
            None => digit_value(c) is None,
        },
{
    if '0' <= c && c <= '9' {
        Some(c as u64 - '0' as u64)
    } else if 'a' <= c && c <= 'f' {
        Some(c as u64 - 'a' as u64 + 10)
    } else if 'A' <= c && c <= 'F' {
        Some(c as u64 - 'A' as u64 + 10)
    } else {
        None
    }
}

/// More digits make no smaller number, and no number out of what is none.
proof fn lemma_digits_grow(s: Seq<char>, n: int)
    requires
        0 <= n <= s.len(),
    ensures
        digits_value(s.take(n)) is None ==> digits_value(s) is None,
        digits_value(s) matches Some(v) ==> (digits_value(s.take(n)) matches Some(w) && w <= v),
    decreases s.len(),
{
    if n == s.len() {
        assert(s.take(n) =~= s);
    } else {
        assert(s.drop_last().take(n) =~= s.take(n));
        lemma_digits_grow(s.drop_last(), n);
    }
}

/// Reads a checksum in hexadecimal.
pub fn parse_checksum(text: &str) -> (checksum: Option<u64>)
    ensures
        checksum == checksum_value(text@),
{
    let len: usize = text.unicode_len();
    let start: usize = if len > 0 && text.get_char(0) == '+' {
        1
    } else {
        0
    };
    let ghost digits = unsigned_part(text@);
    if start == len {
        proof {
            assert(digits.len() == 0);
        }
        return None;
    }
    let mut v: u64 = 0;
    let mut i: usize = start;
    proof {
        assert(digits.take(0) =~= Seq::<char>::empty());
    }
    while i < len
        invariant
            start <= i <= len == text@.len(),
            start <= 1,
            digits == unsigned_part(text@),
            digits == text@.skip(start as int),
            digits.len() > 0,
            digits_value(digits.take(i - start)) == Some(v as nat),
        decreases len - i,
    {
        let c: char = text.get_char(i);
        proof {
            let longer = digits.take(i - start + 1);
            assert(longer.drop_last() =~= digits.take(i - start));
            assert(longer.last() == c);
            lemma_digits_grow(digits, i - start + 1);
        }
        match parse_digit(c) {
            Some(d) => {
                if v > (u64::MAX - d) / 16 {
                    return None;
                }
                v = v * 16 + d;
            },
            None => {
                return None;
            },
        }
        i = i + 1;
    }
    proof {
        assert(digits.take(len - start) =~= digits);
    }
    Some(v)
}

/// A checksum that was written out is read back.
pub proof fn law_checksum_text_roundtrip(v: u64)
    ensures
        checksum_value(hex_text(v as nat, 16)) == Some(v),
{
    lemma_hex_value(v as nat, 16);
    lemma_pow16();
    let s = hex_text(v as nat, 16);
    lemma_no_sign(v as nat, 16);
}

/// `16^n`.
spec fn pow16(n: nat) -> nat
    decreases n,
{
    if n == 0 {
        1
    } else {
        16 * pow16((n - 1) as nat)
    }
}

/// `16^16` is `2^64`.
proof fn lemma_pow16()
    ensures
        pow16(16) == 0x1_0000_0000_0000_0000,
{
    reveal_with_fuel(pow16, 17);
}

/// Hexadecimal digits stand for the number they were made from.
proof fn lemma_hex_value(v: nat, n: nat)
    ensures
        v < pow16(n) ==> digits_value(hex_text(v, n)) == Some(v),
        hex_text(v, n).len() == n,
    decreases n,
{
    if n > 0 {
        lemma_hex_value(v / 16, (n - 1) as nat);
        let s = hex_text(v, n);
        assert(s.drop_last() =~= hex_text(v / 16, (n - 1) as nat));
        assert(digit_value(hex_digit(v % 16)) == Some(v % 16));
    }
}

/// Hexadecimal digits do not start with a sign.
proof fn lemma_no_sign(v: nat, n: nat)
    requires
        n > 0,
    ensures
        hex_text(v, n).len() == n,
        hex_text(v, n)[0] != '+',
    decreases n,
{
    lemma_hex_value(v, n);
    lemma_hex_value(v / 16, (n - 1) as nat);
    if n > 1 {
        lemma_no_sign(v / 16, (n - 1) as nat);
    }
}

/// Encodes a payload into fountain symbols.
pub struct Fountain {
    encoder: FountainEncoder,
}

impl View for Fountain {
    type V = EncoderView;

    closed spec fn view(&self) -> EncoderView {
        self.encoder@
    }
}

impl Fountain {
    /// Whether the encoder is in order.
    pub closed spec fn wf(&self) -> bool {
        self.encoder.wf()
    }

    /// An encoder of a payload, given the degree table for its inputs; `None`
    /// when drawing the inputs of a check is given up.
    pub fn new(payload: &[u8], symbol_size: usize, thresholds: Vec<u64>) -> (fountain: Option<
        Self,
    >)
        requires
            symbol_size > 0,
            total_inputs(block_count(payload@.len(), symbol_size as nat)) <= usize::MAX,
            thresholds@.len() == total_inputs(block_count(payload@.len(), symbol_size as nat)) + 1,
        ensures
            fountain is Some <==> checks_end_soon(block_count(payload@.len(), symbol_size as nat)),
            fountain matches Some(f) ==> f.wf() && f@ == EncoderView::of(
                payload@,
                symbol_size as nat,
                thresholds@,
            ),
    {
        match FountainEncoder::try_new(payload, symbol_size, thresholds) {
            Some(encoder) => Some(Fountain { encoder }),
            None => None,
        }
    }

    /// The number of source blocks.
    pub fn k(&self) -> (k: u32)
        ensures
            k == self@.k as u32,
    {
        self.encoder.k() as u32
    }

    /// The number of inputs.
    pub fn l(&self) -> (l: u32)
        requires
            self.wf(),
        ensures
            l == self@.inputs.len() as u32,
    {
        self.encoder.l() as u32
    }

    /// The number of payload bytes.
    pub fn payload_len(&self) -> (len: usize)
        ensures
            len == self@.payload_len,
    {
        self.encoder.payload_len()
    }

    /// The symbol size in bytes.
    pub fn symbol_size(&self) -> (size: usize)
        ensures
            size == self@.symbol_size,
    {
        self.encoder.symbol_size()
    }

    /// XXH3 checksum as 16 hexadecimal digits.
    pub fn checksum_hex(&self) -> (text: String)
        ensures
            text@ == hex_text(self@.checksum as nat, 16),
    {
        hex_of(self.encoder.checksum())
    }

    /// The data of symbol `esi`; `None` when drawing its inputs is given up.
    pub fn encode_symbol(&self, esi: u32) -> (data: Option<Vec<u8>>)
        requires
            self.wf(),
        ensures
            data is Some <==> lt_draws_end_soon(
                self@.inputs.len() as usize,
                self@.table,
                esi,
            ),
            data matches Some(d) ==> d@ == self@.symbol(esi),
    {
        match self.encoder.try_encode_symbol(esi) {
            Some(symbol) => Some(symbol.data),
            None => None,
        }
    }
}

/// Decodes fountain symbols, counting what it is given.
pub struct Decoder {
    decoder: FountainDecoder,
    received: u32,
}

/// What a decoder holds, and how many symbols it was given.
pub struct CountedDecoder {
    pub decoder: DecoderView,
    pub received: u32,
}

impl View for Decoder {
    type V = CountedDecoder;

    closed spec fn view(&self) -> CountedDecoder {
        CountedDecoder { decoder: self.decoder@, received: self.received }
    }
}

impl Decoder {
    /// Whether the decoder is in order.
    pub closed spec fn wf(&self) -> bool {
        self.decoder.wf()
    }

    /// A decoder for an expected payload, given the degree table for its
    /// inputs; `None` when drawing the inputs of a check is given up.
    pub fn new(
        payload_len: usize,
        symbol_size: usize,
        k: u32,
        checksum_hex: &str,
        thresholds: Vec<u64>,
    ) -> (decoder: Option<Self>)
        requires
            k > 0,
            total_inputs(k as nat) <= usize::MAX,
            thresholds@.len() == total_inputs(k as nat) + 1,
            checksum_value(checksum_hex@) is Some,
        ensures
            decoder is Some <==> checks_end_soon(k as nat),
            decoder matches Some(d) ==> d.wf() && d@ == (CountedDecoder {
                decoder: DecoderView::fresh(
                    payload_len as nat,
                    symbol_size as nat,
                    k as nat,
                    checksum_value(checksum_hex@)->0,
                    thresholds@,
                ),
                received: 0,
            }),
    {
        match parse_checksum(checksum_hex) {
            Some(checksum) => match FountainDecoder::try_new(
                payload_len,
                symbol_size,
                k as usize,
                checksum,
                thresholds,
            ) {
                Some(decoder) => Some(Decoder { decoder, received: 0 }),
                None => None,
            },
            None => None,
        }
    }

    /// Counts and decodes a symbol, and returns whether decoding is complete, or
    /// why the symbol cannot be taken in.
    pub fn add_symbol(&mut self, esi: u32, data: &[u8]) -> (complete: Result<bool, SymbolError>)
        requires
            old(self).wf(),
            old(self)@.received < u32::MAX,
        ensures
            final(self).wf(),
            final(self)@.received == old(self)@.received + 1,
            (final(self)@.decoder, complete) == old(self)@.decoder.try_add_symbol(esi, data@),
    {
        self.received = self.received + 1;
        let symbol_size: usize = self.decoder.symbol_size();
        self.decoder.try_add_symbol(EncodedSymbol { esi, symbol_size, data: slice_to_vec(data) })
    }

    /// The number of symbols given so far, repeated ones included.
    pub fn received(&self) -> (received: u32)
        ensures
            received == self@.received,
    {
        self.received
    }

    /// Whether decoding is complete.
    pub fn is_complete(&self) -> (complete: bool)
        requires
            self.wf(),
        ensures
            complete == self@.decoder.complete(),
    {
        self.decoder.is_complete()
    }

    /// Returns the reconstructed payload.
    pub fn reconstruct(&self) -> (result: Result<Vec<u8>, DecoderError>)
        requires
            self.wf(),
        ensures
            match result {
                Ok(payload) => self@.decoder.reconstruct() == Ok::<Seq<u8>, DecoderError>(payload@),
                Err(e) => self@.decoder.reconstruct() == Err::<Seq<u8>, DecoderError>(e),
            },
    {
        self.decoder.reconstruct()
    }
}

} // verus!
