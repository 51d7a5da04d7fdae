//! Receiver side of a transfer session.
//!
//! The receiver decodes fountain symbols on the fly until the payload is fully
//! reconstructed and checksum-verified, then signals READY so the sender can
//! stop emitting. It merges the streams of all relays and of the optional P2P
//! direct channel; duplicated symbols are harmless for a rateless decoder, and
//! the first Meta to arrive (from any relay) sets up the decoder.
use crate::buffers::{bytes_content, bytes_slice};
use crate::crypto::{opened_symbol, SessionCipher};
use crate::decoder::{DecoderError, DecoderView, FountainDecoder, SymbolError};
use crate::encoder::{checks_end_soon, EncodedSymbol};
use crate::precode::{inputs_for, total_inputs};
use crate::sender::cipher_key;
use crate::wire::{MessageView, OrbitMessage, ROLE_RECEIVER};
use bytes::Bytes;
use std::collections::VecDeque;
use vstd::prelude::*;
use vstd::slice::slice_to_vec;

verus! {

/// Why a transfer ends without a payload.
#[derive(Debug, Clone, Copy, PartialEq, Eq)]
pub enum ReceiverError {
    /// Symbol `esi` is not authentic.
    OpenFailed { esi: u32 },
    /// With symbol `esi` of `len` bytes, a block of one size would have to be
    /// XORed with one of another.
    SymbolSize { esi: u32, len: usize },
    /// Drawing the inputs of a check or a symbol was given up.
    DrawLimit,
    /// The Meta message describes no payload: it has no source block, or more
    /// than can be counted.
    InvalidMeta,
    /// The sender aborted the transfer.
    SenderAborted,
    /// All relay connections closed before Meta arrived.
    ClosedBeforeMeta,
    /// All relay connections closed before the transfer completed.
    ClosedBeforeEnd,
}

/// What happens on the receiver's links.
#[derive(Debug)]
pub enum ReceiverEvent {
    /// A message came over a relay.
    Relay(OrbitMessage),
    /// A relay connection closed or failed.
    RelayClosed,
    /// No relay connection is left to listen to.
    RelaysGone,
    /// A message came over the direct link.
    Direct(OrbitMessage),
    /// The direct link closed.
    DirectClosed,
}

/// An event, with what its message says.
pub enum ReceiverEventView {
    Relay(MessageView),
    RelayClosed,
    RelaysGone,
    Direct(MessageView),
    DirectClosed,
}

impl View for ReceiverEvent {
    type V = ReceiverEventView;

    open spec fn view(&self) -> ReceiverEventView {
        match *self {
            ReceiverEvent::Relay(msg) => ReceiverEventView::Relay(msg@),
            ReceiverEvent::RelayClosed => ReceiverEventView::RelayClosed,
            ReceiverEvent::RelaysGone => ReceiverEventView::RelaysGone,
            ReceiverEvent::Direct(msg) => ReceiverEventView::Direct(msg@),
            ReceiverEvent::DirectClosed => ReceiverEventView::DirectClosed,
        }
    }
}

/// What a receiver holds.
#[verifier::ext_equal]
pub struct ReceiverView {
    pub session_id: u64,
    pub key: Option<Seq<u8>>,
    pub n_relays: nat,
    pub relays_closed: nat,
    /// Whether the direct link may still deliver.
    pub direct: bool,
    pub decoder: Option<DecoderView>,
    /// Symbols that came before Meta, oldest first.
    pub pending: Seq<(u32, Seq<u8>)>,
    pub filename: Option<Seq<char>>,
    pub symbols: u64,
    pub bytes: u64,
    pub via_direct: u64,
    pub via_relay: u64,
}

impl ReceiverView {
    /// A receiver that nothing has come to.
    pub open spec fn waiting(session_id: u64, key: Option<Seq<u8>>, n_relays: nat) -> ReceiverView {
        ReceiverView {
            session_id,
            key,
            n_relays,
            relays_closed: 0,
            direct: false,
            decoder: None,
            pending: Seq::empty(),
            filename: None,
            symbols: 0,
            bytes: 0,
            via_direct: 0,
            via_relay: 0,
        }
    }

    /// What a symbol's data says: opened if there is a key, as it is otherwise;
    /// `None` if it is not authentic.
    pub open spec fn opened(self, esi: u32, data: Seq<u8>) -> Option<Seq<u8>> {
        match self.key {
            Some(key) => opened_symbol(key, self.session_id, esi, data),
            None => Some(data),
        }
    }

    /// Takes in a symbol: keeps it while there is no decoder, and decodes it
    /// otherwise. The result tells whether decoding is complete.
    pub open spec fn take_symbol(self, esi: u32, data: Seq<u8>) -> (
        ReceiverView,
        Result<bool, ReceiverError>,
    ) {
        match self.decoder {
            None => (ReceiverView { pending: self.pending.push((esi, data)), ..self }, Ok(false)),
            Some(d) => match self.opened(esi, data) {
                None => (self, Err(ReceiverError::OpenFailed { esi })),
                Some(msg) => {
                    let (next, added) = d.try_add_symbol(esi, msg);
                    (
                        ReceiverView { decoder: Some(next), ..self },
                        match added {
                            Ok(complete) => Ok(complete),
                            Err(SymbolError::DrawLimit) => Err(ReceiverError::DrawLimit),
                            Err(SymbolError::Size) => Err(
                                ReceiverError::SymbolSize { esi, len: msg.len() as usize },
                            ),
                        },
                    )
                },
            },
        }
    }

    /// Takes in the symbols that came before Meta, oldest first, until decoding
    /// is complete or one of them fails.
    pub open spec fn take_pending(self) -> (ReceiverView, Result<bool, ReceiverError>)
        decreases self.pending.len(),
    {
        if self.pending.len() == 0 || self.decoder is None {
            (self, Ok(false))
        } else {
            let (esi, data) = self.pending[0];
            let rest = ReceiverView { pending: self.pending.skip(1), ..self };
            let (next, result) = rest.take_symbol(esi, data);
            if result == Ok::<bool, ReceiverError>(false) {
                next.take_pending()
            } else {
                (next, result)
            }
        }
    }

    /// Takes in the first Meta message.
    pub open spec fn take_meta(
        self,
        filename: Seq<char>,
        size: u64,
        symbol_size: u32,
        k: u32,
        checksum: u64,
        table: Seq<u64>,
    ) -> (ReceiverView, Result<bool, ReceiverError>) {
        let named = ReceiverView { filename: Some(filename), ..self };
        if k == 0 || total_inputs(k as nat) > usize::MAX {
            (named, Err(ReceiverError::InvalidMeta))
        } else if !checks_end_soon(k as nat) {
            (named, Err(ReceiverError::DrawLimit))
        } else {
            ReceiverView {
                decoder: Some(
                    DecoderView::fresh(
                        size as usize as nat,
                        symbol_size as nat,
                        k as nat,
                        checksum,
                        table,
                    ),
                ),
                ..named
            }.take_pending()
        }
    }

    /// The receiver with one more symbol counted.
    pub open spec fn counted(self, direct: bool, len: nat) -> ReceiverView {
        ReceiverView {
            symbols: (self.symbols + 1) as u64,
            bytes: (self.bytes + len) as u64,
            via_direct: if direct {
                (self.via_direct + 1) as u64
            } else {
                self.via_direct
            },
            via_relay: if direct {
                self.via_relay
            } else {
                (self.via_relay + 1) as u64
            },
            ..self
        }
    }

    /// Handles an event, given the degree table if it is the first Meta. The
    /// result tells whether decoding is complete.
    pub open spec fn step(self, event: ReceiverEventView, table: Seq<u64>) -> (
        ReceiverView,
        Result<bool, ReceiverError>,
    ) {
        match event {
            ReceiverEventView::Relay(msg) => match msg {
                MessageView::Meta { filename, size, symbol_size, k, checksum, .. } => {
                    if self.decoder is None {
                        self.take_meta(filename, size, symbol_size, k, checksum, table)
                    } else {
                        (self, Ok(false))
                    }
                },
                MessageView::Symbol { esi, data, .. } => self.counted(
                    false,
                    data.len(),
                ).take_symbol(esi, data),
                MessageView::Done { .. } => (self, Err(ReceiverError::SenderAborted)),
                _ => (self, Ok(false)),
            },
            ReceiverEventView::RelayClosed => {
                let next = ReceiverView { relays_closed: self.relays_closed + 1, ..self };
                if next.decoder is None && next.relays_closed == next.n_relays {
                    (next, Err(ReceiverError::ClosedBeforeMeta))
                } else {
                    (next, Ok(false))
                }
            },
            ReceiverEventView::RelaysGone => {
                if self.decoder is None || !self.direct {
                    (self, Err(ReceiverError::ClosedBeforeEnd))
                } else {
                    (self, Ok(false))
                }
            },
            ReceiverEventView::Direct(msg) => match msg {
                MessageView::Symbol { esi, data, .. } => self.counted(
                    true,
                    data.len(),
                ).take_symbol(esi, data),
                _ => (self, Ok(false)),
            },
            ReceiverEventView::DirectClosed => (ReceiverView { direct: false, ..self }, Ok(false)),
        }
    }

    /// Whether an event can be counted: a symbol's bytes do not exceed the
    /// counters, and no more relays close than there are.
    pub open spec fn countable(self, event: ReceiverEventView) -> bool {
        match event {
            ReceiverEventView::Relay(MessageView::Symbol { data, .. }) => self.symbols < u64::MAX
                && self.bytes + data.len() <= u64::MAX,
            ReceiverEventView::Direct(MessageView::Symbol { data, .. }) => self.symbols < u64::MAX
                && self.bytes + data.len() <= u64::MAX,
            ReceiverEventView::RelayClosed => self.relays_closed < self.n_relays,
            _ => true,
        }
    }

    /// The number of inputs for which an event needs a degree table: only the
    /// first Meta does.
    pub open spec fn table_inputs(self, event: ReceiverEventView) -> Option<nat> {
        match event {
            ReceiverEventView::Relay(MessageView::Meta { k, .. }) => {
                if self.decoder is None && k > 0 && total_inputs(k as nat) <= usize::MAX {
                    Some(total_inputs(k as nat))
                } else {
                    None
                }
            },
            _ => None,
        }
    }
}

/// Receiver side of a transfer session.
pub struct ReceiverSession {
    session_id: u64,
    cipher: Option<SessionCipher>,
    n_relays: usize,
    relays_closed: usize,
    direct: bool,
    decoder: Option<FountainDecoder>,
    pending: VecDeque<(u32, Bytes)>,
    filename: Option<String>,
    symbols: u64,
    bytes: u64,
    via_direct: u64,
    via_relay: u64,
}

/// The contents of symbols that wait.
closed spec fn pending_views(pending: Seq<(u32, Bytes)>) -> Seq<(u32, Seq<u8>)> {
    Seq::new(pending.len(), |i: int| (pending[i].0, bytes_content(pending[i].1)))
}

/// What an optional decoder holds.
closed spec fn decoder_view(decoder: Option<FountainDecoder>) -> Option<DecoderView> {
    match decoder {
        Some(d) => Some(d@),
        None => None,
    }
}

/// An optional text.
closed spec fn text_view(text: Option<String>) -> Option<Seq<char>> {
    match text {
        Some(t) => Some(t@),
        None => None,
    }
}

impl View for ReceiverSession {
    type V = ReceiverView;

    closed spec fn view(&self) -> ReceiverView {
        ReceiverView {
            session_id: self.session_id,
            key: cipher_key(self.cipher),
            n_relays: self.n_relays as nat,
            relays_closed: self.relays_closed as nat,
            direct: self.direct,
            decoder: decoder_view(self.decoder),
            pending: pending_views(self.pending@),
            filename: text_view(self.filename),
            symbols: self.symbols,
            bytes: self.bytes,
            via_direct: self.via_direct,
            via_relay: self.via_relay,
        }
    }
}

impl ReceiverSession {
    /// Whether the parts of the session fit together.
    pub closed spec fn wf(&self) -> bool {
        &&& self.decoder matches Some(d) ==> d.wf()
        &&& self.relays_closed <= self.n_relays
        &&& self.via_direct + self.via_relay == self.symbols
    }

    /// Prepares to receive over `n_relays` relays; `None` if there is no relay.
    pub fn new(
        session_id: u64,
        cipher: Option<SessionCipher>,
        n_relays: usize,
    ) -> (session: Option<Self>)
        ensures
            session is None <==> n_relays == 0,
            session matches Some(s) ==> s.wf() && s@ == (ReceiverView {
                session_id,
                key: cipher_key(cipher),
                n_relays: n_relays as nat,
                relays_closed: 0,
                direct: false,
                decoder: None,
                pending: Seq::empty(),
                filename: None,
                symbols: 0,
                bytes: 0,
                via_direct: 0,
                via_relay: 0,
            }),
            session matches Some(s) ==> s@ == ReceiverView::waiting(
                session_id,
                cipher_key(cipher),
                n_relays as nat,
            ),
    {
        if n_relays == 0 {
            return None;
        }
        let session = ReceiverSession {
            session_id,
            cipher,
            n_relays,
            relays_closed: 0,
            direct: false,
            decoder: None,
            pending: VecDeque::new(),
            filename: None,
            symbols: 0,
            bytes: 0,
            via_direct: 0,
            via_relay: 0,
        };
        proof {
            assert(session@.pending =~= Seq::<(u32, Seq<u8>)>::empty());
        }
        Some(session)
    }

    /// Expects symbols over a direct link, too.
    pub fn expect_direct(&mut self)
        requires
            old(self).wf(),
        ensures
            final(self).wf(),
            final(self)@ == (ReceiverView { direct: true, ..old(self)@ }),
    {
        self.direct = true;
    }

    /// The message that registers the receiver at a relay.
    pub fn hello(&self) -> (msg: OrbitMessage)
        ensures
            msg@ == (MessageView::Hello { session_id: self@.session_id, role: ROLE_RECEIVER }),
    {
        OrbitMessage::Hello { session_id: self.session_id, role: ROLE_RECEIVER }
    }

    /// The message that tells the sender that all is decoded.
    fn ready(&self) -> (msg: OrbitMessage)
        ensures
            msg@ == (MessageView::Ready { session_id: self@.session_id }),
    {
        OrbitMessage::Ready { session_id: self.session_id }
    }

    /// The message that advertises a P2P address.
    pub fn advertisement(&self, addr: String) -> (msg: OrbitMessage)
        ensures
            msg@ == (MessageView::Direct { session_id: self@.session_id, addr: addr@ }),
    {
        OrbitMessage::Direct { session_id: self.session_id, addr }
    }

    /// The name of the file that is received, once it is known.
    pub fn filename(&self) -> (name: Option<&str>)
        ensures
            match name {
                Some(n) => self@.filename == Some(n@),
                None => self@.filename is None,
            },
    {
        match &self.filename {
            Some(name) => Some(name.as_str()),
            None => None,
        }
    }

    /// The number of source blocks K, once it is known.
    pub fn k(&self) -> (k: Option<usize>)
        ensures
            match (k, self@.decoder) {
                (Some(k), Some(d)) => k == d.k,
                (None, None) => true,
                _ => false,
            },
    {
        match &self.decoder {
            Some(decoder) => Some(decoder.k()),
            None => None,
        }
    }

    /// The number of symbol bytes received.
    pub fn bytes(&self) -> (bytes: u64)
        ensures
            bytes == self@.bytes,
    {
        self.bytes
    }

    /// The number of symbols received.
    pub fn symbols(&self) -> (symbols: u64)
        ensures
            symbols == self@.symbols,
    {
        self.symbols
    }

    /// The number of symbols received over the direct link.
    pub fn via_direct(&self) -> (symbols: u64)
        ensures
            symbols == self@.via_direct,
    {
        self.via_direct
    }

    /// The number of symbols received over relays.
    pub fn via_relay(&self) -> (symbols: u64)
        ensures
            symbols == self@.via_relay,
    {
        self.via_relay
    }

    /// Whether the direct link may still deliver.
    pub fn has_direct(&self) -> (direct: bool)
        ensures
            direct == self@.direct,
    {
        self.direct
    }

    /// The number of relay connections that have not closed.
    pub fn relays_open(&self) -> (open: usize)
        requires
            self.wf(),
        ensures
            open == self@.n_relays - self@.relays_closed,
    {
        self.n_relays - self.relays_closed
    }

    /// The number of inputs for which an event needs a degree table: only the
    /// first Meta does.
    pub fn table_inputs(&self, event: &ReceiverEvent) -> (l: Option<usize>)
        ensures
            match l {
                Some(n) => self@.table_inputs(event@) == Some(n as nat),
                None => self@.table_inputs(event@) is None,
            },
    {
        if self.decoder.is_some() {
            return None;
        }
        match event {
            ReceiverEvent::Relay(OrbitMessage::Meta { k, .. }) => {
                if *k == 0 {
                    None
                } else {
                    inputs_for(*k as usize)
                }
            },
            _ => None,
        }
    }

    /// Takes in a symbol. A P2P symbol, or a symbol from another relay, can
    /// beat the relayed Meta over the network; it is kept until the Meta
    /// arrives.
    fn handle_symbol(&mut self, esi: u32, data: Bytes) -> (result: Result<bool, ReceiverError>)
        requires
            old(self).wf(),
        ensures
            final(self).wf(),
            (final(self)@, result) == old(self)@.take_symbol(esi, bytes_content(data)),
    {
        let ghost before = self@;
        let mut decoder: Option<FountainDecoder> = None;
        std::mem::swap(&mut decoder, &mut self.decoder);
        match decoder {
            None => {
                self.pending.push_back((esi, data));
                proof {
                    assert(self@.pending =~= before.pending.push((esi, bytes_content(data))));
                }
                Ok(false)
            },
            Some(mut d) => {
                let opened: Vec<u8> = match &self.cipher {
                    Some(cipher) => match cipher.open_symbol(
                        self.session_id,
                        esi,
                        bytes_slice(&data),
                    ) {
                        Ok(msg) => msg,
                        Err(_) => {
                            self.decoder = Some(d);
                            return Err(ReceiverError::OpenFailed { esi });
                        },
                    },
                    None => slice_to_vec(bytes_slice(&data)),
                };
                let size: usize = d.symbol_size();
                let len: usize = opened.len();
                let added = d.try_add_symbol(
                    EncodedSymbol { esi, symbol_size: size, data: opened },
                );
                self.decoder = Some(d);
                match added {
                    Ok(complete) => Ok(complete),
                    Err(SymbolError::DrawLimit) => Err(ReceiverError::DrawLimit),
                    Err(SymbolError::Size) => Err(ReceiverError::SymbolSize { esi, len }),
                }
            },
        }
    }

    /// Takes in the symbols that came before Meta.
    fn handle_pending(&mut self) -> (result: Result<bool, ReceiverError>)
        requires
            old(self).wf(),
            old(self)@.decoder is Some,
        ensures
            final(self).wf(),
            (final(self)@, result) == old(self)@.take_pending(),
    {
        let ghost before = self@;
        while self.pending.len() > 0
            invariant
                self.wf(),
                self@.decoder is Some,
                before == old(self)@,
                before.take_pending() == self@.take_pending(),
            decreases self.pending@.len(),
        {
            let ghost was = self@;
            proof {
                assert(was.pending.len() == self.pending@.len());
            }
            if let Some((esi, data)) = self.pending.pop_front() {
                proof {
                    assert(was.pending[0] == (esi, bytes_content(data)));
                    assert(self@.pending =~= was.pending.skip(1));
                    assert(self@ == ReceiverView { pending: was.pending.skip(1), ..was });
                }
                let ghost rest = self@;
                let result = self.handle_symbol(esi, data);
                proof {
                    assert(self@.pending == rest.pending);
                    assert(self.pending@.len() == self@.pending.len());
                }
                match result {
                    Ok(false) => {},
                    _ => {
                        return result;
                    },
                }
            }
        }
        proof {
            assert(self@.pending.len() == 0);
        }
        Ok(false)
    }

    /// Handles an event, given the degree table if it needs one. Returns
    /// whether decoding is complete.
    pub fn on_event(&mut self, event: ReceiverEvent, thresholds: Vec<u64>) -> (result: Result<
        bool,
        ReceiverError,
    >)
        requires
            old(self).wf(),
            old(self)@.countable(event@),
            old(self)@.table_inputs(event@) matches Some(l) ==> thresholds@.len() == l + 1,
        ensures
            final(self).wf(),
            (final(self)@, result) == old(self)@.step(event@, thresholds@),
    {
        let ghost before = self@;
        match event {
            ReceiverEvent::Relay(msg) => match msg {
                OrbitMessage::Meta { filename, size, symbol_size, k, checksum, .. } => {
                    if self.decoder.is_some() {
                        return Ok(false);
                    }
                    self.filename = Some(filename);
                    if k == 0 || inputs_for(k as usize).is_none() {
                        return Err(ReceiverError::InvalidMeta);
                    }
                    match FountainDecoder::try_new(
                        size as usize,
                        symbol_size as usize,
                        k as usize,
                        checksum,
                        thresholds,
                    ) {
                        Some(decoder) => {
                            self.decoder = Some(decoder);
                            self.handle_pending()
                        },
                        None => Err(ReceiverError::DrawLimit),
                    }
                },
                OrbitMessage::Symbol { esi, data, .. } => {
                    self.via_relay = self.via_relay + 1;
                    self.symbols = self.symbols + 1;
                    self.bytes = self.bytes + bytes_slice(&data).len() as u64;
                    self.handle_symbol(esi, data)
                },
                OrbitMessage::Done { .. } => Err(ReceiverError::SenderAborted),
                _ => Ok(false),
            },
            ReceiverEvent::RelayClosed => {
                self.relays_closed = self.relays_closed + 1;
                if self.decoder.is_none() && self.relays_closed == self.n_relays {
                    return Err(ReceiverError::ClosedBeforeMeta);
                }
                Ok(false)
            },
            ReceiverEvent::RelaysGone => {
                if self.decoder.is_none() || !self.direct {
                    return Err(ReceiverError::ClosedBeforeEnd);
                }
                Ok(false)
            },
            ReceiverEvent::Direct(msg) => match msg {
                OrbitMessage::Symbol { esi, data, .. } => {
                    self.via_direct = self.via_direct + 1;
                    self.symbols = self.symbols + 1;
                    self.bytes = self.bytes + bytes_slice(&data).len() as u64;
                    self.handle_symbol(esi, data)
                },
                _ => Ok(false),
            },
            ReceiverEvent::DirectClosed => {
                self.direct = false;
                Ok(false)
            },
        }
    }

    /// Takes note that a relay connection closed while the links are drained
    /// after READY.
    pub fn relay_drained(&mut self)
        requires
            old(self).wf(),
            old(self)@.relays_closed < old(self)@.n_relays,
        ensures
            final(self).wf(),
            final(self)@ == (ReceiverView {
                relays_closed: old(self)@.relays_closed + 1,
                ..old(self)@
            }),
    {
        self.relays_closed = self.relays_closed + 1;
    }

    /// The payload, once decoding is complete and its checksum is right; `None`
    /// if no Meta has arrived.
    pub fn payload(&self) -> (payload: Option<Result<Vec<u8>, DecoderError>>)
        requires
            self.wf(),
        ensures
            match (payload, self@.decoder) {
                (Some(Ok(p)), Some(d)) => d.reconstruct() == Ok::<Seq<u8>, DecoderError>(p@),
                (Some(Err(e)), Some(d)) => d.reconstruct() == Err::<Seq<u8>, DecoderError>(e),
                (None, None) => true,
                _ => false,
            },
    {
        match &self.decoder {
            Some(decoder) => Some(decoder.reconstruct()),
            None => None,
        }
    }

    /// The payload, with the READY that tells the sender so. READY is for a
    /// payload that is reconstructed and has the right checksum; without one
    /// there is the decoder's error, or `None` if no Meta has arrived.
    pub fn finish(&self) -> (finished: Option<Result<(Vec<u8>, OrbitMessage), DecoderError>>)
        requires
            self.wf(),
        ensures
            match (finished, self@.decoder) {
                (Some(Ok((p, m))), Some(d)) => {
                    &&& d.reconstruct() == Ok::<Seq<u8>, DecoderError>(p@)
                    &&& m@ == (MessageView::Ready { session_id: self@.session_id })
                },
                (Some(Err(e)), Some(d)) => d.reconstruct() == Err::<Seq<u8>, DecoderError>(e),
                (None, None) => true,
                _ => false,
            },
    {
        match self.payload() {
            Some(Ok(payload)) => Some(Ok((payload, self.ready()))),
            Some(Err(e)) => Some(Err(e)),
            None => None,
        }
    }

    /// Every symbol received came over exactly one path.
    pub proof fn law_every_symbol_came_over_one_path(&self)
        requires
            self.wf(),
        ensures
            self@.via_direct + self@.via_relay == self@.symbols,
    {
    }
}

} // verus!
