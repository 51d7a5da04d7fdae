//! Sender side of a transfer session.
//!
//! The sender is *truly rateless*: it keeps emitting new encoded symbols until
//! the receiver signals READY. No fixed overhead is assumed, so any loss rate
//! is tolerated as long as the links eventually deliver K + epsilon symbols.
//!
//! Symbols are spread over N edge relays and one optional P2P direct channel; a
//! failed relay is disabled on the fly and its load is re-routed over the
//! surviving paths. The caller owns the links: it reports what happens on them
//! and carries out the steps that the session asks for.
use crate::buffers::bytes_from;
use crate::crypto::{opened_symbol, sealed_symbol, SessionCipher, MAX_SEALED_DATA};
use crate::encoder::{block_count, checks_end_soon, EncoderView, FountainEncoder};
use crate::precode::total_inputs;
use crate::scheduler::{law_equal_shares_alternate, MultiPathScheduler, SchedulerView};
use crate::soliton::lt_draws_end_soon;
use crate::wire::{MessageView, OrbitMessage, ROLE_SENDER};
use vstd::prelude::*;

verus! {

/// How long, in nanoseconds, emission may be blocked with no successful send
/// before the receiver (or every path) counts as gone.
pub const STALL_TIMEOUT_NANOS: u128 = 30_000_000_000;

/// Why a transfer ends without the receiver's READY, or does not start.
#[derive(Debug, Clone, Copy, PartialEq, Eq)]
pub enum SenderError {
    /// There is no relay to connect to.
    NoRelay,
    /// No path is left.
    AllRelaysUnreachable,
    /// Every path was blocked for too long.
    Stalled,
    /// Drawing a symbol's inputs was given up.
    DrawLimit,
}

/// What the watchers of the links report.
#[derive(Debug, Clone, Copy, PartialEq, Eq)]
pub enum SenderEvent {
    /// Receiver decoded the full payload; stop emitting.
    Ready,
    /// A P2P direct link to the receiver is up.
    Direct,
}

/// What is to be done next.
#[derive(Debug)]
pub enum SenderStep {
    /// The transfer is over.
    Finished,
    /// Queue the symbol on a relay, starting with relay `first`.
    Relay { msg: OrbitMessage, first: usize },
    /// Queue the symbol on the direct link.
    Direct { msg: OrbitMessage },
}

/// What became of a symbol on the direct link.
#[derive(Debug, Clone, Copy, PartialEq, Eq)]
pub enum DirectOutcome {
    /// It was queued.
    Queued,
    /// The queue is momentarily full.
    Full,
    /// The link is dead.
    Dead,
}

/// Tells what became of a symbol on the direct link from whether it was queued
/// and, if not, whether the link is still alive.
pub fn direct_outcome(queued: bool, alive: bool) -> (outcome: DirectOutcome)
    ensures
        outcome == (if queued {
            DirectOutcome::Queued
        } else if alive {
            DirectOutcome::Full
        } else {
            DirectOutcome::Dead
        }),
        outcome == outcome_of(queued, alive),
{
    if queued {
        DirectOutcome::Queued
    } else if alive {
        DirectOutcome::Full
    } else {
        DirectOutcome::Dead
    }
}

/// What a sender holds.
pub struct SenderView {
    pub encoder: EncoderView,
    pub key: Option<Seq<u8>>,
    pub session_id: u64,
    pub filename: Seq<char>,
    pub scheduler: SchedulerView,
    /// Whether a direct link is up.
    pub direct: bool,
    /// Whether the receiver is done.
    pub finished: bool,
    /// The ESI of the symbol that is next.
    pub esi: u32,
    pub via_direct: u64,
    pub via_relay: u64,
}

/// What became of a symbol on the direct link that was queued or not, and if not,
/// is still alive or not.
pub open spec fn outcome_of(queued: bool, alive: bool) -> DirectOutcome {
    if queued {
        DirectOutcome::Queued
    } else if alive {
        DirectOutcome::Full
    } else {
        DirectOutcome::Dead
    }
}

impl SenderView {
    /// A sender that has sent nothing.
    pub open spec fn starting(
        encoder: EncoderView,
        key: Option<Seq<u8>>,
        session_id: u64,
        filename: Seq<char>,
        n_relays: nat,
    ) -> SenderView {
        SenderView {
            encoder,
            key,
            session_id,
            filename,
            scheduler: SchedulerView { n_relays, ..SchedulerView::split(1, 1) },
            direct: false,
            finished: false,
            esi: 0,
            via_direct: 0,
            via_relay: 0,
        }
    }

    /// Whether `data` is what symbol `esi` looks like on the wire: sealed if
    /// there is a key, plain otherwise.
    pub open spec fn carries(self, esi: u32, data: Seq<u8>) -> bool {
        match self.key {
            Some(key) => {
                &&& data == sealed_symbol(key, self.session_id, esi, self.encoder.symbol(esi))
                &&& opened_symbol(key, self.session_id, esi, data) == Some(
                    self.encoder.symbol(esi),
                )
            },
            None => data == self.encoder.symbol(esi),
        }
    }

    /// Whether a message is the symbol that is next.
    pub open spec fn is_next(self, msg: MessageView) -> bool {
        msg matches MessageView::Symbol { session_id, esi, data } && session_id == self.session_id
            && esi == self.esi && self.carries(esi, data)
    }

    /// Whether the next symbol is tried on the direct link.
    pub open spec fn goes_direct(self) -> bool {
        self.direct && !self.scheduler.relays(self.esi)
    }

    /// The relay that the next symbol is tried on first.
    pub open spec fn first_relay(self) -> nat {
        if self.scheduler.relays(self.esi) {
            self.scheduler.next_relay
        } else {
            0
        }
    }

    /// The sender after what became of its symbol on the direct link.
    pub open spec fn after_direct(self, outcome: DirectOutcome) -> SenderView {
        match outcome {
            DirectOutcome::Queued => SenderView {
                esi: (self.esi + 1) as u32,
                via_direct: (self.via_direct + 1) as u64,
                ..self
            },
            DirectOutcome::Full => self,
            DirectOutcome::Dead => SenderView { direct: false, ..self },
        }
    }

    /// The sender after a relay took its symbol, or none did.
    pub open spec fn after_relay(self, queued: bool) -> SenderView {
        if queued {
            SenderView {
                esi: (self.esi + 1) as u32,
                via_relay: (self.via_relay + 1) as u64,
                ..self
            }
        } else {
            self
        }
    }

    /// The sender after an event.
    pub open spec fn after_event(self, event: SenderEvent) -> SenderView {
        match event {
            SenderEvent::Ready => SenderView { finished: true, ..self },
            SenderEvent::Direct => SenderView { direct: true, ..self },
        }
    }

    /// The message that describes the payload.
    pub open spec fn description(self) -> MessageView {
        MessageView::Meta {
            session_id: self.session_id,
            filename: self.filename,
            size: self.encoder.payload_len as u64,
            symbol_size: self.encoder.symbol_size as u32,
            k: self.encoder.k as u32,
            checksum: self.encoder.checksum,
        }
    }

    /// The sender after a turn of the scheduler.
    pub open spec fn after_turn(self) -> SenderView {
        SenderView { scheduler: self.scheduler.after(self.esi), ..self }
    }
}

/// Whether emission goes on after a try on the relays, or why it ends.
pub open spec fn emission(queued: bool, any_relay_alive: bool, idle_nanos: u128) -> Result<
    (),
    SenderError,
> {
    if queued {
        Ok(())
    } else if !any_relay_alive {
        Err(SenderError::AllRelaysUnreachable)
    } else if idle_nanos > STALL_TIMEOUT_NANOS {
        Err(SenderError::Stalled)
    } else {
        Ok(())
    }
}

/// What a watcher of a relay link does about a message, or about the end of its
/// stream.
pub open spec fn watched(msg: Option<MessageView>, direct_up: bool) -> WatchAction {
    match msg {
        Some(MessageView::Ready { .. }) => WatchAction::ReportReady,
        Some(MessageView::Direct { .. }) => if direct_up {
            WatchAction::Ignore
        } else {
            WatchAction::Connect
        },
        Some(_) => WatchAction::Ignore,
        None => WatchAction::Stop,
    }
}

/// The path numbers in the order in which they are tried from `first` on.
pub open spec fn path_at(first: nat, n: nat, offset: nat) -> nat {
    (first + offset) % n
}

/// Picks the path that takes a symbol: the first one from `first` on, in cyclic
/// order, that is alive and has room in its queue. `None` when every path is
/// full or dead, or there is none.
pub fn dispatch(first: usize, alive: &Vec<bool>, room: &Vec<bool>) -> (path: Option<usize>)
    requires
        alive@.len() == room@.len(),
    ensures
        match path {
            Some(j) => exists|offset: nat|
                {
                    &&& offset < alive@.len()
                    &&& j == #[trigger] path_at(first as nat, alive@.len(), offset)
                    &&& alive@[j as int] && room@[j as int]
                    &&& forall|o: nat|
                        o < offset ==> {
                            let i = #[trigger] path_at(first as nat, alive@.len(), o);
                            !(alive@[i as int] && room@[i as int])
                        }
                },
            None => forall|j: int| 0 <= j < alive@.len() ==> !(#[trigger] alive@[j] && room@[j]),
        },
{
    let n: usize = alive.len();
    if n == 0 {
        return None;
    }
    let ghost from = first as nat;
    let mut j: usize = first % n;
    let mut offset: usize = 0;
    while offset < n
        invariant
            n == alive@.len() == room@.len(),
            from == first,
            offset <= n,
            j < n,
            j == path_at(from, n as nat, offset as nat),
            forall|o: nat|
                o < offset ==> {
                    let i = #[trigger] path_at(from, n as nat, o);
                    !(alive@[i as int] && room@[i as int])
                },
        decreases n - offset,
    {
        if alive[j] && room[j] {
            return Some(j);
        }
        proof {
            lemma_next_path(from, n as nat, offset as nat);
        }
        j = if j + 1 < n {
            j + 1
        } else {
            0
        };
        offset = offset + 1;
    }
    proof {
        assert forall|i: int| 0 <= i < n implies !(#[trigger] alive@[i] && room@[i]) by {
            let o = lemma_path_reaches(from, n as nat, i as nat);
            assert(path_at(from, n as nat, o) == i);
        }
    }
    None
}

/// The path after a path in cyclic order.
pub proof fn lemma_next_path(first: nat, n: nat, offset: nat)
    requires
        n > 0,
    ensures
        path_at(first, n, offset) < n,
        path_at(first, n, offset + 1) == (if path_at(first, n, offset) + 1 < n {
            path_at(first, n, offset) + 1
        } else {
            0
        }),
{
    let a = (first + offset) as int;
    let d = n as int;
    vstd::arithmetic::div_mod::lemma_fundamental_div_mod(a, d);
    let q = a / d;
    let r = a % d;
    if r + 1 < d {
        assert(a + 1 == q * d + (r + 1)) by (nonlinear_arith)
            requires
                a == d * q + r,
        ;
        vstd::arithmetic::div_mod::lemma_fundamental_div_mod_converse(a + 1, d, q, r + 1);
    } else {
        assert(a + 1 == (q + 1) * d + 0) by (nonlinear_arith)
            requires
                a == d * q + r,
                r + 1 == d,
        ;
        vstd::arithmetic::div_mod::lemma_fundamental_div_mod_converse(a + 1, d, q + 1, 0);
    }
}

/// Every path comes up in a round.
pub proof fn lemma_path_reaches(first: nat, n: nat, i: nat) -> (offset: nat)
    requires
        i < n,
    ensures
        offset < n,
        path_at(first, n, offset) == i,
{
    let d = n as int;
    let q = first as int / d;
    let r = first as int % d;
    vstd::arithmetic::div_mod::lemma_fundamental_div_mod(first as int, d);
    if i >= r {
        assert(first + (i - r) == q * d + i) by (nonlinear_arith)
            requires
                first == d * q + r,
        ;
        vstd::arithmetic::div_mod::lemma_fundamental_div_mod_converse(
            first + (i - r),
            d,
            q,
            i as int,
        );
        (i - r) as nat
    } else {
        assert(first + (i + d - r) == (q + 1) * d + i) by (nonlinear_arith)
            requires
                first == d * q + r,
        ;
        vstd::arithmetic::div_mod::lemma_fundamental_div_mod_converse(
            first + (i + d - r),
            d,
            q + 1,
            i as int,
        );
        (i + d - r) as nat
    }
}

/// Whether any path is alive.
pub fn any_path_alive(alive: &Vec<bool>) -> (any: bool)
    ensures
        any <==> exists|j: int| 0 <= j < alive@.len() && alive@[j],
{
    let mut j: usize = 0;
    while j < alive.len()
        invariant
            j <= alive@.len(),
            forall|i: int| 0 <= i < j ==> !alive@[i],
        decreases alive@.len() - j,
    {
        if alive[j] {
            return true;
        }
        j = j + 1;
    }
    false
}

/// Sender side of a transfer session.
pub struct SenderSession {
    encoder: FountainEncoder,
    cipher: Option<SessionCipher>,
    session_id: u64,
    filename: String,
    scheduler: MultiPathScheduler,
    direct: bool,
    finished: bool,
    esi: u32,
    via_direct: u64,
    via_relay: u64,
}

/// The key of an optional cipher.
pub open spec fn cipher_key(cipher: Option<SessionCipher>) -> Option<Seq<u8>> {
    match cipher {
        Some(c) => Some(c.key()),
        None => None,
    }
}

impl View for SenderSession {
    type V = SenderView;

    closed spec fn view(&self) -> SenderView {
        SenderView {
            encoder: self.encoder@,
            key: cipher_key(self.cipher),
            session_id: self.session_id,
            filename: self.filename@,
            scheduler: self.scheduler@,
            direct: self.direct,
            finished: self.finished,
            esi: self.esi,
            via_direct: self.via_direct,
            via_relay: self.via_relay,
        }
    }
}

impl SenderSession {
    /// Whether the parts of the session fit together.
    pub closed spec fn wf(&self) -> bool {
        &&& self.encoder.wf()
        &&& self.scheduler.wf()
        &&& self.scheduler@.next_relay < self.scheduler@.n_relays
        &&& self.scheduler@.relay_share == 1
        &&& self.scheduler@.total_share == 2
        &&& self.cipher is Some ==> self.encoder@.symbol_size <= MAX_SEALED_DATA
        &&& self.via_direct + self.via_relay == self.esi
    }

    /// Prepares the transfer of a payload over `n_relays` relays, with the
    /// degree table for its K + S + H inputs.
    pub fn new(
        session_id: u64,
        filename: String,
        payload: &[u8],
        symbol_size: usize,
        thresholds: Vec<u64>,
        cipher: Option<SessionCipher>,
        n_relays: usize,
    ) -> (session: Result<Self, SenderError>)
        requires
            symbol_size > 0,
            cipher is Some ==> symbol_size <= MAX_SEALED_DATA,
            total_inputs(block_count(payload@.len(), symbol_size as nat)) <= usize::MAX,
            thresholds@.len() == total_inputs(block_count(payload@.len(), symbol_size as nat)) + 1,
        ensures
            match session {
                Ok(s) => {
                    &&& n_relays > 0
                    &&& checks_end_soon(block_count(payload@.len(), symbol_size as nat))
                    &&& s.wf()
                    &&& s@ == SenderView {
                        encoder: EncoderView::of(payload@, symbol_size as nat, thresholds@),
                        key: cipher_key(cipher),
                        session_id,
                        filename: filename@,
                        scheduler: SchedulerView {
                            n_relays: n_relays as nat,
                            ..SchedulerView::split(1, 1)
                        },
                        direct: false,
                        finished: false,
                        esi: 0,
                        via_direct: 0,
                        via_relay: 0,
                    }
                    &&& s@ == SenderView::starting(
                        EncoderView::of(payload@, symbol_size as nat, thresholds@),
                        cipher_key(cipher),
                        session_id,
                        filename@,
                        n_relays as nat,
                    )
                },
                Err(SenderError::NoRelay) => n_relays == 0,
                Err(SenderError::DrawLimit) => n_relays > 0 && !checks_end_soon(
                    block_count(payload@.len(), symbol_size as nat),
                ),
                Err(_) => false,
            },
    {
        if n_relays == 0 {
            return Err(SenderError::NoRelay);
        }
        match FountainEncoder::try_new(payload, symbol_size, thresholds) {
            Some(encoder) => Ok(
                SenderSession {
                    encoder,
                    cipher,
                    session_id,
                    filename,
                    scheduler: MultiPathScheduler::new(1, 1).with_relays(n_relays),
                    direct: false,
                    finished: false,
                    esi: 0,
                    via_direct: 0,
                    via_relay: 0,
                },
            ),
            None => Err(SenderError::DrawLimit),
        }
    }

    /// The message that registers the sender at a relay.
    pub fn hello(&self) -> (msg: OrbitMessage)
        ensures
            msg@ == (MessageView::Hello { session_id: self@.session_id, role: ROLE_SENDER }),
    {
        OrbitMessage::Hello { session_id: self.session_id, role: ROLE_SENDER }
    }

    /// The message that describes the payload.
    pub fn meta(&self) -> (msg: OrbitMessage)
        ensures
            msg@ == (MessageView::Meta {
                session_id: self@.session_id,
                filename: self@.filename,
                size: self@.encoder.payload_len as u64,
                symbol_size: self@.encoder.symbol_size as u32,
                k: self@.encoder.k as u32,
                checksum: self@.encoder.checksum,
            }),
            msg@ == self@.description(),
    {
        OrbitMessage::Meta {
            session_id: self.session_id,
            filename: self.filename.clone(),
            size: self.encoder.payload_len() as u64,
            symbol_size: self.encoder.symbol_size() as u32,
            k: self.encoder.k() as u32,
            checksum: self.encoder.checksum(),
        }
    }

    /// The name of the file that is sent.
    pub fn filename(&self) -> (name: &str)
        ensures
            name@ == self@.filename,
    {
        self.filename.as_str()
    }

    /// The number of source blocks K.
    pub fn k(&self) -> (k: usize)
        ensures
            k == self@.encoder.k,
    {
        self.encoder.k()
    }

    /// The number of payload bytes.
    pub fn bytes(&self) -> (bytes: u64)
        ensures
            bytes == self@.encoder.payload_len as u64,
    {
        self.encoder.payload_len() as u64
    }

    /// The number of symbols sent.
    pub fn symbols(&self) -> (symbols: u64)
        ensures
            symbols == self@.esi,
    {
        self.esi as u64
    }

    /// The number of symbols sent over the direct link.
    pub fn via_direct(&self) -> (symbols: u64)
        ensures
            symbols == self@.via_direct,
    {
        self.via_direct
    }

    /// The number of symbols sent over relays.
    pub fn via_relay(&self) -> (symbols: u64)
        ensures
            symbols == self@.via_relay,
    {
        self.via_relay
    }

    /// Takes note of an event.
    pub fn on_event(&mut self, event: SenderEvent)
        requires
            old(self).wf(),
        ensures
            final(self).wf(),
            final(self)@ == (match event {
                SenderEvent::Ready => SenderView { finished: true, ..old(self)@ },
                SenderEvent::Direct => SenderView { direct: true, ..old(self)@ },
            }),
            final(self)@ == old(self)@.after_event(event),
    {
        match event {
            SenderEvent::Ready => {
                self.finished = true;
            },
            SenderEvent::Direct => {
                self.direct = true;
            },
        }
    }

    /// Encodes, and seals if there is a key, the symbol that is next.
    fn next_symbol(&self) -> (msg: Option<OrbitMessage>)
        requires
            self.wf(),
        ensures
            msg is Some <==> lt_draws_end_soon(
                self@.encoder.inputs.len() as usize,
                self@.encoder.table,
                self@.esi,
            ),
            msg matches Some(m) ==> self@.is_next(m@),
    {
        match self.encoder.try_encode_symbol(self.esi) {
            Some(symbol) => {
                let data: Vec<u8> = match &self.cipher {
                    Some(cipher) => cipher.seal_symbol(
                        self.session_id,
                        self.esi,
                        symbol.data.as_slice(),
                    ),
                    None => symbol.data,
                };
                Some(
                    OrbitMessage::Symbol {
                        session_id: self.session_id,
                        esi: self.esi,
                        data: bytes_from(data),
                    },
                )
            },
            None => None,
        }
    }

    /// Decides what to do next. A READY that already arrived always beats the
    /// next symbol.
    pub fn next_step(&mut self, any_relay_alive: bool) -> (step: Result<SenderStep, SenderError>)
        requires
            old(self).wf(),
        ensures
            final(self).wf(),
            match step {
                Ok(SenderStep::Finished) => old(self)@.finished && final(self)@ == old(self)@,
                Ok(SenderStep::Relay { msg, first }) => {
                    &&& !old(self)@.finished
                    &&& old(self)@.direct || any_relay_alive
                    &&& old(self)@.is_next(msg@)
                    &&& !old(self)@.goes_direct()
                    &&& first == old(self)@.first_relay()
                    &&& first < old(self)@.scheduler.n_relays
                    &&& final(self)@ == old(self)@.after_turn()
                },
                Ok(SenderStep::Direct { msg }) => {
                    &&& !old(self)@.finished
                    &&& old(self)@.is_next(msg@)
                    &&& old(self)@.goes_direct()
                    &&& final(self)@ == old(self)@.after_turn()
                },
                Err(SenderError::AllRelaysUnreachable) => {
                    &&& !old(self)@.finished && !old(self)@.direct && !any_relay_alive
                    &&& final(self)@ == old(self)@
                },
                Err(SenderError::DrawLimit) => {
                    &&& !old(self)@.finished && (old(self)@.direct || any_relay_alive)
                    &&& !lt_draws_end_soon(
                        old(self)@.encoder.inputs.len() as usize,
                        old(self)@.encoder.table,
                        old(self)@.esi,
                    )
                    &&& final(self)@ == old(self)@
                },
                Err(_) => false,
            },
    {
        if self.finished {
            return Ok(SenderStep::Finished);
        }
        if !self.direct && !any_relay_alive {
            return Err(SenderError::AllRelaysUnreachable);
        }
        let msg = match self.next_symbol() {
            Some(msg) => msg,
            None => {
                return Err(SenderError::DrawLimit);
            },
        };
        proof {
            vstd::arithmetic::div_mod::lemma_mod_bound(
                self.scheduler@.next_relay as int + 1,
                self.scheduler@.n_relays as int,
            );
        }
        match self.scheduler.pick(self.esi) {
            Some(first) => Ok(SenderStep::Relay { msg, first }),
            None => if self.direct {
                Ok(SenderStep::Direct { msg })
            } else {
                Ok(SenderStep::Relay { msg, first: 0 })
            },
        }
    }

    /// Takes note of what became of the symbol on the direct link. Returns
    /// whether the symbol is still to be queued on a relay, starting with the
    /// first. A full queue keeps the link; a dead one is given up.
    pub fn on_direct(&mut self, outcome: DirectOutcome) -> (retry: bool)
        requires
            old(self).wf(),
            outcome == DirectOutcome::Queued ==> old(self)@.esi < u32::MAX,
        ensures
            final(self).wf(),
            retry == (outcome != DirectOutcome::Queued),
            final(self)@ == (match outcome {
                DirectOutcome::Queued => SenderView {
                    esi: (old(self)@.esi + 1) as u32,
                    via_direct: (old(self)@.via_direct + 1) as u64,
                    ..old(self)@
                },
                DirectOutcome::Full => old(self)@,
                DirectOutcome::Dead => SenderView { direct: false, ..old(self)@ },
            }),
            final(self)@ == old(self)@.after_direct(outcome),
    {
        match outcome {
            DirectOutcome::Queued => {
                self.via_direct = self.via_direct + 1;
                self.esi = self.esi + 1;
                false
            },
            DirectOutcome::Full => true,
            DirectOutcome::Dead => {
                self.direct = false;
                true
            },
        }
    }

    /// Takes note of whether a relay took the symbol. If none did, the same
    /// symbol is tried again, unless no relay is alive or nothing could be sent
    /// for too long.
    pub fn on_relay(&mut self, queued: bool, any_relay_alive: bool, idle_nanos: u128) -> (result:
        Result<(), SenderError>)
        requires
            old(self).wf(),
            queued ==> old(self)@.esi < u32::MAX,
        ensures
            final(self).wf(),
            final(self)@ == (if queued {
                SenderView {
                    esi: (old(self)@.esi + 1) as u32,
                    via_relay: (old(self)@.via_relay + 1) as u64,
                    ..old(self)@
                }
            } else {
                old(self)@
            }),
            result == (if queued {
                Ok(())
            } else if !any_relay_alive {
                Err(SenderError::AllRelaysUnreachable)
            } else if idle_nanos > STALL_TIMEOUT_NANOS {
                Err(SenderError::Stalled)
            } else {
                Ok(())
            }),
            final(self)@ == old(self)@.after_relay(queued),
            result == emission(queued, any_relay_alive, idle_nanos),
    {
        if queued {
            self.via_relay = self.via_relay + 1;
            self.esi = self.esi + 1;
            return Ok(());
        }
        if !any_relay_alive {
            return Err(SenderError::AllRelaysUnreachable);
        }
        if idle_nanos > STALL_TIMEOUT_NANOS {
            return Err(SenderError::Stalled);
        }
        Ok(())
    }

    /// While a direct link is up, every other symbol is tried on it: those
    /// with an odd ESI.
    pub proof fn law_direct_link_gets_every_other_symbol(&self)
        requires
            self.wf(),
        ensures
            self@.goes_direct() <==> self@.direct && self@.esi % 2 == 1,
    {
        law_equal_shares_alternate(self@.scheduler, self@.esi);
    }

    /// Every symbol sent used exactly one path.
    pub proof fn law_every_symbol_used_one_path(&self)
        requires
            self.wf(),
        ensures
            self@.via_direct + self@.via_relay == self@.esi,
    {
    }
}

/// What a watcher of a relay link does about what came over it.
#[derive(Debug, Clone, Copy, PartialEq, Eq)]
pub enum WatchAction {
    /// Go on watching.
    Ignore,
    /// Report READY and stop watching.
    ReportReady,
    /// Try to connect to the advertised P2P address.
    Connect,
    /// Stop watching.
    Stop,
}

/// Decides what a watcher does about a message, or about the end of its stream
/// (`None`). Only one direct link is set up at a time: an address that comes
/// while one is up or being tried is ignored.
pub fn watch(msg: Option<&OrbitMessage>, direct_up: bool) -> (action: WatchAction)
    ensures
        action == (match msg {
            Some(m) => match m@ {
                MessageView::Ready { .. } => WatchAction::ReportReady,
                MessageView::Direct { .. } => if direct_up {
                    WatchAction::Ignore
                } else {
                    WatchAction::Connect
                },
                _ => WatchAction::Ignore,
            },
            None => WatchAction::Stop,
        }),
        action == watched(
            (match msg {
                Some(m) => Some(m@),
                None => None,
            }),
            direct_up,
        ),
{
    match msg {
        Some(m) => match m {
            OrbitMessage::Ready { .. } => WatchAction::ReportReady,
            OrbitMessage::Direct { .. } => if direct_up {
                WatchAction::Ignore
            } else {
                WatchAction::Connect
            },
            _ => WatchAction::Ignore,
        },
        None => WatchAction::Stop,
    }
}

} // verus!
