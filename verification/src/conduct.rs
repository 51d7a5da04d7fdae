//! What the two sides of a session do about each thing that happens.
use crate::crypto::{opened_symbol, sealed_symbol, SessionCipher};
use crate::decoder::{DecoderView, SymbolError};
use crate::encoder::{checks_end_soon, EncoderView};
use crate::precode::{hdpc_count, ldpc_count};
use crate::receiver::{ReceiverError, ReceiverEvent, ReceiverEventView, ReceiverView};
use crate::recovery::matching_decoder;
use crate::scheduler::law_equal_shares_alternate;
use crate::sender::{
    cipher_key, emission, lemma_next_path, lemma_path_reaches, outcome_of, path_at, watched, DirectOutcome, SenderError,
    SenderEvent, SenderView, WatchAction,
};
use crate::transfer::is_genuine;
use crate::wire::MessageView;
use vstd::prelude::*;

verus! {

/// The end of the direct link never fails a receiver: in every state it goes on
/// with its relays, and nothing but the direct link is given up.
pub proof fn law_direct_link_may_end(receiver: ReceiverView, table: Seq<u64>)
    ensures
        ({
            let (next, result) = receiver.step(ReceiverEventView::DirectClosed, table);
            &&& result == Ok::<bool, ReceiverError>(false)
            &&& !next.direct
            &&& next == ReceiverView { direct: false, ..receiver }
        }),
{
}

/// A closed relay is only counted, unless it was the last one and no Meta came.
pub proof fn law_relays_may_close(receiver: ReceiverView, table: Seq<u64>)
    ensures
        ({
            let (next, result) = receiver.step(ReceiverEventView::RelayClosed, table);
            &&& next == ReceiverView { relays_closed: next.relays_closed, ..receiver }
            &&& next.relays_closed == receiver.relays_closed + 1
            &&& result == (if receiver.decoder is None && receiver.relays_closed + 1
                == receiver.n_relays {
                Err(ReceiverError::ClosedBeforeMeta)
            } else {
                Ok::<bool, ReceiverError>(false)
            })
        }),
{
}

/// Without relays a receiver goes on exactly if it knows the payload and has a
/// direct link; it stays as it is.
pub proof fn law_relays_may_be_gone(receiver: ReceiverView, table: Seq<u64>)
    ensures
        ({
            let (next, result) = receiver.step(ReceiverEventView::RelaysGone, table);
            &&& next == receiver
            &&& receiver.decoder is Some && receiver.direct ==> result == Ok::<
                bool,
                ReceiverError,
            >(false)
            &&& receiver.decoder is None || !receiver.direct ==> result == Err::<
                bool,
                ReceiverError,
            >(ReceiverError::ClosedBeforeEnd)
        }),
{
}

/// The session that a message belongs to is of no concern to a receiver, and of
/// other messages than Meta, symbols and the sender's Done it takes no notice:
/// over a relay Hello, READY and addresses change nothing, and over the direct
/// link all but symbols.
pub proof fn law_other_messages_are_ignored(
    receiver: ReceiverView,
    msg: MessageView,
    table: Seq<u64>,
)
    ensures
        msg is Hello || msg is Ready || msg is Direct || (msg is Meta && receiver.decoder is Some)
            ==> receiver.step(ReceiverEventView::Relay(msg), table) == (
            receiver,
            Ok::<bool, ReceiverError>(false),
        ),
        !(msg is Symbol) ==> receiver.step(ReceiverEventView::Direct(msg), table) == (
            receiver,
            Ok::<bool, ReceiverError>(false),
        ),
        msg is Done ==> receiver.step(ReceiverEventView::Relay(msg), table) == (
            receiver,
            Err::<bool, ReceiverError>(ReceiverError::SenderAborted),
        ),
{
}

/// Whether a failure is one of taking in a symbol.
pub open spec fn is_symbol_error(e: ReceiverError) -> bool {
    e is OpenFailed || e is SymbolSize || e is DrawLimit
}

/// Symbols that waited fail only as symbols do.
proof fn lemma_pending_errors(receiver: ReceiverView)
    ensures
        receiver.take_pending().1 matches Err(e) ==> is_symbol_error(e),
        receiver.take_pending().1 matches Err(e) ==> (e is OpenFailed ==> receiver.key is Some),
    decreases receiver.pending.len(),
{
    if receiver.pending.len() > 0 && receiver.decoder is Some {
        let (esi, data) = receiver.pending[0];
        let rest = ReceiverView { pending: receiver.pending.skip(1), ..receiver };
        lemma_pending_errors(rest.take_symbol(esi, data).0);
    }
}

/// Every failure has its cause: the sender's Done, closed relays before or after
/// Meta, a Meta that describes no payload, or a symbol. Symbols that are not
/// sealed are never inauthentic.
pub proof fn law_failures_have_causes(
    receiver: ReceiverView,
    event: ReceiverEventView,
    table: Seq<u64>,
)
    ensures
        receiver.step(event, table).1 matches Err(e) ==> {
            &&& e is SenderAborted <==> (event matches ReceiverEventView::Relay(m) && m is Done)
            &&& e is ClosedBeforeMeta <==> event is RelayClosed
            &&& e is ClosedBeforeMeta ==> receiver.decoder is None
            &&& e is ClosedBeforeEnd <==> event is RelaysGone
            &&& e is InvalidMeta ==> (event matches ReceiverEventView::Relay(m)
                && m matches MessageView::Meta { k, .. } && (k == 0 || k + ldpc_count(k as nat)
                + hdpc_count(k as nat) > usize::MAX))
            &&& is_symbol_error(e) ==> (event matches ReceiverEventView::Relay(m) && (m is Symbol
                || m is Meta)) || (event matches ReceiverEventView::Direct(m) && m is Symbol)
            &&& e is OpenFailed ==> receiver.key is Some
        },
        !(event is DirectClosed && receiver.step(event, table).1 is Err),
{
    if let ReceiverEventView::Relay(
        MessageView::Meta { filename, size, symbol_size, k, checksum, .. },
    ) = event {
        if receiver.decoder is None {
            lemma_pending_errors(
                ReceiverView {
                    filename: Some(filename),
                    decoder: Some(
                        DecoderView::fresh(
                            size as usize as nat,
                            symbol_size as nat,
                            k as nat,
                            checksum,
                            table,
                        ),
                    ),
                    ..receiver
                },
            );
        }
    }
}

/// Whether two receivers differ in nothing but decoder and waiting symbols.
pub open spec fn same_but_decoding(a: ReceiverView, b: ReceiverView) -> bool {
    a == ReceiverView { decoder: a.decoder, pending: a.pending, ..b }
}

/// Each symbol is counted once, with its bytes, for the link that it came over;
/// other events count nothing.
pub proof fn law_symbols_are_tallied(
    receiver: ReceiverView,
    event: ReceiverEventView,
    table: Seq<u64>,
)
    requires
        receiver.countable(event),
        receiver.via_direct < u64::MAX,
        receiver.via_relay < u64::MAX,
    ensures
        ({
            let next = receiver.step(event, table).0;
            match event {
                ReceiverEventView::Relay(MessageView::Symbol { data, .. }) => {
                    &&& next.symbols == receiver.symbols + 1
                    &&& next.bytes == receiver.bytes + data.len()
                    &&& next.via_relay == receiver.via_relay + 1
                    &&& next.via_direct == receiver.via_direct
                },
                ReceiverEventView::Direct(MessageView::Symbol { data, .. }) => {
                    &&& next.symbols == receiver.symbols + 1
                    &&& next.bytes == receiver.bytes + data.len()
                    &&& next.via_direct == receiver.via_direct + 1
                    &&& next.via_relay == receiver.via_relay
                },
                _ => {
                    &&& next.symbols == receiver.symbols
                    &&& next.bytes == receiver.bytes
                    &&& next.via_direct == receiver.via_direct
                    &&& next.via_relay == receiver.via_relay
                },
            }
        }),
        ({
            let next = receiver.step(event, table).0;
            &&& next.session_id == receiver.session_id
            &&& next.key == receiver.key
            &&& next.n_relays == receiver.n_relays
            &&& !(event is DirectClosed) ==> next.direct == receiver.direct
            &&& !(event is RelayClosed) ==> next.relays_closed == receiver.relays_closed
            &&& receiver.decoder is Some ==> next.decoder is Some && next.filename
                == receiver.filename && next.pending == receiver.pending
        }),
{
    if let ReceiverEventView::Relay(
        MessageView::Meta { filename, size, symbol_size, k, checksum, .. },
    ) = event {
        if receiver.decoder is None {
            lemma_pending_keeps(
                ReceiverView {
                    filename: Some(filename),
                    decoder: Some(
                        DecoderView::fresh(
                            size as usize as nat,
                            symbol_size as nat,
                            k as nat,
                            checksum,
                            table,
                        ),
                    ),
                    ..receiver
                },
            );
        }
    }
}

/// Taking in what waited changes nothing but decoder and waiting symbols.
proof fn lemma_pending_keeps(receiver: ReceiverView)
    ensures
        same_but_decoding(receiver.take_pending().0, receiver),
    decreases receiver.pending.len(),
{
    if receiver.pending.len() > 0 && receiver.decoder is Some {
        let (esi, data) = receiver.pending[0];
        let rest = ReceiverView { pending: receiver.pending.skip(1), ..receiver };
        lemma_pending_keeps(rest.take_symbol(esi, data).0);
    }
}

/// Both links are equal: but for the tally, a symbol does the same over the direct
/// link as over a relay.
pub proof fn law_links_are_equal(
    receiver: ReceiverView,
    session_id: u64,
    esi: u32,
    data: Seq<u8>,
    table: Seq<u64>,
)
    ensures
        ({
            let msg = MessageView::Symbol { session_id, esi, data };
            let (a, x) = receiver.step(ReceiverEventView::Relay(msg), table);
            let (b, y) = receiver.step(ReceiverEventView::Direct(msg), table);
            &&& x == y
            &&& a.decoder == b.decoder
            &&& a.pending == b.pending
            &&& a.symbols == b.symbols
            &&& a.bytes == b.bytes
        }),
{
}

/// A symbol that comes before Meta waits behind those that came earlier.
pub proof fn law_early_symbols_wait(
    receiver: ReceiverView,
    session_id: u64,
    esi: u32,
    data: Seq<u8>,
    table: Seq<u64>,
)
    requires
        receiver.decoder is None,
    ensures
        ({
            let msg = MessageView::Symbol { session_id, esi, data };
            let (next, result) = receiver.step(ReceiverEventView::Relay(msg), table);
            &&& result == Ok::<bool, ReceiverError>(false)
            &&& next.decoder is None
            &&& next.pending.len() == receiver.pending.len() + 1
            &&& next.pending.last() == (esi, data)
            &&& next.pending.drop_last() == receiver.pending
        }),
{
    let msg = MessageView::Symbol { session_id, esi, data };
    let next = receiver.step(ReceiverEventView::Relay(msg), table).0;
    assert(next.pending.drop_last() =~= receiver.pending);
}

/// A symbol that comes after Meta is opened, if the session has a key, with the
/// session's own id and the symbol's own ESI, and what it holds goes to the
/// decoder; what does not open fails and changes no decoder.
pub proof fn law_symbols_are_decoded(
    receiver: ReceiverView,
    session_id: u64,
    esi: u32,
    data: Seq<u8>,
    table: Seq<u64>,
    d: DecoderView,
)
    requires
        receiver.decoder == Some(d),
    ensures
        ({
            let msg = MessageView::Symbol { session_id, esi, data };
            let (next, result) = receiver.step(ReceiverEventView::Relay(msg), table);
            let opened = match receiver.key {
                Some(key) => opened_symbol(key, receiver.session_id, esi, data),
                None => Some(data),
            };
            match opened {
                None => next.decoder == Some(d) && result == Err::<bool, ReceiverError>(
                    ReceiverError::OpenFailed { esi },
                ),
                Some(block) => {
                    &&& next.decoder == Some(d.try_add_symbol(esi, block).0)
                    &&& d.try_add_symbol(esi, block).1 matches Ok(c) ==> result == Ok::<
                        bool,
                        ReceiverError,
                    >(c)
                    &&& d.try_add_symbol(esi, block).1 == Err::<bool, SymbolError>(
                        SymbolError::DrawLimit,
                    ) ==> result == Err::<bool, ReceiverError>(ReceiverError::DrawLimit)
                    &&& d.try_add_symbol(esi, block).1 == Err::<bool, SymbolError>(
                        SymbolError::Size,
                    ) ==> result == Err::<bool, ReceiverError>(
                        ReceiverError::SymbolSize { esi, len: block.len() as usize },
                    )
                },
            }
        }),
{
}

/// The first Meta sets up a decoder for exactly the payload that it describes, and
/// names the file; whose session it names does not matter.
pub proof fn law_first_meta_sets_up_the_decoder(
    receiver: ReceiverView,
    session_id: u64,
    filename: Seq<char>,
    size: u64,
    symbol_size: u32,
    k: u32,
    checksum: u64,
    table: Seq<u64>,
)
    requires
        receiver.decoder is None,
    ensures
        ({
            let meta = MessageView::Meta {
                session_id,
                filename,
                size,
                symbol_size,
                k,
                checksum,
            };
            let (next, result) = receiver.step(ReceiverEventView::Relay(meta), table);
            let possible = k > 0 && k + ldpc_count(k as nat) + hdpc_count(k as nat) <= usize::MAX;
            &&& next.filename == Some(filename)
            &&& !possible ==> result == Err::<bool, ReceiverError>(ReceiverError::InvalidMeta)
            &&& possible && checks_end_soon(k as nat) ==> (next.decoder matches Some(d) && {
                &&& d.payload_len == size as usize
                &&& d.symbol_size == symbol_size
                &&& d.k == k
                &&& d.checksum == checksum
                &&& d.table == table
            })
            &&& possible && checks_end_soon(k as nat) && receiver.pending.len() == 0
                ==> result == Ok::<bool, ReceiverError>(false) && next.decoder == Some(
                DecoderView::fresh(
                    size as usize as nat,
                    symbol_size as nat,
                    k as nat,
                    checksum,
                    table,
                ),
            )
            &&& possible && !checks_end_soon(k as nat) ==> result == Err::<bool, ReceiverError>(
                ReceiverError::DrawLimit,
            )
        }),
{
    let fresh = DecoderView::fresh(
        size as usize as nat,
        symbol_size as nat,
        k as nat,
        checksum,
        table,
    );
    let set_up = ReceiverView { filename: Some(filename), decoder: Some(fresh), ..receiver };
    lemma_pending_keeps(set_up);
    lemma_pending_describes(set_up, fresh);
}

/// Symbols do not change what payload a decoder is for.
proof fn lemma_pending_describes(receiver: ReceiverView, d: DecoderView)
    requires
        receiver.decoder == Some(d),
    ensures
        receiver.take_pending().0.decoder matches Some(e) && {
            &&& e.payload_len == d.payload_len
            &&& e.symbol_size == d.symbol_size
            &&& e.k == d.k
            &&& e.checksum == d.checksum
            &&& e.table == d.table
        },
    decreases receiver.pending.len(),
{
    if receiver.pending.len() > 0 {
        let (esi, data) = receiver.pending[0];
        let rest = ReceiverView { pending: receiver.pending.skip(1), ..receiver };
        let next = rest.take_symbol(esi, data).0;
        if let Some(e) = next.decoder {
            lemma_pending_describes(next, e);
        }
    }
}

/// A symbol may beat the Meta: whichever comes first, the receiver ends up the
/// same, with the same result.
pub proof fn law_symbols_may_beat_meta(
    receiver: ReceiverView,
    meta: MessageView,
    session_id: u64,
    esi: u32,
    data: Seq<u8>,
    table: Seq<u64>,
)
    requires
        receiver.decoder is None,
        receiver.pending.len() == 0,
        meta matches MessageView::Meta { k, .. } && k > 0 && k + ldpc_count(k as nat) + hdpc_count(
            k as nat,
        ) <= usize::MAX && checks_end_soon(k as nat),
    ensures
        ({
            let m = ReceiverEventView::Relay(meta);
            let s = ReceiverEventView::Relay(MessageView::Symbol { session_id, esi, data });
            receiver.step(s, table).0.step(m, table) == receiver.step(m, table).0.step(s, table)
        }),
{
    let m = ReceiverEventView::Relay(meta);
    let s = ReceiverEventView::Relay(MessageView::Symbol { session_id, esi, data });
    let early = receiver.step(s, table).0.step(m, table);
    let late = receiver.step(m, table).0.step(s, table);
    let waits = receiver.step(s, table).0;
    assert(waits.pending.skip(1) =~= Seq::<(u32, Seq<u8>)>::empty());
    assert(receiver.pending =~= Seq::<(u32, Seq<u8>)>::empty());
    reveal_with_fuel(ReceiverView::take_pending, 3);
    assert(early.0 =~= late.0);
}

/// What waits is taken in one after the other, oldest first: with one more symbol
/// at the end, all goes as without it, and then, if nothing failed and something is
/// still missing, that symbol is taken in like one that comes just now.
proof fn lemma_pending_one_more(receiver: ReceiverView, esi: u32, data: Seq<u8>)
    requires
        receiver.decoder is Some,
    ensures
        ({
            let longer = ReceiverView { pending: receiver.pending.push((esi, data)), ..receiver };
            let (a, x) = receiver.take_pending();
            let (b, y) = longer.take_pending();
            if x == Ok::<bool, ReceiverError>(false) {
                &&& a.pending.len() == 0
                &&& a.decoder is Some
                &&& b == a.take_symbol(esi, data).0
                &&& y == a.take_symbol(esi, data).1
            } else {
                &&& b == (ReceiverView { pending: a.pending.push((esi, data)), ..a })
                &&& y == x
            }
        }),
    decreases receiver.pending.len(),
{
    let longer = ReceiverView { pending: receiver.pending.push((esi, data)), ..receiver };
    let (a, x) = receiver.take_pending();
    let (b, y) = longer.take_pending();
    if receiver.pending.len() == 0 {
        reveal_with_fuel(ReceiverView::take_pending, 2);
        assert(receiver.pending =~= Seq::<(u32, Seq<u8>)>::empty());
        assert(longer.pending.skip(1) =~= Seq::<(u32, Seq<u8>)>::empty());
    } else {
        let (first, block) = receiver.pending[0];
        let rest = ReceiverView { pending: receiver.pending.skip(1), ..receiver };
        let more = ReceiverView { pending: longer.pending.skip(1), ..longer };
        assert(longer.pending[0] == receiver.pending[0]);
        assert(longer.pending.skip(1) =~= receiver.pending.skip(1).push((esi, data)));
        let (next, result) = rest.take_symbol(first, block);
        assert(more.take_symbol(first, block) == (
            ReceiverView { pending: next.pending.push((esi, data)), ..next },
            result,
        ));
        if result == Ok::<bool, ReceiverError>(false) {
            lemma_pending_one_more(next, esi, data);
        }
    }
}

/// What waits for Meta is taken in when it comes, oldest first and all of it, until
/// decoding is complete or a symbol fails: one more symbol at the end of what waits
/// does what it would do if it came just after Meta.
pub proof fn law_waiting_symbols_are_taken_in_order(
    receiver: ReceiverView,
    meta: MessageView,
    session_id: u64,
    esi: u32,
    data: Seq<u8>,
    table: Seq<u64>,
)
    requires
        receiver.decoder is None,
        meta matches MessageView::Meta { k, .. } && k > 0 && k + ldpc_count(k as nat) + hdpc_count(
            k as nat,
        ) <= usize::MAX && checks_end_soon(k as nat),
    ensures
        ({
            let m = ReceiverEventView::Relay(meta);
            let longer = ReceiverView { pending: receiver.pending.push((esi, data)), ..receiver };
            let (a, x) = receiver.step(m, table);
            let (b, y) = longer.step(m, table);
            let s = ReceiverEventView::Relay(MessageView::Symbol { session_id, esi, data });
            &&& x == Ok::<bool, ReceiverError>(false) ==> {
                &&& a.pending.len() == 0
                &&& b.decoder == a.step(s, table).0.decoder
                &&& y == a.step(s, table).1
            }
            &&& x != Ok::<bool, ReceiverError>(false) ==> b.decoder == a.decoder && y == x
        }),
{
    if let MessageView::Meta { filename, size, symbol_size, k, checksum, .. } = meta {
        let fresh = DecoderView::fresh(
            size as usize as nat,
            symbol_size as nat,
            k as nat,
            checksum,
            table,
        );
        let set_up = ReceiverView { filename: Some(filename), decoder: Some(fresh), ..receiver };
        lemma_pending_one_more(set_up, esi, data);
    }
}

/// Only the first Meta needs a degree table, one for all K + S + H inputs.
pub proof fn law_table_is_for_the_first_meta(receiver: ReceiverView, event: ReceiverEventView)
    ensures
        receiver.table_inputs(event) matches Some(l) ==> {
            &&& receiver.decoder is None
            &&& event matches ReceiverEventView::Relay(m) && m matches MessageView::Meta { k, .. }
                && k > 0 && l == k + ldpc_count(k as nat) + hdpc_count(k as nat)
            &&& l <= usize::MAX
        },
        receiver.decoder is None ==> (event matches ReceiverEventView::Relay(m)
            && m matches MessageView::Meta { k, .. } && k > 0 && k + ldpc_count(k as nat)
            + hdpc_count(k as nat) <= usize::MAX ==> receiver.table_inputs(event) is Some),
{
}

/// A symbol that was queued is behind the sender: the next one has the next ESI,
/// and the symbol is tallied for the path that took it. One that was not queued
/// stays next, and only a dead direct link is given up.
pub proof fn law_queued_symbols_are_behind(sender: SenderView, outcome: DirectOutcome, queued: bool)
    requires
        sender.esi < u32::MAX,
        sender.via_direct < u64::MAX,
        sender.via_relay < u64::MAX,
    ensures
        ({
            let a = sender.after_direct(outcome);
            let b = sender.after_relay(queued);
            &&& outcome == DirectOutcome::Queued ==> a.esi == sender.esi + 1 && a.via_direct
                == sender.via_direct + 1
            &&& outcome != DirectOutcome::Queued ==> a.esi == sender.esi && a.via_direct
                == sender.via_direct
            &&& a.direct == (sender.direct && outcome != DirectOutcome::Dead)
            &&& a == SenderView { esi: a.esi, via_direct: a.via_direct, direct: a.direct, ..sender }
            &&& queued ==> b.esi == sender.esi + 1 && b.via_relay == sender.via_relay + 1
            &&& !queued ==> b.esi == sender.esi && b.via_relay == sender.via_relay
            &&& b == SenderView { esi: b.esi, via_relay: b.via_relay, ..sender }
        }),
{
}

/// What was queued is what was sent: the tallies of the two paths move with the
/// ESI.
pub proof fn law_tallies_move_with_the_esi(sender: SenderView, outcome: DirectOutcome, queued: bool)
    requires
        sender.esi < u32::MAX,
        sender.via_direct < u64::MAX,
        sender.via_relay < u64::MAX,
    ensures
        ({
            let a = sender.after_direct(outcome);
            let b = sender.after_relay(queued);
            &&& a.via_direct + a.via_relay - a.esi == sender.via_direct + sender.via_relay
                - sender.esi
            &&& b.via_direct + b.via_relay - b.esi == sender.via_direct + sender.via_relay
                - sender.esi
        }),
{
}

/// A READY ends the transfer and a direct link that comes up is used, and neither
/// changes anything else.
pub proof fn law_sender_events(sender: SenderView)
    ensures
        sender.after_event(SenderEvent::Ready).finished,
        sender.after_event(SenderEvent::Ready) == (SenderView { finished: true, ..sender }),
        sender.after_event(SenderEvent::Direct).direct,
        sender.after_event(SenderEvent::Direct) == (SenderView { direct: true, ..sender }),
{
}

/// Emission ends when no relay is alive, or when nothing could be sent for more
/// than 30 seconds, and not before.
pub proof fn law_emission_ends(queued: bool, any_relay_alive: bool, idle_nanos: u128)
    ensures
        emission(queued, any_relay_alive, idle_nanos) is Ok <==> queued || (any_relay_alive
            && idle_nanos <= 30_000_000_000),
        emission(queued, any_relay_alive, idle_nanos) == Err::<(), SenderError>(
            SenderError::AllRelaysUnreachable,
        ) <==> !queued && !any_relay_alive,
        emission(queued, any_relay_alive, idle_nanos) == Err::<(), SenderError>(
            SenderError::Stalled,
        ) <==> !queued && any_relay_alive && idle_nanos > 30_000_000_000,
{
}

/// A watcher reports READY, follows an address only while no direct link is up,
/// stops at the end of its stream, and ignores all else.
pub proof fn law_watchers(msg: Option<MessageView>, direct_up: bool)
    ensures
        watched(msg, direct_up) == WatchAction::ReportReady <==> (msg matches Some(m)
            && m is Ready),
        watched(msg, direct_up) == WatchAction::Connect <==> !direct_up && (msg matches Some(m)
            && m is Direct),
        watched(msg, direct_up) == WatchAction::Stop <==> msg is None,
{
}

/// The paths are tried in cyclic order from the given one on, each once a round.
pub proof fn law_paths_are_tried_in_turn(first: nat, n: nat, offset: nat, i: nat) -> (at: nat)
    requires
        n > 0,
        i < n,
    ensures
        first < n ==> path_at(first, n, 0) == first,
        path_at(first + n, n, offset) == path_at(first, n, offset),
        path_at(first, n, offset) < n,
        path_at(first, n, offset + 1) == path_at(first, n, offset) + 1 || (path_at(first, n, offset)
            == n - 1 && path_at(first, n, offset + 1) == 0),
        at < n,
        path_at(first, n, at) == i,
{
    if first < n {
        vstd::arithmetic::div_mod::lemma_small_mod(first, n);
    }
    lemma_next_path(first, n, offset);
    vstd::arithmetic::div_mod::lemma_mod_add_multiples_vanish(
        (first + offset) as int,
        n as int,
    );
    assert(first + n + offset == n + (first + offset));
    lemma_path_reaches(first, n, i)
}

/// A symbol goes over the direct link only while there is one, and otherwise to
/// the relay that is next in turn, or to the first relay when it is the direct
/// link's turn and there is none. A turn changes nothing but the turn.
pub proof fn law_paths_of_symbols(sender: SenderView)
    requires
        sender.scheduler.next_relay < sender.scheduler.n_relays,
        sender.scheduler.relay_share == 1,
        sender.scheduler.total_share == 2,
    ensures
        sender.goes_direct() <==> sender.direct && sender.esi % 2 == 1,
        sender.esi % 2 == 0 ==> sender.first_relay() == sender.scheduler.next_relay,
        sender.esi % 2 == 1 ==> sender.first_relay() == 0,
        sender.first_relay() < sender.scheduler.n_relays,
        sender.after_turn() == (SenderView { scheduler: sender.after_turn().scheduler, ..sender }),
        sender.esi % 2 == 1 ==> sender.after_turn().scheduler == sender.scheduler,
        sender.esi % 2 == 0 ==> sender.after_turn().scheduler.next_relay
            == sender.scheduler.next_relay + 1 || (sender.scheduler.next_relay + 1
            == sender.scheduler.n_relays && sender.after_turn().scheduler.next_relay == 0),
{
    let s = sender.scheduler;
    law_equal_shares_alternate(s, sender.esi);
    if s.next_relay + 1 < s.n_relays {
        vstd::arithmetic::div_mod::lemma_small_mod(s.next_relay + 1, s.n_relays);
    } else {
        vstd::arithmetic::div_mod::lemma_mod_self_0(s.n_relays as int);
    }
}

/// The message that is sent next is a symbol of the session with the ESI that is
/// next. Without a key it carries the encoder's block as it is. With one it
/// carries what opens, under that key, session and ESI, to the encoder's block.
pub proof fn law_next_message(sender: SenderView, msg: MessageView)
    requires
        sender.is_next(msg),
    ensures
        msg matches MessageView::Symbol { session_id, esi, data } && {
            &&& session_id == sender.session_id
            &&& esi == sender.esi
            &&& sender.key is None ==> data == sender.encoder.symbol(sender.esi)
            &&& sender.key matches Some(key) ==> opened_symbol(
                key,
                sender.session_id,
                sender.esi,
                data,
            ) == Some(sender.encoder.symbol(sender.esi)) && data == sealed_symbol(
                key,
                sender.session_id,
                sender.esi,
                sender.encoder.symbol(sender.esi),
            )
        },
{
}

/// The description of the payload is that of the sender's own payload, so a
/// receiver sets up the decoder that matches the encoder.
pub proof fn law_description_matches_the_encoder(
    sender: SenderView,
    receiver: ReceiverView,
    table: Seq<u64>,
)
    requires
        sender.encoder.payload_len <= usize::MAX,
        sender.encoder.symbol_size <= u32::MAX,
        0 < sender.encoder.k <= u32::MAX,
        sender.encoder.k + ldpc_count(sender.encoder.k) + hdpc_count(sender.encoder.k)
            <= usize::MAX,
        checks_end_soon(sender.encoder.k),
        sender.encoder.table == table,
        receiver.decoder is None,
        receiver.pending.len() == 0,
    ensures
        receiver.step(ReceiverEventView::Relay(sender.description()), table).0.decoder == Some(
            matching_decoder(sender.encoder),
        ),
        receiver.step(ReceiverEventView::Relay(sender.description()), table).0.filename == Some(
            sender.filename,
        ),
        is_genuine(sender, sender.description()),
        sender.description().session_id() == sender.session_id,
{
}

/// What came of a symbol on the direct link: queued is queued, and a link that did
/// not take it is given up only if it is not alive.
pub proof fn law_direct_outcomes(queued: bool, alive: bool)
    ensures
        outcome_of(queued, alive) == DirectOutcome::Queued <==> queued,
        outcome_of(queued, alive) == DirectOutcome::Full <==> !queued && alive,
        outcome_of(queued, alive) == DirectOutcome::Dead <==> !queued && !alive,
{
}

/// A sender starts with the first symbol of its payload, on its relays alone, and
/// a receiver with nothing but its session, its key and its relays.
pub proof fn law_sessions_start_from_nothing(
    encoder: EncoderView,
    key: Option<Seq<u8>>,
    session_id: u64,
    filename: Seq<char>,
    n_relays: nat,
)
    ensures
        ({
            let s = SenderView::starting(encoder, key, session_id, filename, n_relays);
            &&& s.esi == 0
            &&& s.via_direct == 0
            &&& s.via_relay == 0
            &&& !s.direct
            &&& !s.finished
            &&& s.encoder == encoder
            &&& s.key == key
            &&& s.session_id == session_id
            &&& s.filename == filename
            &&& s.scheduler.n_relays == n_relays
            &&& s.scheduler.next_relay == 0
            &&& s.scheduler.total_share == 2 * s.scheduler.relay_share
            &&& s.scheduler.relay_share > 0
        }),
        ({
            let r = ReceiverView::waiting(session_id, key, n_relays);
            &&& r.decoder is None
            &&& r.pending.len() == 0
            &&& r.filename is None
            &&& r.symbols == 0
            &&& r.bytes == 0
            &&& r.via_direct == 0
            &&& r.via_relay == 0
            &&& !r.direct
            &&& r.relays_closed == 0
            &&& r.n_relays == n_relays
            &&& r.session_id == session_id
            &&& r.key == key
        }),
{
}

/// An event brings the message that came.
pub proof fn law_events_bring_their_messages(event: ReceiverEvent)
    ensures
        match event {
            ReceiverEvent::Relay(m) => event@ == ReceiverEventView::Relay(m@),
            ReceiverEvent::RelayClosed => event@ == ReceiverEventView::RelayClosed,
            ReceiverEvent::RelaysGone => event@ == ReceiverEventView::RelaysGone,
            ReceiverEvent::Direct(m) => event@ == ReceiverEventView::Direct(m@),
            ReceiverEvent::DirectClosed => event@ == ReceiverEventView::DirectClosed,
        },
{
}

/// The key of a session is that of its cipher.
pub proof fn law_session_key_is_the_ciphers(cipher: Option<SessionCipher>)
    ensures
        cipher is None <==> cipher_key(cipher) is None,
        cipher matches Some(c) ==> cipher_key(cipher) == Some(c.key()),
{
}

} // verus!
