//! What a transfer delivers, from the sender's payload to the receiver's.
use crate::conduct::law_failures_have_causes;
use crate::decoder::{DecoderError, DecoderView};
use crate::encoder::{block_count, checks_end, checks_end_soon, EncoderView};
use crate::precode::{hdpc_count, hdpc_draws_end, hdpc_draws_end_soon, ldpc_count};
use crate::receiver::{ReceiverError, ReceiverEventView, ReceiverView};
use crate::recovery::{
    encodable, fed, law_complete_decoder_returns_payload, law_resolved_inputs_are_true,
    law_source_symbols_suffice, matching_decoder,
};
use crate::sender::SenderView;
use crate::wire::MessageView;
use vstd::prelude::*;

verus! {

/// Whether a message could come from the sender of a session: a symbol that it
/// emits, its description of the payload, or no symbol and no description.
pub open spec fn is_genuine(sender: SenderView, msg: MessageView) -> bool {
    match msg {
        MessageView::Symbol { session_id, esi, data } => {
            session_id == sender.session_id && sender.carries(esi, data)
        },
        MessageView::Meta { session_id, filename, size, symbol_size, k, checksum } => {
            &&& session_id == sender.session_id
            &&& filename == sender.filename
            &&& size == sender.encoder.payload_len
            &&& symbol_size == sender.encoder.symbol_size
            &&& k == sender.encoder.k
            &&& checksum == sender.encoder.checksum
        },
        _ => true,
    }
}

/// Whether an event brings only what the sender sent.
pub open spec fn is_genuine_event(sender: SenderView, event: ReceiverEventView) -> bool {
    match event {
        ReceiverEventView::Relay(msg) => is_genuine(sender, msg),
        ReceiverEventView::Direct(msg) => is_genuine(sender, msg),
        _ => true,
    }
}

/// The receiver after several events.
pub open spec fn after_events(
    receiver: ReceiverView,
    events: Seq<ReceiverEventView>,
    table: Seq<u64>,
) -> ReceiverView
    decreases events.len(),
{
    if events.len() == 0 {
        receiver
    } else {
        after_events(receiver, events.drop_last(), table).step(events.last(), table).0
    }
}

/// Whether a receiver listens to a sender: same session, same key.
pub open spec fn listens_to(receiver: ReceiverView, sender: SenderView) -> bool {
    receiver.session_id == sender.session_id && receiver.key == sender.key
}

/// Whether all that a receiver holds comes from the sender: what waits are
/// symbols of it, and the decoder was fed with symbols of it.
spec fn holds_genuine(receiver: ReceiverView, sender: SenderView, esis: Seq<u32>) -> bool {
    &&& listens_to(receiver, sender)
    &&& forall|i: int|
        0 <= i < receiver.pending.len() ==> {
            let p = #[trigger] receiver.pending[i];
            sender.carries(p.0, p.1)
        }
    &&& receiver.decoder matches Some(d) ==> d == fed(
        matching_decoder(sender.encoder),
        sender.encoder,
        esis,
    )
}

/// Whether a sender sends the payload.
pub open spec fn sends(
    sender: SenderView,
    payload: Seq<u8>,
    size: nat,
    table: Seq<u64>,
) -> bool {
    &&& encodable(payload, size)
    &&& payload.len() <= usize::MAX
    &&& sender.encoder == EncoderView::of(payload, size, table)
}

/// A symbol of the sender is kept or decoded; it fails only if drawing its
/// inputs is given up.
proof fn lemma_take_symbol(
    receiver: ReceiverView,
    sender: SenderView,
    payload: Seq<u8>,
    size: nat,
    table: Seq<u64>,
    esis: Seq<u32>,
    esi: u32,
    data: Seq<u8>,
) -> (more: Seq<u32>)
    requires
        sends(sender, payload, size, table),
        holds_genuine(receiver, sender, esis),
        sender.carries(esi, data),
    ensures
        holds_genuine(receiver.take_symbol(esi, data).0, sender, more),
        receiver.take_symbol(esi, data).1 matches Err(e) ==> e == ReceiverError::DrawLimit,
        receiver.decoder is Some ==> receiver.take_symbol(esi, data).0.decoder is Some,
        receiver.decoder is Some ==> receiver.take_symbol(esi, data).0.pending == receiver.pending,
{
    let next = receiver.take_symbol(esi, data).0;
    match receiver.decoder {
        None => {
            assert forall|i: int| 0 <= i < next.pending.len() implies {
                let p = #[trigger] next.pending[i];
                sender.carries(p.0, p.1)
            } by {
                if i < receiver.pending.len() {
                    assert(next.pending[i] == receiver.pending[i]);
                }
            }
            esis
        },
        Some(d) => {
            law_resolved_inputs_are_true(payload, size, table, esis);
            assert(receiver.opened(esi, data) == Some(sender.encoder.symbol(esi)));
            assert(esis.push(esi).drop_last() =~= esis);
            if receiver.take_symbol(esi, data).1 is Ok {
                esis.push(esi)
            } else {
                esis
            }
        },
    }
}

/// What waited is decoded, oldest first.
proof fn lemma_take_pending(
    receiver: ReceiverView,
    sender: SenderView,
    payload: Seq<u8>,
    size: nat,
    table: Seq<u64>,
    esis: Seq<u32>,
) -> (more: Seq<u32>)
    requires
        sends(sender, payload, size, table),
        holds_genuine(receiver, sender, esis),
    ensures
        holds_genuine(receiver.take_pending().0, sender, more),
        receiver.take_pending().1 matches Err(e) ==> e == ReceiverError::DrawLimit,
    decreases receiver.pending.len(),
{
    if receiver.pending.len() == 0 || receiver.decoder is None {
        esis
    } else {
        let (esi, data) = receiver.pending[0];
        let rest = ReceiverView { pending: receiver.pending.skip(1), ..receiver };
        assert forall|i: int| 0 <= i < rest.pending.len() implies {
            let p = #[trigger] rest.pending[i];
            sender.carries(p.0, p.1)
        } by {
            assert(rest.pending[i] == receiver.pending[i + 1]);
        }
        assert(sender.carries(receiver.pending[0].0, receiver.pending[0].1));
        let more = lemma_take_symbol(rest, sender, payload, size, table, esis, esi, data);
        let (next, result) = rest.take_symbol(esi, data);
        if result == Ok::<bool, ReceiverError>(false) {
            lemma_take_pending(next, sender, payload, size, table, more)
        } else {
            more
        }
    }
}

/// An event that brings what the sender sent keeps a receiver holding only
/// that.
proof fn lemma_step(
    receiver: ReceiverView,
    sender: SenderView,
    payload: Seq<u8>,
    size: nat,
    table: Seq<u64>,
    esis: Seq<u32>,
    event: ReceiverEventView,
) -> (more: Seq<u32>)
    requires
        sends(sender, payload, size, table),
        holds_genuine(receiver, sender, esis),
        is_genuine_event(sender, event),
    ensures
        holds_genuine(receiver.step(event, table).0, sender, more),
        receiver.step(event, table).1 matches Err(ReceiverError::OpenFailed { .. }) ==> false,
        receiver.step(event, table).1 matches Err(ReceiverError::SymbolSize { .. }) ==> false,
        receiver.step(event, table).1 matches Err(ReceiverError::InvalidMeta) ==> false,
{
    match event {
        ReceiverEventView::Relay(MessageView::Symbol { esi, data, .. }) => {
            lemma_take_symbol(
                receiver.counted(false, data.len()),
                sender,
                payload,
                size,
                table,
                esis,
                esi,
                data,
            )
        },
        ReceiverEventView::Direct(MessageView::Symbol { esi, data, .. }) => {
            lemma_take_symbol(
                receiver.counted(true, data.len()),
                sender,
                payload,
                size,
                table,
                esis,
                esi,
                data,
            )
        },
        ReceiverEventView::Relay(
            MessageView::Meta { filename, size: bytes, symbol_size, k, checksum, .. },
        ) => {
            if receiver.decoder is None {
                lemma_some_block(payload.len(), size);
                let set_up = ReceiverView {
                    filename: Some(filename),
                    decoder: Some(matching_decoder(sender.encoder)),
                    ..receiver
                };
                let none = Seq::<u32>::empty();
                assert(set_up.decoder == Some(
                    DecoderView::fresh(
                        bytes as usize as nat,
                        symbol_size as nat,
                        k as nat,
                        checksum,
                        table,
                    ),
                ));
                lemma_take_pending(set_up, sender, payload, size, table, none)
            } else {
                esis
            }
        },
        _ => esis,
    }
}

/// A payload has at least one block.
proof fn lemma_some_block(len: nat, size: nat)
    requires
        size > 0,
    ensures
        block_count(len, size) > 0,
{
    if len > 0 {
        let a = len - 1;
        let d = size as int;
        assert(a / d >= 0) by (nonlinear_arith)
            requires
                a >= 0,
                d > 0,
        ;
    }
}

/// The receiver holds only what the sender sent, after any events that bring
/// only that.
proof fn lemma_events(
    receiver: ReceiverView,
    sender: SenderView,
    payload: Seq<u8>,
    size: nat,
    table: Seq<u64>,
    events: Seq<ReceiverEventView>,
) -> (esis: Seq<u32>)
    requires
        sends(sender, payload, size, table),
        listens_to(receiver, sender),
        receiver.decoder is None,
        receiver.pending.len() == 0,
        forall|i: int| 0 <= i < events.len() ==> is_genuine_event(sender, #[trigger] events[i]),
    ensures
        holds_genuine(after_events(receiver, events, table), sender, esis),
    decreases events.len(),
{
    if events.len() == 0 {
        Seq::empty()
    } else {
        let rest = events.drop_last();
        assert forall|i: int| 0 <= i < rest.len() implies is_genuine_event(
            sender,
            #[trigger] rest[i],
        ) by {
            assert(rest[i] == events[i]);
        }
        let esis = lemma_events(receiver, sender, payload, size, table, rest);
        assert(is_genuine_event(sender, events[events.len() - 1]));
        lemma_step(
            after_events(receiver, rest, table),
            sender,
            payload,
            size,
            table,
            esis,
            events.last(),
        )
    }
}

/// A transfer delivers the payload: once the receiver's decoder is complete, it
/// gives back exactly what the sender sends, over whatever links, in whatever
/// order and however often the sender's messages arrived, and whether or not
/// symbols are sealed, as long as both sides share session, key and degree
/// table.
pub proof fn law_transfer_delivers_payload(
    receiver: ReceiverView,
    sender: SenderView,
    payload: Seq<u8>,
    size: nat,
    table: Seq<u64>,
    events: Seq<ReceiverEventView>,
)
    requires
        sends(sender, payload, size, table),
        listens_to(receiver, sender),
        receiver.decoder is None,
        receiver.pending.len() == 0,
        forall|i: int| 0 <= i < events.len() ==> is_genuine_event(sender, #[trigger] events[i]),
    ensures
        after_events(receiver, events, table).decoder matches Some(d) ==> d.complete()
            ==> d.reconstruct() == Ok::<Seq<u8>, DecoderError>(payload),
{
    let esis = lemma_events(receiver, sender, payload, size, table, events);
    if let Some(d) = after_events(receiver, events, table).decoder {
        if d.complete() {
            law_complete_decoder_returns_payload(payload, size, table, esis);
        }
    }
}

/// A receiver never refuses what its sender sent: whatever genuine messages
/// came before, the next one is neither inauthentic nor of a wrong size, nor
/// does it describe no payload; a failure is for drawing that was given up, the
/// sender's own Done or closed relays, and the end of the direct link is none.
pub proof fn law_genuine_messages_are_accepted(
    receiver: ReceiverView,
    sender: SenderView,
    payload: Seq<u8>,
    size: nat,
    table: Seq<u64>,
    events: Seq<ReceiverEventView>,
    event: ReceiverEventView,
)
    requires
        sends(sender, payload, size, table),
        listens_to(receiver, sender),
        receiver.decoder is None,
        receiver.pending.len() == 0,
        forall|i: int| 0 <= i < events.len() ==> is_genuine_event(sender, #[trigger] events[i]),
        is_genuine_event(sender, event),
    ensures
        after_events(receiver, events, table).step(event, table).1 matches Err(e) ==> (match event {
            ReceiverEventView::Relay(msg) => {
                ||| e == ReceiverError::DrawLimit && (msg is Symbol || msg is Meta)
                ||| e == ReceiverError::SenderAborted && msg is Done
            },
            ReceiverEventView::RelayClosed => e == ReceiverError::ClosedBeforeMeta,
            ReceiverEventView::RelaysGone => e == ReceiverError::ClosedBeforeEnd,
            ReceiverEventView::Direct(msg) => e == ReceiverError::DrawLimit && msg is Symbol,
            ReceiverEventView::DirectClosed => false,
        }),
{
    let esis = lemma_events(receiver, sender, payload, size, table, events);
    lemma_step(
        after_events(receiver, events, table),
        sender,
        payload,
        size,
        table,
        esis,
        event,
    );
    law_failures_have_causes(after_events(receiver, events, table), event, table);
}

/// The symbol that an event brings over some link.
pub open spec fn symbol_of(event: ReceiverEventView) -> Option<(u32, Seq<u8>)> {
    match event {
        ReceiverEventView::Relay(MessageView::Symbol { esi, data, .. }) => Some((esi, data)),
        ReceiverEventView::Direct(MessageView::Symbol { esi, data, .. }) => Some((esi, data)),
        _ => None,
    }
}

/// The ESI of the symbol that an event brings; 0 if it brings none.
pub open spec fn esi_of(event: ReceiverEventView) -> u32 {
    match symbol_of(event) {
        Some((esi, _)) => esi,
        None => 0,
    }
}

/// The ESIs of the symbols that events bring.
pub open spec fn esis_of(events: Seq<ReceiverEventView>) -> Seq<u32> {
    Seq::new(events.len(), |i: int| esi_of(events[i]))
}

/// Whether an event brings a source symbol of the sender.
pub open spec fn is_source_symbol(sender: SenderView, event: ReceiverEventView) -> bool {
    &&& is_genuine_event(sender, event)
    &&& symbol_of(event) matches Some((esi, _)) && esi < sender.encoder.k
}

/// A set-up receiver feeds source symbols to its decoder as they come.
proof fn lemma_source_symbols_feed(
    receiver: ReceiverView,
    sender: SenderView,
    payload: Seq<u8>,
    size: nat,
    table: Seq<u64>,
    events: Seq<ReceiverEventView>,
)
    requires
        sends(sender, payload, size, table),
        listens_to(receiver, sender),
        receiver.decoder == Some(matching_decoder(sender.encoder)),
        forall|i: int| 0 <= i < events.len() ==> is_source_symbol(sender, #[trigger] events[i]),
    ensures
        after_events(receiver, events, table).decoder == Some(
            fed(matching_decoder(sender.encoder), sender.encoder, esis_of(events)),
        ),
        listens_to(after_events(receiver, events, table), sender),
        events.len() > 0 ==> after_events(receiver, events.drop_last(), table).step(
            events.last(),
            table,
        ).1 is Ok,
    decreases events.len(),
{
    if events.len() > 0 {
        let rest = events.drop_last();
        assert forall|i: int| 0 <= i < rest.len() implies is_source_symbol(
            sender,
            #[trigger] rest[i],
        ) by {
            assert(rest[i] == events[i]);
        }
        lemma_source_symbols_feed(receiver, sender, payload, size, table, rest);
        law_resolved_inputs_are_true(payload, size, table, esis_of(rest));
        assert(esis_of(events).drop_last() =~= esis_of(rest));
        assert(is_source_symbol(sender, events[events.len() - 1]));
        let (esi, data) = symbol_of(events.last())->0;
        let before = after_events(receiver, rest, table);
        assert(before.opened(esi, data) == Some(sender.encoder.symbol(esi)));
        assert(esis_of(events).last() == esi);
    }
}

/// A lossless transfer needs no more than the source symbols: a receiver that
/// got the description of the payload and then every source symbol, over
/// whatever links, in whatever order and however often, is complete and has the
/// payload.
pub proof fn law_lossless_transfer_completes(
    receiver: ReceiverView,
    sender: SenderView,
    payload: Seq<u8>,
    size: nat,
    table: Seq<u64>,
    meta: MessageView,
    events: Seq<ReceiverEventView>,
)
    requires
        sends(sender, payload, size, table),
        checks_end_soon(sender.encoder.k),
        listens_to(receiver, sender),
        receiver.decoder is None,
        receiver.pending.len() == 0,
        meta is Meta,
        is_genuine(sender, meta),
        forall|i: int| 0 <= i < events.len() ==> is_source_symbol(sender, #[trigger] events[i]),
        forall|i: u32| i < sender.encoder.k ==> #[trigger] esis_of(events).contains(i),
    ensures
        ({
            let described = receiver.step(ReceiverEventView::Relay(meta), table).0;
            let done = after_events(described, events, table);
            &&& done.decoder matches Some(d) && d.complete() && d.reconstruct() == Ok::<
                Seq<u8>,
                DecoderError,
            >(payload)
        }),
{
    let described = receiver.step(ReceiverEventView::Relay(meta), table).0;
    lemma_some_block(payload.len(), size);
    assert(described.decoder == Some(matching_decoder(sender.encoder)));
    lemma_source_symbols_feed(described, sender, payload, size, table, events);
    let k = sender.encoder.k;
    assert(checks_end(k)) by {
        assert forall|i: usize| i < hdpc_count(k) implies #[trigger] hdpc_draws_end(
            (k + ldpc_count(k)) as usize,
            i,
        ) by {
            assert(hdpc_draws_end_soon((k + ldpc_count(k)) as usize, i));
        }
    }
    law_source_symbols_suffice(payload, size, table, esis_of(events));
}

} // verus!
