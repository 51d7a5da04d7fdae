//! What each message does to a relay, field by field.
use crate::relay::{
    after_stop, buffer_after, delivery_views, law_buffer_keeps_the_newest, lemma_total_push,
    total_len, Delivery, RelayView,
};
use crate::wire::MessageView;
use vstd::prelude::*;

verus! {

/// Whether nothing about a relay but the room of one session may differ.
pub open spec fn same_but_room(before: RelayView, after: RelayView, id: u64) -> bool {
    &&& after.bytes_relayed == before.bytes_relayed
    &&& after.symbols_relayed == before.symbols_relayed
    &&& after.throttle_kbps == before.throttle_kbps
    &&& forall|other: u64|
        other != id ==> (#[trigger] after.rooms.contains_key(other) <==> before.rooms.contains_key(
            other,
        )) && (before.rooms.contains_key(other) ==> after.rooms[other] == before.rooms[other])
}

/// A sender that registers takes the sender's place and gets the P2P address
/// that waits for it. The receiver, what waits for the receiver and whether it is
/// done stay as they are.
pub proof fn law_sender_registers(relay: RelayView, id: u64, conn: u128)
    ensures
        ({
            let hello = MessageView::Hello { session_id: id, role: 1 };
            let before = relay.room(id);
            let next = relay.after(hello, conn);
            &&& same_but_room(relay, next, id)
            &&& next.rooms.contains_key(id)
            &&& next.room(id).sender == Some(conn)
            &&& next.room(id).receiver == before.receiver
            &&& next.room(id).buffer == before.buffer
            &&& next.room(id).receiver_done == before.receiver_done
            &&& next.room(id).pending_direct is None
            &&& before.pending_direct is None ==> relay.deliveries(hello, conn).len() == 0
            &&& before.pending_direct matches Some(frame) ==> relay.deliveries(hello, conn)
                == seq![(conn, frame)]
        }),
{
}

/// A receiver that registers takes the receiver's place and gets what waits for
/// it, in order. The sender, a P2P address that waits for the sender and whether
/// the receiver is done stay as they are.
pub proof fn law_receiver_registers(relay: RelayView, id: u64, conn: u128, i: int)
    ensures
        ({
            let hello = MessageView::Hello { session_id: id, role: 2 };
            let before = relay.room(id);
            let next = relay.after(hello, conn);
            &&& same_but_room(relay, next, id)
            &&& next.rooms.contains_key(id)
            &&& next.room(id).receiver == Some(conn)
            &&& next.room(id).sender == before.sender
            &&& next.room(id).pending_direct == before.pending_direct
            &&& next.room(id).receiver_done == before.receiver_done
            &&& next.room(id).buffer.len() == 0
            &&& relay.deliveries(hello, conn).len() == before.buffer.len()
            &&& 0 <= i < before.buffer.len() ==> relay.deliveries(hello, conn)[i] == (
                conn,
                before.buffer[i],
            )
        }),
{
}

/// Who registers in another role takes no place and gets nothing.
pub proof fn law_other_roles_take_no_place(relay: RelayView, id: u64, role: u8, conn: u128)
    requires
        role != 1,
        role != 2,
    ensures
        ({
            let hello = MessageView::Hello { session_id: id, role };
            let next = relay.after(hello, conn);
            &&& same_but_room(relay, next, id)
            &&& next.room(id) == relay.room(id)
            &&& relay.deliveries(hello, conn).len() == 0
        }),
{
}

/// It does not matter who registers first: sender and receiver end up in the same
/// room, and hear each other from then on.
pub proof fn law_registration_order_is_irrelevant(
    relay: RelayView,
    id: u64,
    sender: u128,
    receiver: u128,
    msg: MessageView,
    conn: u128,
)
    requires
        !relay.room(id).receiver_done,
        msg is Symbol || msg is Meta,
        msg.session_id() == id,
    ensures
        ({
            let s = MessageView::Hello { session_id: id, role: 1 };
            let r = MessageView::Hello { session_id: id, role: 2 };
            let ready = MessageView::Ready { session_id: id };
            let a = relay.after(s, sender).after(r, receiver);
            let b = relay.after(r, receiver).after(s, sender);
            &&& a.room(id) == b.room(id)
            &&& a.deliveries(msg, conn) == seq![(receiver, msg.frame())]
            &&& b.deliveries(msg, conn) == seq![(receiver, msg.frame())]
            &&& a.deliveries(ready, receiver) == seq![(sender, ready.frame())]
            &&& b.deliveries(ready, receiver) == seq![(sender, ready.frame())]
        }),
{
    let s = MessageView::Hello { session_id: id, role: 1 };
    let r = MessageView::Hello { session_id: id, role: 2 };
    assert(relay.after(s, sender).after(r, receiver).room(id) =~= relay.after(r, receiver).after(
        s,
        sender,
    ).room(id));
}

/// A message for the receiver goes to the receiver at once if it is there, is
/// dropped if the receiver is done, and waits behind what waits already if there
/// is no receiver yet. Nothing else in the room changes.
pub proof fn law_messages_for_the_receiver(
    relay: RelayView,
    id: u64,
    msg: MessageView,
    conn: u128,
)
    requires
        msg is Symbol || msg is Meta,
        msg.session_id() == id,
    ensures
        ({
            let before = relay.room(id);
            let next = relay.after(msg, conn).room(id);
            let sent = relay.deliveries(msg, conn);
            &&& next.sender == before.sender
            &&& next.receiver == before.receiver
            &&& next.pending_direct == before.pending_direct
            &&& next.receiver_done == before.receiver_done
            &&& before.receiver_done ==> sent.len() == 0 && next.buffer == before.buffer
            &&& !before.receiver_done ==> (match before.receiver {
                Some(to) => sent == seq![(to, msg.frame())] && next.buffer == before.buffer,
                None => {
                    &&& sent.len() == 0
                    &&& next.buffer.len() > 0
                    &&& next.buffer.last() == msg.frame()
                    &&& total_len(before.buffer) + msg.frame().len() <= 268_435_456
                        ==> next.buffer == before.buffer.push(msg.frame())
                },
            })
        }),
{
    let dropped = law_buffer_keeps_the_newest(relay.room(id).buffer, msg.frame());
}

/// What waits is kept as long as it has no more than 256 MiB; beyond that the
/// oldest frames go, and only as many as must.
pub proof fn law_buffer_limit(frames: Seq<Seq<u8>>, frame: Seq<u8>) -> (dropped: int)
    ensures
        0 <= dropped <= frames.len(),
        buffer_after(frames, frame) == frames.skip(dropped).push(frame),
        dropped < frames.len() ==> total_len(frames.skip(dropped)) + frame.len() <= 268_435_456,
        dropped > 0 ==> total_len(frames.skip(dropped - 1)) + frame.len() > 268_435_456,
{
    let d = law_buffer_keeps_the_newest(frames, frame);
    lemma_total_push(frames.skip(d), frame);
    if d > 0 {
        lemma_total_push(frames.skip(d - 1), frame);
    }
    d
}

/// The bytes of frames add up.
pub proof fn law_bytes_add_up(frames: Seq<Seq<u8>>, frame: Seq<u8>)
    ensures
        total_len(Seq::empty()) == 0,
        total_len(frames.push(frame)) == total_len(frames) + frame.len(),
{
    lemma_total_push(frames, frame);
}

/// Only symbols are counted: each adds one, and the number of its data bytes,
/// whether or not there is a receiver. What a message does stays in the room of
/// its session.
pub proof fn law_symbols_are_counted(relay: RelayView, msg: MessageView, conn: u128)
    requires
        msg matches MessageView::Symbol { data, .. } ==> data.len() <= u64::MAX,
    ensures
        ({
            let next = relay.after(msg, conn);
            &&& next.throttle_kbps == relay.throttle_kbps
            &&& (match msg {
                MessageView::Symbol { data, .. } => {
                    &&& next.symbols_relayed == (relay.symbols_relayed + 1)
                        % 0x1_0000_0000_0000_0000
                    &&& next.bytes_relayed == (relay.bytes_relayed + data.len())
                        % 0x1_0000_0000_0000_0000
                },
                _ => {
                    &&& next.symbols_relayed == relay.symbols_relayed
                    &&& next.bytes_relayed == relay.bytes_relayed
                },
            })
            &&& same_but_room(
                RelayView {
                    symbols_relayed: next.symbols_relayed,
                    bytes_relayed: next.bytes_relayed,
                    ..relay
                },
                next,
                msg.session_id(),
            )
        }),
{
}

/// READY goes to the sender, if there is one, and closes the room for symbols.
/// Nothing else in the room changes, and without a room it does nothing.
pub proof fn law_ready(relay: RelayView, id: u64, conn: u128)
    ensures
        ({
            let ready = MessageView::Ready { session_id: id };
            let before = relay.room(id);
            let next = relay.after(ready, conn);
            &&& relay.deliveries(ready, conn) == (match before.sender {
                Some(to) => seq![(to, ready.frame())],
                None => Seq::empty(),
            })
            &&& next.rooms.contains_key(id) <==> relay.rooms.contains_key(id)
            &&& relay.rooms.contains_key(id) ==> next.room(id).receiver_done
            &&& next.room(id).sender == before.sender
            &&& next.room(id).receiver == before.receiver
            &&& next.room(id).buffer == before.buffer
            &&& next.room(id).pending_direct == before.pending_direct
        }),
{
}

/// A P2P address goes to the sender if it is there, and waits for it otherwise;
/// a later address takes the place of an earlier one. Nothing else in the room
/// changes.
pub proof fn law_direct_address(relay: RelayView, id: u64, addr: Seq<char>, conn: u128)
    ensures
        ({
            let direct = MessageView::Direct { session_id: id, addr };
            let before = relay.room(id);
            let next = relay.after(direct, conn).room(id);
            &&& next.sender == before.sender
            &&& next.receiver == before.receiver
            &&& next.buffer == before.buffer
            &&& next.receiver_done == before.receiver_done
            &&& (match before.sender {
                Some(to) => {
                    &&& relay.deliveries(direct, conn) == seq![(to, direct.frame())]
                    &&& next.pending_direct == before.pending_direct
                },
                None => {
                    &&& relay.deliveries(direct, conn).len() == 0
                    &&& next.pending_direct == Some(direct.frame())
                },
            })
        }),
{
}

/// The end of a session empties its room and is passed on to nobody.
pub proof fn law_done_closes_the_room(relay: RelayView, id: u64, conn: u128)
    ensures
        ({
            let done = MessageView::Done { session_id: id };
            let next = relay.after(done, conn);
            &&& !next.rooms.contains_key(id)
            &&& next.room(id).sender is None
            &&& next.room(id).receiver is None
            &&& next.room(id).buffer.len() == 0
            &&& next.room(id).pending_direct is None
            &&& !next.room(id).receiver_done
            &&& relay.deliveries(done, conn).len() == 0
        }),
{
}

/// A connection that leaves a session frees the places that it has there and no
/// other. What waits stays for who comes back; only a room without sender,
/// receiver and waiting frames is given up.
pub proof fn law_leaving_frees_a_place(relay: RelayView, id: u64, conn: u128)
    ensures
        ({
            let before = relay.room(id);
            let next = relay.after_leave(id, conn);
            let sender_left = before.sender is None || before.sender == Some(conn);
            let receiver_left = before.receiver is None || before.receiver == Some(conn);
            &&& same_but_room(relay, next, id)
            &&& next.room(id).sender == (if sender_left {
                None
            } else {
                before.sender
            })
            &&& next.room(id).receiver == (if receiver_left {
                None
            } else {
                before.receiver
            })
            &&& next.room(id).buffer == before.buffer
            &&& next.rooms.contains_key(id) <==> relay.rooms.contains_key(id) && !(sender_left
                && receiver_left && before.buffer.len() == 0)
            &&& next.rooms.contains_key(id) ==> next.room(id).pending_direct
                == before.pending_direct && next.room(id).receiver_done == before.receiver_done
        }),
{
    let before = relay.room(id);
    if before.buffer.len() == 0 {
        assert(before.buffer =~= Seq::<Seq<u8>>::empty());
    }
}

/// A connection that stops leaves the session of its last message, if one came.
pub proof fn law_stopping_leaves_the_last_session(relay: RelayView, id: u64, conn: u128)
    ensures
        after_stop(relay, None, conn) == relay,
        after_stop(relay, Some(id), conn).room(id).sender != Some(conn),
        after_stop(relay, Some(id), conn).room(id).receiver != Some(conn),
        same_but_room(relay, after_stop(relay, Some(id), conn), id),
        relay.room(id).sender is Some && relay.room(id).sender != Some(conn) ==> after_stop(
            relay,
            Some(id),
            conn,
        ).room(id).sender == relay.room(id).sender,
        relay.room(id).receiver is Some && relay.room(id).receiver != Some(conn) ==> after_stop(
            relay,
            Some(id),
            conn,
        ).room(id).receiver == relay.room(id).receiver,
        after_stop(relay, Some(id), conn).room(id).buffer == relay.room(id).buffer,
{
    law_leaving_frees_a_place(relay, id, conn);
}

/// A relay holds a connection exactly while it has the sender's or the receiver's
/// place in some room.
pub proof fn law_places_are_held(relay: RelayView, id: u64, conn: u128)
    ensures
        relay.room(id).sender == Some(conn) ==> relay.holds(conn),
        relay.room(id).receiver == Some(conn) ==> relay.holds(conn),
        relay.holds(conn) ==> exists|i: u64| #[trigger]
            relay.rooms.contains_key(i) && (relay.room(i).sender == Some(conn) || relay.room(
                i,
            ).receiver == Some(conn)),
{
    if relay.holds(conn) {
        let i = choose|i: u64| #[trigger]
            relay.rooms.contains_key(i) && relay.rooms[i].seats(conn);
        assert(relay.room(i) == relay.rooms[i]);
    }
}

/// A delivery is a whole frame for one connection, and deliveries keep their order.
pub proof fn law_deliveries_are_whole_frames(out: Seq<Delivery>, i: int)
    requires
        0 <= i < out.len(),
    ensures
        delivery_views(out).len() == out.len(),
        delivery_views(out)[i] == (out[i].to, out[i].frame@),
{
}

/// A new relay has no room, has counted nothing and has the limit it was given.
pub proof fn law_new_relay(throttle_kbps: Option<u64>, id: u64)
    ensures
        ({
            let relay = RelayView::idle(throttle_kbps);
            &&& !relay.rooms.contains_key(id)
            &&& relay.room(id).sender is None
            &&& relay.room(id).receiver is None
            &&& relay.room(id).buffer.len() == 0
            &&& relay.room(id).pending_direct is None
            &&& !relay.room(id).receiver_done
            &&& relay.bytes_relayed == 0
            &&& relay.symbols_relayed == 0
            &&& relay.throttle_kbps == throttle_kbps
        }),
{
}

} // verus!
