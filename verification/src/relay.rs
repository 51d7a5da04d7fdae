//! Edge relay: routes encoded symbols between a sender and a receiver that
//! share a session id.
//!
//! Connections are known by number; whoever owns the sockets carries out the
//! deliveries that routing asks for.
use crate::blocks::block_views;
use crate::buffers::bytes_slice;
use crate::framing::parse_datagram;
use crate::wire::{
    parse_front, MessageView, OrbitMessage, ProtocolError, ROLE_RECEIVER, ROLE_SENDER,
};
use std::collections::{HashMap, VecDeque};
use vstd::prelude::*;

verus! {

broadcast use vstd::std_specs::hash::group_hash_axioms;

/// How many bytes of frames a room keeps for a receiver that is not there yet.
pub const MAX_BUFFERED_BYTES: usize = 256 * 1024 * 1024;

/// A frame that is to be sent on a connection.
#[derive(Debug, PartialEq, Eq)]
pub struct Delivery {
    pub to: u128,
    pub frame: Vec<u8>,
}

/// A frame and the connection it is to be sent on.
pub open spec fn delivery_views(deliveries: Seq<Delivery>) -> Seq<(u128, Seq<u8>)> {
    Seq::new(deliveries.len(), |i: int| (deliveries[i].to, deliveries[i].frame@))
}

/// The number of bytes in frames.
pub open spec fn total_len(frames: Seq<Seq<u8>>) -> nat
    decreases frames.len(),
{
    if frames.len() == 0 {
        0
    } else {
        frames[0].len() + total_len(frames.skip(1))
    }
}

/// A buffer after one more frame: the oldest frames make room for it.
pub open spec fn buffer_after(frames: Seq<Seq<u8>>, frame: Seq<u8>) -> Seq<Seq<u8>>
    decreases frames.len(),
{
    if frames.len() > 0 && total_len(frames) + frame.len() > MAX_BUFFERED_BYTES {
        buffer_after(frames.skip(1), frame)
    } else {
        frames.push(frame)
    }
}

/// Appending a frame adds its length.
pub proof fn lemma_total_push(frames: Seq<Seq<u8>>, frame: Seq<u8>)
    ensures
        total_len(frames.push(frame)) == total_len(frames) + frame.len(),
    decreases frames.len(),
{
    if frames.len() == 0 {
        assert(frames.push(frame).skip(1) =~= Seq::<Seq<u8>>::empty());
        assert(total_len(frames.push(frame).skip(1)) == 0);
    } else {
        lemma_total_push(frames.skip(1), frame);
        assert(frames.push(frame).skip(1) =~= frames.skip(1).push(frame));
    }
}

/// A session's meeting place.
#[derive(Debug)]
struct Room {
    sender: Option<u128>,
    receiver: Option<u128>,
    buffer: VecDeque<Vec<u8>>,
    buffered_bytes: usize,
    pending_direct: Option<Vec<u8>>,
    receiver_done: bool,
}

/// What a room holds.
#[verifier::ext_equal]
pub struct RoomView {
    /// The sender's connection.
    pub sender: Option<u128>,
    /// The receiver's connection.
    pub receiver: Option<u128>,
    /// Frames for the receiver, oldest first.
    pub buffer: Seq<Seq<u8>>,
    /// The receiver's P2P address, for a sender that is not there yet.
    pub pending_direct: Option<Seq<u8>>,
    /// Whether the receiver has all it needs.
    pub receiver_done: bool,
}

impl RoomView {
    /// A room that nobody has entered.
    pub open spec fn empty() -> RoomView {
        RoomView {
            sender: None,
            receiver: None,
            buffer: Seq::empty(),
            pending_direct: None,
            receiver_done: false,
        }
    }

    /// Whether a connection has a place in the room.
    pub open spec fn seats(self, conn: u128) -> bool {
        self.sender == Some(conn) || self.receiver == Some(conn)
    }

    /// Whether the buffer is within its limit; a single frame may exceed it.
    pub open spec fn bounded(self) -> bool {
        total_len(self.buffer) <= MAX_BUFFERED_BYTES || self.buffer.len() <= 1
    }
}

/// The contents of an optional frame.
pub open spec fn frame_view(frame: Option<Vec<u8>>) -> Option<Seq<u8>> {
    match frame {
        Some(f) => Some(f@),
        None => None,
    }
}

impl View for Room {
    type V = RoomView;

    closed spec fn view(&self) -> RoomView {
        RoomView {
            sender: self.sender,
            receiver: self.receiver,
            buffer: block_views(self.buffer@),
            pending_direct: frame_view(self.pending_direct),
            receiver_done: self.receiver_done,
        }
    }
}

impl Room {
    /// Whether the byte count is that of the buffer.
    closed spec fn wf(&self) -> bool {
        &&& self.buffered_bytes == total_len(self@.buffer)
        &&& self@.bounded()
    }

    fn new() -> (room: Self)
        ensures
            room.wf(),
            room@ == RoomView::empty(),
    {
        let room = Room {
            sender: None,
            receiver: None,
            buffer: VecDeque::new(),
            buffered_bytes: 0,
            pending_direct: None,
            receiver_done: false,
        };
        proof {
            assert(room@.buffer =~= Seq::<Seq<u8>>::empty());
        }
        room
    }

    /// Whether a connection has a place in the room.
    fn seats(&self, conn: u128) -> (seated: bool)
        ensures
            seated == self@.seats(conn),
    {
        let as_sender: bool = match self.sender {
            Some(c) => c == conn,
            None => false,
        };
        let as_receiver: bool = match self.receiver {
            Some(c) => c == conn,
            None => false,
        };
        as_sender || as_receiver
    }

    /// Keeps a frame for the receiver, dropping the oldest ones if need be.
    fn push_buffer(&mut self, frame: Vec<u8>)
        requires
            old(self).wf(),
        ensures
            final(self).wf(),
            final(self)@ == (RoomView {
                buffer: buffer_after(old(self)@.buffer, frame@),
                ..old(self)@
            }),
    {
        let size: usize = frame.len();
        let ghost first = self@.buffer;
        let ghost before = *self;
        while self.buffer.len() > 0 && (size > MAX_BUFFERED_BYTES || self.buffered_bytes
            > MAX_BUFFERED_BYTES - size)
            invariant
                size == frame@.len(),
                self.buffered_bytes == total_len(self@.buffer),
                buffer_after(first, frame@) == buffer_after(self@.buffer, frame@),
                *self == (Room {
                    buffer: self.buffer,
                    buffered_bytes: self.buffered_bytes,
                    ..before
                }),
            decreases self.buffer@.len(),
        {
            let ghost was = self@.buffer;
            if let Some(oldest) = self.buffer.pop_front() {
                proof {
                    assert(was[0] == oldest@);
                    assert(self@.buffer =~= was.skip(1));
                }
                self.buffered_bytes = self.buffered_bytes - oldest.len();
            }
        }
        let ghost kept = self@.buffer;
        proof {
            if kept.len() == 0 {
                assert(total_len(kept) == 0);
            }
            lemma_total_push(kept, frame@);
        }
        self.buffered_bytes = self.buffered_bytes + size;
        self.buffer.push_back(frame);
        proof {
            assert(self@.buffer =~= kept.push(frame@));
        }
    }

    /// Moves all buffered frames out, leaving the buffer empty, and addresses
    /// them to `to`.
    fn drain_buffer(&mut self, to: u128) -> (out: Vec<Delivery>)
        requires
            old(self).wf(),
        ensures
            final(self).wf(),
            final(self)@ == (RoomView { buffer: Seq::empty(), ..old(self)@ }),
            delivery_views(out@) == addressed(old(self)@.buffer, to),
    {
        let ghost all = self@.buffer;
        let ghost before = *self;
        let mut out: Vec<Delivery> = Vec::new();
        proof {
            assert(all.skip(0) =~= all);
        }
        while self.buffer.len() > 0
            invariant
                out@.len() <= all.len(),
                self@.buffer == all.skip(out@.len() as int),
                self.buffered_bytes == total_len(self@.buffer),
                forall|i: int|
                    0 <= i < out@.len() ==> (#[trigger] out@[i]).to == to && out@[i].frame@
                        == all[i],
                *self == (Room {
                    buffer: self.buffer,
                    buffered_bytes: self.buffered_bytes,
                    ..before
                }),
            decreases self.buffer@.len(),
        {
            let ghost was = self@.buffer;
            if let Some(frame) = self.buffer.pop_front() {
                proof {
                    assert(was[0] == frame@);
                    assert(was[0] == all[out@.len() as int]);
                    assert(self@.buffer =~= was.skip(1));
                    assert(was.skip(1) =~= all.skip(out@.len() as int + 1));
                }
                self.buffered_bytes = self.buffered_bytes - frame.len();
                out.push(Delivery { to, frame });
            }
        }
        proof {
            assert(self@.buffer.len() == 0);
            assert(self@.buffer =~= Seq::<Seq<u8>>::empty());
            assert(delivery_views(out@) =~= addressed(all, to));
        }
        out
    }
}

/// Frames that all go to one connection.
pub open spec fn addressed(frames: Seq<Seq<u8>>, to: u128) -> Seq<(u128, Seq<u8>)> {
    Seq::new(frames.len(), |i: int| (to, frames[i]))
}

/// What a relay holds.
#[verifier::ext_equal]
pub struct RelayView {
    pub rooms: Map<u64, RoomView>,
    pub bytes_relayed: u64,
    pub symbols_relayed: u64,
    pub throttle_kbps: Option<u64>,
}

impl RelayView {
    /// A relay that nothing has come to.
    pub open spec fn idle(throttle_kbps: Option<u64>) -> RelayView {
        RelayView { rooms: Map::empty(), bytes_relayed: 0, symbols_relayed: 0, throttle_kbps }
    }

    /// The room of a session; an empty one if there is none.
    pub open spec fn room(self, id: u64) -> RoomView {
        if self.rooms.contains_key(id) {
            self.rooms[id]
        } else {
            RoomView::empty()
        }
    }

    /// The relay with a session's room replaced.
    pub open spec fn with_room(self, id: u64, room: RoomView) -> RelayView {
        RelayView { rooms: self.rooms.insert(id, room), ..self }
    }

    /// Whether a connection has a place in some room.
    pub open spec fn holds(self, conn: u128) -> bool {
        exists|id: u64| #[trigger]
            self.rooms.contains_key(id) && self.rooms[id].seats(conn)
    }

    /// Whether a room's receiver takes symbols: it is there and not done.
    pub open spec fn open_receiver(self, id: u64) -> Option<u128> {
        if self.room(id).receiver_done {
            None
        } else {
            self.room(id).receiver
        }
    }

    /// The relay after a frame for the receiver: kept while no receiver is
    /// there, otherwise forwarded or, once it is done, dropped.
    pub open spec fn after_forward(self, id: u64, frame: Seq<u8>) -> RelayView {
        let room = self.room(id);
        if room.receiver_done || room.receiver is Some {
            self
        } else {
            self.with_room(id, RoomView { buffer: buffer_after(room.buffer, frame), ..room })
        }
    }

    /// The relay after a message from connection `conn`.
    pub open spec fn after(self, msg: MessageView, conn: u128) -> RelayView {
        let id = msg.session_id();
        let room = self.room(id);
        match msg {
            MessageView::Hello { role, .. } => {
                if role == ROLE_SENDER {
                    self.with_room(
                        id,
                        RoomView { sender: Some(conn), pending_direct: None, ..room },
                    )
                } else if role == ROLE_RECEIVER {
                    self.with_room(
                        id,
                        RoomView { receiver: Some(conn), buffer: Seq::empty(), ..room },
                    )
                } else {
                    self.with_room(id, room)
                }
            },
            MessageView::Symbol { data, .. } => RelayView {
                bytes_relayed: self.bytes_relayed.wrapping_add(data.len() as u64),
                symbols_relayed: self.symbols_relayed.wrapping_add(1),
                ..self.after_forward(id, msg.frame())
            },
            MessageView::Meta { .. } => self.after_forward(id, msg.frame()),
            MessageView::Ready { .. } => {
                if self.rooms.contains_key(id) {
                    self.with_room(id, RoomView { receiver_done: true, ..room })
                } else {
                    self
                }
            },
            MessageView::Direct { .. } => {
                if room.sender is Some {
                    self
                } else {
                    self.with_room(id, RoomView { pending_direct: Some(msg.frame()), ..room })
                }
            },
            MessageView::Done { .. } => RelayView { rooms: self.rooms.remove(id), ..self },
        }
    }

    /// The frames that a message from connection `conn` has the relay send.
    pub open spec fn deliveries(self, msg: MessageView, conn: u128) -> Seq<(u128, Seq<u8>)> {
        let id = msg.session_id();
        let room = self.room(id);
        match msg {
            MessageView::Hello { role, .. } => {
                if role == ROLE_SENDER {
                    match room.pending_direct {
                        Some(frame) => seq![(conn, frame)],
                        None => Seq::empty(),
                    }
                } else if role == ROLE_RECEIVER {
                    addressed(room.buffer, conn)
                } else {
                    Seq::empty()
                }
            },
            MessageView::Symbol { .. } => to_one(self.open_receiver(id), msg.frame()),
            MessageView::Meta { .. } => to_one(self.open_receiver(id), msg.frame()),
            MessageView::Ready { .. } => to_one(room.sender, msg.frame()),
            MessageView::Direct { .. } => to_one(room.sender, msg.frame()),
            MessageView::Done { .. } => Seq::empty(),
        }
    }

    /// The relay after connection `conn` has left a session. A room that is
    /// left empty is given up.
    pub open spec fn after_leave(self, id: u64, conn: u128) -> RelayView {
        let room = self.room(id);
        let left = RoomView {
            sender: if room.sender == Some(conn) {
                None
            } else {
                room.sender
            },
            receiver: if room.receiver == Some(conn) {
                None
            } else {
                room.receiver
            },
            ..room
        };
        if !self.rooms.contains_key(id) {
            self
        } else if left.sender is None && left.receiver is None && left.buffer.len() == 0 {
            RelayView { rooms: self.rooms.remove(id), ..self }
        } else {
            self.with_room(id, left)
        }
    }
}

/// A frame to a connection, if there is one.
pub open spec fn to_one(conn: Option<u128>, frame: Seq<u8>) -> Seq<(u128, Seq<u8>)> {
    match conn {
        Some(to) => seq![(to, frame)],
        None => Seq::empty(),
    }
}

/// The contents of all rooms.
closed spec fn room_views(rooms: Map<u64, Room>) -> Map<u64, RoomView> {
    Map::new(|id: u64| rooms.contains_key(id), |id: u64| rooms[id]@)
}

/// Edge relay: routes encoded symbols between a sender and a receiver
/// identified by a shared session id.
#[derive(Debug)]
pub struct RelayCore {
    rooms: HashMap<u64, Room>,
    bytes_relayed: u64,
    symbols_relayed: u64,
    throttle_kbps: Option<u64>,
}

impl View for RelayCore {
    type V = RelayView;

    closed spec fn view(&self) -> RelayView {
        RelayView {
            rooms: room_views(self.rooms@),
            bytes_relayed: self.bytes_relayed,
            symbols_relayed: self.symbols_relayed,
            throttle_kbps: self.throttle_kbps,
        }
    }
}

impl RelayCore {
    /// Whether every room is in order.
    pub closed spec fn wf(&self) -> bool {
        forall|id: u64| #[trigger] self.rooms@.contains_key(id) ==> self.rooms@[id].wf()
    }

    /// A relay without a rate limit.
    pub fn new() -> (relay: Self)
        ensures
            relay.wf(),
            relay@ == (RelayView {
                rooms: Map::empty(),
                bytes_relayed: 0,
                symbols_relayed: 0,
                throttle_kbps: None,
            }),
            relay@ == RelayView::idle(None),
    {
        Self::with_throttle(None)
    }

    /// `throttle_kbps` caps the egress rate of every connection, simulating a
    /// constrained uplink.
    pub fn with_throttle(throttle_kbps: Option<u64>) -> (relay: Self)
        ensures
            relay.wf(),
            relay@ == (RelayView {
                rooms: Map::empty(),
                bytes_relayed: 0,
                symbols_relayed: 0,
                throttle_kbps,
            }),
            relay@ == RelayView::idle(throttle_kbps),
    {
        let relay = RelayCore {
            rooms: HashMap::new(),
            bytes_relayed: 0,
            symbols_relayed: 0,
            throttle_kbps,
        };
        proof {
            assert(relay@.rooms =~= Map::<u64, RoomView>::empty());
        }
        relay
    }

    /// The number of symbol bytes that came in so far, modulo 2^64.
    pub fn bytes_relayed(&self) -> (bytes: u64)
        ensures
            bytes == self@.bytes_relayed,
    {
        self.bytes_relayed
    }

    /// The number of symbols that came in so far, modulo 2^64.
    pub fn symbols_relayed(&self) -> (symbols: u64)
        ensures
            symbols == self@.symbols_relayed,
    {
        self.symbols_relayed
    }

    /// The egress limit per connection.
    pub fn throttle_kbps(&self) -> (kbps: Option<u64>)
        ensures
            kbps == self@.throttle_kbps,
    {
        self.throttle_kbps
    }

    /// Whether a connection has a place in some room.
    pub fn holds(&self, conn: u128) -> (held: bool)
        ensures
            held == self@.holds(conn),
    {
        for room in it: self.rooms.values()
            invariant
                forall|q: int|
                    0 <= q < it.index() ==> !(#[trigger] it.seq()[q])@.seats(conn),
                it.seq().unref().to_set() == self.rooms@.values(),
        {
            if room.seats(conn) {
                proof {
                    let rooms = it.seq().unref();
                    assert(rooms[it.index()] == *room);
                    assert(rooms.contains(*room));
                    assert(self.rooms@.values().contains(*room));
                    let id = choose|id: u64|
                        self.rooms@.contains_key(id) && self.rooms@[id] == *room;
                    assert(self@.rooms.contains_key(id));
                }
                return true;
            }
        }
        proof {
            assert forall|id: u64| #[trigger] self@.rooms.contains_key(id) implies
                !self@.rooms[id].seats(conn) by {
                let room = self.rooms@[id];
                assert(self.rooms@.values().contains(room));
            }
        }
        false
    }

    /// Takes the room of a session out; a new one if there is none.
    fn take_room(&mut self, id: u64) -> (room: Room)
        requires
            old(self).wf(),
        ensures
            final(self).wf(),
            room.wf(),
            room@ == old(self)@.room(id),
            final(self)@ == (RelayView { rooms: old(self)@.rooms.remove(id), ..old(self)@ }),
    {
        let ghost before = self@;
        let ghost rooms = self.rooms@;
        let taken = self.rooms.remove(&id);
        proof {
            assert(self@.rooms =~= before.rooms.remove(id));
        }
        match taken {
            Some(room) => {
                proof {
                    assert(rooms.contains_key(id));
                    assert(before.rooms.contains_key(id));
                }
                room
            },
            None => Room::new(),
        }
    }

    /// Puts the room of a session back.
    fn put_room(&mut self, id: u64, room: Room)
        requires
            old(self).wf(),
            room.wf(),
        ensures
            final(self).wf(),
            final(self)@ == old(self)@.with_room(id, room@),
    {
        let ghost before = self@;
        self.rooms.insert(id, room);
        proof {
            assert(self@.rooms =~= before.rooms.insert(id, room@));
        }
    }

    /// Forwards a frame to the receiver of a session, or keeps it while no
    /// receiver is there.
    fn forward(&mut self, id: u64, frame: Vec<u8>) -> (out: Vec<Delivery>)
        requires
            old(self).wf(),
        ensures
            final(self).wf(),
            final(self)@ == old(self)@.after_forward(id, frame@),
            delivery_views(out@) == to_one(old(self)@.open_receiver(id), frame@),
    {
        let ghost before = self@;
        let mut out: Vec<Delivery> = Vec::new();
        match self.rooms.get(&id) {
            Some(room) => {
                proof {
                    assert(self.rooms@.contains_key(id));
                    assert(before.rooms.contains_key(id));
                    assert(before.room(id) == room@);
                }
                if room.receiver_done {
                    proof {
                        assert(delivery_views(out@) =~= to_one(None, frame@));
                    }
                    return out;
                }
                if let Some(to) = room.receiver {
                    out.push(Delivery { to, frame });
                    proof {
                        assert(delivery_views(out@) =~= to_one(Some(to), frame@));
                    }
                    return out;
                }
            },
            None => {},
        }
        let mut room = self.take_room(id);
        room.push_buffer(frame);
        self.put_room(id, room);
        proof {
            assert(self@.rooms =~= before.after_forward(id, frame@).rooms);
            assert(delivery_views(out@) =~= to_one(None, frame@));
        }
        out
    }

    /// Routes a message from connection `conn`: updates the room of its
    /// session and returns the frames to send, in order.
    pub fn route(&mut self, msg: OrbitMessage, conn: u128) -> (out: Vec<Delivery>)
        requires
            old(self).wf(),
        ensures
            final(self).wf(),
            final(self)@ == old(self)@.after(msg@, conn),
            delivery_views(out@) == old(self)@.deliveries(msg@, conn),
    {
        let id: u64 = msg.session_id();
        let ghost before = self@;
        let mut out: Vec<Delivery> = Vec::new();
        proof {
            assert(delivery_views(out@) =~= Seq::<(u128, Seq<u8>)>::empty());
        }
        match &msg {
            OrbitMessage::Hello { session_id, role } => {
                let mut room = self.take_room(id);
                if *role == ROLE_SENDER {
                    room.sender = Some(conn);
                    let mut pending: Option<Vec<u8>> = None;
                    std::mem::swap(&mut pending, &mut room.pending_direct);
                    if let Some(frame) = pending {
                        out.push(Delivery { to: conn, frame });
                        proof {
                            assert(delivery_views(out@) =~= seq![(conn, frame@)]);
                        }
                    }
                } else if *role == ROLE_RECEIVER {
                    room.receiver = Some(conn);
                    out = room.drain_buffer(conn);
                }
                self.put_room(id, room);
                proof {
                    assert(self@.rooms =~= before.after(msg@, conn).rooms);
                }
            },
            OrbitMessage::Symbol { session_id, esi, data } => {
                let frame = msg.frame_bytes();
                let size: usize = bytes_slice(data).len();
                out = self.forward(id, frame);
                self.bytes_relayed = self.bytes_relayed.wrapping_add(size as u64);
                self.symbols_relayed = self.symbols_relayed.wrapping_add(1);
                proof {
                    assert(self@.rooms =~= before.after(msg@, conn).rooms);
                }
            },
            OrbitMessage::Meta { .. } => {
                let frame = msg.frame_bytes();
                out = self.forward(id, frame);
            },
            OrbitMessage::Ready { .. } => {
                if self.rooms.contains_key(&id) {
                    proof {
                        assert(before.rooms.contains_key(id));
                    }
                    let frame = msg.frame_bytes();
                    let mut room = self.take_room(id);
                    room.receiver_done = true;
                    if let Some(to) = room.sender {
                        out.push(Delivery { to, frame });
                        proof {
                            assert(delivery_views(out@) =~= to_one(Some(to), frame@));
                        }
                    }
                    self.put_room(id, room);
                    proof {
                        assert(self@.rooms =~= before.after(msg@, conn).rooms);
                    }
                } else {
                    proof {
                        assert(!before.rooms.contains_key(id));
                    }
                }
            },
            OrbitMessage::Direct { .. } => {
                let frame = msg.frame_bytes();
                let mut room = self.take_room(id);
                if let Some(to) = room.sender {
                    proof {
                        if !before.rooms.contains_key(id) {
                            assert(room@ == RoomView::empty());
                        }
                    }
                    out.push(Delivery { to, frame });
                    proof {
                        assert(delivery_views(out@) =~= to_one(Some(to), frame@));
                    }
                } else {
                    room.pending_direct = Some(frame);
                }
                self.put_room(id, room);
                proof {
                    assert(self@.rooms =~= before.after(msg@, conn).rooms);
                }
            },
            OrbitMessage::Done { .. } => {
                self.rooms.remove(&id);
                proof {
                    assert(self@.rooms =~= before.rooms.remove(id));
                }
            },
        }
        out
    }

    /// Takes connection `conn` out of a session's room.
    pub fn leave_room(&mut self, id: u64, conn: u128)
        requires
            old(self).wf(),
        ensures
            final(self).wf(),
            final(self)@ == old(self)@.after_leave(id, conn),
    {
        let ghost before = self@;
        if self.rooms.contains_key(&id) {
            proof {
                assert(before.rooms.contains_key(id));
            }
            let mut room = self.take_room(id);
            if let Some(sender) = room.sender {
                if sender == conn {
                    room.sender = None;
                }
            }
            if let Some(receiver) = room.receiver {
                if receiver == conn {
                    room.receiver = None;
                }
            }
            if room.sender.is_some() || room.receiver.is_some() || room.buffer.len() > 0 {
                self.put_room(id, room);
            }
            proof {
                assert(self@.rooms =~= before.after_leave(id, conn).rooms);
            }
        } else {
            proof {
                assert(!before.rooms.contains_key(id));
            }
        }
    }
}

/// A relay's side of one connection.
#[derive(Debug)]
pub struct Connection {
    id: u128,
    session_id: Option<u64>,
}

/// What happens on a connection.
#[derive(Debug)]
pub enum ConnectionEvent {
    /// A binary message arrived.
    Binary(Vec<u8>),
    /// A ping arrived, with its payload.
    Ping(Vec<u8>),
    /// The peer asks to close.
    Close,
    /// A message of no concern arrived: a pong, a text, a raw frame.
    Other,
    /// The stream failed or ended.
    Ended,
}

/// What is to be done about an event.
#[derive(Debug)]
pub enum ConnectionAction {
    /// Send these frames, in order, and go on.
    Deliver(Vec<Delivery>),
    /// Answer a ping and go on.
    Pong(Vec<u8>),
    /// Answer the request to close, and stop.
    Close,
    /// Stop.
    Stop,
    /// Give the connection up; its place in the room stays taken.
    Fail(ProtocolError),
}

impl Connection {
    /// The number of the connection.
    pub closed spec fn number(&self) -> u128 {
        self.id
    }

    /// The session of the last message that came over the connection.
    pub closed spec fn session(&self) -> Option<u64> {
        self.session_id
    }

    /// A connection over which nothing came yet.
    pub fn new(id: u128) -> (conn: Self)
        ensures
            conn.number() == id,
            conn.session() is None,
    {
        Connection { id, session_id: None }
    }
}

/// A relay after a connection has stopped.
pub open spec fn after_stop(relay: RelayView, session: Option<u64>, conn: u128) -> RelayView {
    match session {
        Some(id) => relay.after_leave(id, conn),
        None => relay,
    }
}

impl RelayCore {
    /// Handles one event on a connection.
    pub fn on_event(&mut self, conn: &mut Connection, event: ConnectionEvent) -> (action:
        ConnectionAction)
        requires
            old(self).wf(),
        ensures
            final(self).wf(),
            final(conn).number() == old(conn).number(),
            match event {
                ConnectionEvent::Binary(datagram) => match parse_front(datagram@) {
                    Ok(Some(msg)) => {
                        &&& action matches ConnectionAction::Deliver(out) && delivery_views(out@)
                            == old(self)@.deliveries(msg, old(conn).number())
                        &&& final(self)@ == old(self)@.after(msg, old(conn).number())
                        &&& final(conn).session() == Some(msg.session_id())
                    },
                    Ok(None) => {
                        &&& action matches ConnectionAction::Deliver(out) && out@.len() == 0
                        &&& final(self)@ == old(self)@
                        &&& final(conn).session() == old(conn).session()
                    },
                    Err(e) => {
                        &&& action == ConnectionAction::Fail(e)
                        &&& final(self)@ == old(self)@
                        &&& final(conn).session() == old(conn).session()
                    },
                },
                ConnectionEvent::Ping(payload) => {
                    &&& action == ConnectionAction::Pong(payload)
                    &&& final(self)@ == old(self)@
                    &&& final(conn).session() == old(conn).session()
                },
                ConnectionEvent::Other => {
                    &&& action matches ConnectionAction::Deliver(out) && out@.len() == 0
                    &&& final(self)@ == old(self)@
                    &&& final(conn).session() == old(conn).session()
                },
                ConnectionEvent::Close => {
                    &&& action is Close
                    &&& final(conn).session() == old(conn).session()
                    &&& final(self)@ == after_stop(
                        old(self)@,
                        old(conn).session(),
                        old(conn).number(),
                    )
                },
                ConnectionEvent::Ended => {
                    &&& action is Stop
                    &&& final(conn).session() == old(conn).session()
                    &&& final(self)@ == after_stop(
                        old(self)@,
                        old(conn).session(),
                        old(conn).number(),
                    )
                },
            },
    {
        match event {
            ConnectionEvent::Binary(datagram) => {
                match parse_datagram(datagram.as_slice()) {
                    Ok(Some(msg)) => {
                        conn.session_id = Some(msg.session_id());
                        ConnectionAction::Deliver(self.route(msg, conn.id))
                    },
                    Ok(None) => ConnectionAction::Deliver(Vec::new()),
                    Err(e) => ConnectionAction::Fail(e),
                }
            },
            ConnectionEvent::Ping(payload) => ConnectionAction::Pong(payload),
            ConnectionEvent::Other => ConnectionAction::Deliver(Vec::new()),
            ConnectionEvent::Close => {
                self.stop(conn);
                ConnectionAction::Close
            },
            ConnectionEvent::Ended => {
                self.stop(conn);
                ConnectionAction::Stop
            },
        }
    }

    /// Takes a connection that stops out of its session's room.
    fn stop(&mut self, conn: &Connection)
        requires
            old(self).wf(),
        ensures
            final(self).wf(),
            final(self)@ == after_stop(old(self)@, conn.session(), conn.number()),
    {
        if let Some(id) = conn.session_id {
            self.leave_room(id, conn.id);
        }
    }
}

/// A buffer keeps the newest frames: what it holds is the end of what came in,
/// and dropping was forced, for with one frame more it would be over its limit.
pub proof fn law_buffer_keeps_the_newest(frames: Seq<Seq<u8>>, frame: Seq<u8>) -> (dropped: int)
    ensures
        0 <= dropped <= frames.len(),
        buffer_after(frames, frame) == frames.skip(dropped).push(frame),
        total_len(buffer_after(frames, frame)) <= MAX_BUFFERED_BYTES || dropped == frames.len(),
        dropped > 0 ==> total_len(frames.skip(dropped - 1).push(frame)) > MAX_BUFFERED_BYTES,
    decreases frames.len(),
{
    if frames.len() > 0 && total_len(frames) + frame.len() > MAX_BUFFERED_BYTES {
        let rest = frames.skip(1);
        let d = law_buffer_keeps_the_newest(rest, frame);
        assert(rest.skip(d) =~= frames.skip(d + 1));
        if d > 0 {
            assert(rest.skip(d - 1) =~= frames.skip(d));
        } else {
            assert(frames.skip(0) =~= frames);
            lemma_total_push(frames, frame);
        }
        d + 1
    } else {
        lemma_total_push(frames, frame);
        assert(frames.skip(0) =~= frames);
        0
    }
}

/// The relay after several messages from connection `conn`.
pub open spec fn after_all(relay: RelayView, msgs: Seq<MessageView>, conn: u128) -> RelayView
    decreases msgs.len(),
{
    if msgs.len() == 0 {
        relay
    } else {
        after_all(relay, msgs.drop_last(), conn).after(msgs.last(), conn)
    }
}

/// The frames of messages.
pub open spec fn frames_of(msgs: Seq<MessageView>) -> Seq<Seq<u8>> {
    Seq::new(msgs.len(), |i: int| msgs[i].frame())
}

/// Whether a message is meant for the receiver of session `id`.
pub open spec fn is_for_receiver(msg: MessageView, id: u64) -> bool {
    msg.session_id() == id && (msg is Symbol || msg is Meta)
}

/// Dropping the last frames makes the total no larger.
proof fn lemma_total_drop(frames: Seq<Seq<u8>>)
    requires
        frames.len() > 0,
    ensures
        total_len(frames) == total_len(frames.drop_last()) + frames.last().len(),
{
    assert(frames =~= frames.drop_last().push(frames.last()));
    lemma_total_push(frames.drop_last(), frames.last());
}

/// While no receiver is there, its frames gather in order.
proof fn lemma_frames_gather(relay: RelayView, id: u64, msgs: Seq<MessageView>, conn: u128)
    requires
        relay.room(id).receiver is None,
        !relay.room(id).receiver_done,
        relay.room(id).buffer.len() == 0,
        forall|i: int| 0 <= i < msgs.len() ==> is_for_receiver(#[trigger] msgs[i], id),
        total_len(frames_of(msgs)) <= MAX_BUFFERED_BYTES,
    ensures
        after_all(relay, msgs, conn).room(id) == (RoomView {
            buffer: frames_of(msgs),
            ..relay.room(id)
        }),
    decreases msgs.len(),
{
    if msgs.len() == 0 {
        assert(relay.room(id).buffer =~= frames_of(msgs));
    } else {
        let rest = msgs.drop_last();
        assert(frames_of(msgs).drop_last() =~= frames_of(rest));
        lemma_total_drop(frames_of(msgs));
        assert forall|i: int| 0 <= i < rest.len() implies is_for_receiver(
            #[trigger] rest[i],
            id,
        ) by {
            assert(rest[i] == msgs[i]);
        }
        lemma_frames_gather(relay, id, rest, conn);
        let last = msgs.last();
        assert(is_for_receiver(msgs[msgs.len() - 1], id));
        assert(frames_of(msgs) =~= frames_of(rest).push(last.frame()));
    }
}

/// A receiver that registers late gets everything that came for it, in order,
/// and the relay keeps nothing, as long as it all fits into the buffer.
pub proof fn law_late_receiver_gets_everything(
    relay: RelayView,
    id: u64,
    msgs: Seq<MessageView>,
    sender: u128,
    receiver: u128,
)
    requires
        relay.room(id).receiver is None,
        !relay.room(id).receiver_done,
        relay.room(id).buffer.len() == 0,
        forall|i: int| 0 <= i < msgs.len() ==> is_for_receiver(#[trigger] msgs[i], id),
        total_len(frames_of(msgs)) <= MAX_BUFFERED_BYTES,
    ensures
        ({
            let hello = MessageView::Hello { session_id: id, role: ROLE_RECEIVER };
            let waiting = after_all(relay, msgs, sender);
            &&& waiting.deliveries(hello, receiver) == addressed(frames_of(msgs), receiver)
            &&& waiting.after(hello, receiver).room(id).buffer.len() == 0
        }),
{
    lemma_frames_gather(relay, id, msgs, sender);
}

/// A receiver that registers gets every frame in the buffer once, oldest first.
/// The buffer is empty afterwards, nothing else in the room but its receiver
/// has changed, and to register again brings nothing.
pub proof fn law_buffer_is_handed_out_once(relay: RelayView, id: u64, receiver: u128, again: u128)
    ensures
        ({
            let hello = MessageView::Hello { session_id: id, role: ROLE_RECEIVER };
            let drained = relay.after(hello, receiver);
            &&& relay.deliveries(hello, receiver) == addressed(relay.room(id).buffer, receiver)
            &&& drained.room(id) == RoomView {
                receiver: Some(receiver),
                buffer: Seq::empty(),
                ..relay.room(id)
            }
            &&& total_len(drained.room(id).buffer) == 0
            &&& drained.deliveries(hello, again).len() == 0
        }),
{
}

/// While no receiver is there, nothing that is meant for it is sent.
pub proof fn law_nothing_is_sent_before_the_receiver(
    relay: RelayView,
    id: u64,
    msg: MessageView,
    conn: u128,
)
    requires
        relay.room(id).receiver is None,
        is_for_receiver(msg, id),
    ensures
        relay.deliveries(msg, conn).len() == 0,
{
}

/// A registered receiver gets each symbol at once, and READY reaches the
/// registered sender.
pub proof fn law_peers_hear_each_other(
    relay: RelayView,
    id: u64,
    msg: MessageView,
    sender: u128,
    receiver: u128,
    conn: u128,
)
    requires
        relay.room(id).sender == Some(sender),
        relay.room(id).receiver == Some(receiver),
        !relay.room(id).receiver_done,
    ensures
        is_for_receiver(msg, id) ==> relay.deliveries(msg, conn) == seq![(receiver, msg.frame())],
        msg.session_id() == id && (msg is Ready || msg is Direct) ==> relay.deliveries(msg, conn)
            == seq![(sender, msg.frame())],
{
}

/// After READY no symbol is forwarded or kept.
pub proof fn law_ready_stops_symbols(
    relay: RelayView,
    id: u64,
    msg: MessageView,
    receiver: u128,
    sender: u128,
)
    requires
        relay.rooms.contains_key(id),
        is_for_receiver(msg, id),
    ensures
        ({
            let done = relay.after(MessageView::Ready { session_id: id }, receiver);
            &&& done.deliveries(msg, sender).len() == 0
            &&& done.after(msg, sender).rooms == done.rooms
        }),
{
}

/// A receiver that is done stays done, whoever registers again, until the room
/// is closed.
pub proof fn law_receiver_stays_done(relay: RelayView, id: u64, msg: MessageView, conn: u128)
    requires
        relay.rooms.contains_key(id),
        relay.room(id).receiver_done,
        !(msg is Done && msg.session_id() == id),
    ensures
        relay.after(msg, conn).rooms.contains_key(id),
        relay.after(msg, conn).room(id).receiver_done,
{
}

/// A P2P address that came before the sender is handed to the sender when it
/// registers, and only once.
pub proof fn law_direct_address_waits_for_the_sender(
    relay: RelayView,
    id: u64,
    addr: Seq<char>,
    receiver: u128,
    sender: u128,
)
    requires
        relay.room(id).sender is None,
    ensures
        ({
            let direct = MessageView::Direct { session_id: id, addr };
            let hello = MessageView::Hello { session_id: id, role: ROLE_SENDER };
            let waiting = relay.after(direct, receiver);
            &&& relay.deliveries(direct, receiver).len() == 0
            &&& waiting.deliveries(hello, sender) == seq![(sender, direct.frame())]
            &&& waiting.after(hello, sender).deliveries(hello, sender).len() == 0
        }),
{
}

/// Sessions do not meet: a message, or a connection that leaves, touches only
/// the room of its session.
pub proof fn law_rooms_are_isolated(relay: RelayView, msg: MessageView, conn: u128, other: u64)
    requires
        other != msg.session_id(),
    ensures
        relay.after(msg, conn).room(other) == relay.room(other),
        relay.after_leave(msg.session_id(), conn).room(other) == relay.room(other),
{
}

/// The frames that a message causes go only to the connections in the room of
/// its session, or to where the message came from.
pub proof fn law_frames_stay_in_their_room(relay: RelayView, msg: MessageView, conn: u128, i: int)
    requires
        0 <= i < relay.deliveries(msg, conn).len(),
    ensures
        ({
            let room = relay.room(msg.session_id());
            let to = relay.deliveries(msg, conn)[i].0;
            to == conn || room.sender == Some(to) || room.receiver == Some(to)
        }),
{
}

impl RelayCore {
    /// A room never keeps more than `MAX_BUFFERED_BYTES`, but for a single
    /// frame that is larger by itself.
    pub proof fn law_buffers_are_bounded(&self, id: u64)
        requires
            self.wf(),
        ensures
            self@.room(id).bounded(),
    {
        if self@.rooms.contains_key(id) {
            assert(self.rooms@.contains_key(id));
        }
    }
}

} // verus!
