//! The relay: connections, rooms and the fan-out of messages between them.
//!
//! A [`Relay`] is plain data behind `&mut self`. Whoever shares it between
//! tasks wraps it in one lock; every operation here is a short critical
//! section in memory, and none of them waits on a peer or on the network.

use crate::connection::{ConnTable, ConnView, Conns};
use crate::frame::{
    parse_frame, spec_check_room_name, spec_parse, valid_room_name, FrameView, ParsedFrame,
    ProtocolError, RoomName,
};
use crate::lifecycle::{spec_step, step, ConnEvent, ConnState};
use crate::queue::{bump, spec_bump, OutboundQueue, QueueView};
use crate::registry::{
    lemma_join, lemma_leave, lemma_without, rooms_wf, spec_is_member, spec_join, spec_leave,
    spec_members, spec_room_of, spec_snapshot, ConnId, Registry, Rooms,
};
use vstd::prelude::*;
use vstd::slice::*;

verus! {

/// How a relay is set up.
#[derive(Clone, Copy, Debug, PartialEq, Eq, Structural)]
pub struct Config {
    /// How many messages may wait for one connection at once.
    pub queue_capacity: usize,
    /// After this many messages in a row that each pushed an older one out,
    /// the connection is given up as unreadable.
    pub drop_limit: u64,
    /// Whether a sender is left out of the fan-out of its own message.
    pub exclude_sender: bool,
}

/// Why a configuration was refused.
#[derive(Clone, Copy, Debug, PartialEq, Eq, Structural)]
pub enum ConfigError {
    /// A queue must hold at least one message.
    ZeroCapacity,
    /// The drop limit must be at least one.
    ZeroDropLimit,
}

/// The verdict on a configuration: the first rule it breaks, if any.
pub open spec fn spec_check_config(config: Config) -> Option<ConfigError> {
    if config.queue_capacity == 0 {
        Some(ConfigError::ZeroCapacity)
    } else if config.drop_limit == 0 {
        Some(ConfigError::ZeroDropLimit)
    } else {
        None
    }
}

/// A relay as plain values.
pub struct RelayView {
    /// How the relay is set up.
    pub config: Config,
    /// The connections that are not closed yet.
    pub conns: Conns,
    /// Who is in which room.
    pub rooms: Rooms,
    /// The identity that the next connection gets. All smaller ones were given out.
    pub next_id: u64,
    /// How often the persistence sink failed.
    pub persist_failures: u64,
}

impl RelayView {
    /// The connection `id` is known and active.
    pub open spec fn is_active(self, id: ConnId) -> bool {
        self.conns.dom().contains(id) && self.conns[id].state == ConnState::Active
    }

    /// What holds of each connection the relay knows.
    pub open spec fn conn_ok(self, id: ConnId) -> bool {
        let c = self.conns[id];
        &&& id < self.next_id
        &&& c.state != ConnState::Closed
        &&& c.queue.wf()
        &&& c.queue.capacity == self.config.queue_capacity
        &&& c.state == ConnState::Connecting ==> c.queue == QueueView::empty(
            self.config.queue_capacity,
        )
        &&& c.state == ConnState::Active ==> c.queue.streak < self.config.drop_limit
        &&& c.state == ConnState::Closing ==> c.queue.items.len() == 0
    }

    /// What holds of every state the relay can be in. Only active
    /// connections are members of rooms; a connection that is not active yet
    /// has a fresh queue, and one that is closing has nothing waiting.
    pub open spec fn wf(self) -> bool {
        &&& spec_check_config(self.config) is None
        &&& self.conns.dom().finite()
        &&& rooms_wf(self.rooms)
        &&& forall|id: ConnId| #[trigger] self.conns.dom().contains(id) ==> self.conn_ok(id)
        &&& forall|r: Seq<u8>, c: ConnId| #[trigger]
            spec_is_member(self.rooms, r, c) ==> self.is_active(c)
    }

    /// A relay that has seen nothing yet.
    pub open spec fn initial(config: Config) -> RelayView {
        RelayView {
            config,
            conns: Map::empty(),
            rooms: Map::empty(),
            next_id: 0,
            persist_failures: 0,
        }
    }

    /// The state of the connection `id`: that of a known connection, `Closed`
    /// for one that was known once, nothing for one that never was.
    pub open spec fn state_of(self, id: ConnId) -> Option<ConnState> {
        if self.conns.dom().contains(id) {
            Some(self.conns[id].state)
        } else if id < self.next_id {
            Some(ConnState::Closed)
        } else {
            None
        }
    }

    /// The relay after it took in a new connection, as long as identities last.
    pub open spec fn accept(self) -> RelayView {
        if self.next_id < u64::MAX {
            RelayView {
                conns: self.conns.insert(
                    self.next_id,
                    ConnView {
                        state: ConnState::Connecting,
                        queue: QueueView::empty(self.config.queue_capacity),
                    },
                ),
                next_id: (self.next_id + 1) as u64,
                ..self
            }
        } else {
            self
        }
    }

    /// The relay after the connection `id` began to close: it is out of its
    /// room at once and what waited for it is thrown away.
    pub open spec fn close(self, id: ConnId) -> RelayView {
        RelayView {
            conns: self.conns.insert(
                id,
                ConnView { state: ConnState::Closing, queue: self.conns[id].queue.discard() },
            ),
            rooms: spec_leave(self.rooms, id),
            ..self
        }
    }

    /// The relay after `event` happened to the connection `id`.
    ///
    /// The connection moves as [`spec_step`] says. One that begins to close is
    /// closed as in [`RelayView::close`]; one that is closed is forgotten. An
    /// event for an unknown connection, or one that does not apply, changes
    /// nothing.
    pub open spec fn on_event(self, id: ConnId, event: ConnEvent) -> RelayView {
        if !self.conns.dom().contains(id) {
            self
        } else {
            let now = self.conns[id].state;
            let next = spec_step(now, event);
            if next == now {
                self
            } else if next == ConnState::Closed {
                RelayView { conns: self.conns.remove(id), ..self }
            } else if next == ConnState::Closing {
                self.close(id)
            } else {
                RelayView {
                    conns: self.conns.insert(
                        id,
                        ConnView { state: next, queue: self.conns[id].queue },
                    ),
                    ..self
                }
            }
        }
    }

    /// The relay after the connection `id` asked to join `room`. Only an
    /// active connection can be in a room.
    pub open spec fn join(self, id: ConnId, room: Seq<u8>) -> RelayView {
        if self.is_active(id) {
            RelayView { rooms: spec_join(self.rooms, id, room), ..self }
        } else {
            self
        }
    }

    /// The relay after the connection `id` left its room.
    pub open spec fn leave(self, id: ConnId) -> RelayView {
        RelayView { rooms: spec_leave(self.rooms, id), ..self }
    }

    /// Who gets a message that `sender` sends to `room`: the members of the
    /// room in the order they joined, without the sender if the relay is set
    /// up so.
    pub open spec fn recipients(self, sender: ConnId, room: Seq<u8>) -> Seq<ConnId> {
        spec_snapshot(
            self.rooms,
            room,
            if self.config.exclude_sender {
                Some(sender)
            } else {
                None
            },
        )
    }

    /// Putting `payload` into the queue of `id` reaches the drop limit.
    pub open spec fn gives_up(self, id: ConnId, payload: Seq<u8>) -> bool {
        self.is_active(id) && self.conns[id].queue.push(payload).streak >= self.config.drop_limit
    }

    /// The relay after `payload` was handed to the connection `id`.
    ///
    /// An active connection gets it at the end of its queue; if the queue was
    /// full, its oldest message goes. With the drop limit reached, the
    /// connection is closed instead. Any other connection is passed over.
    pub open spec fn deliver_one(self, id: ConnId, payload: Seq<u8>) -> RelayView {
        if !self.is_active(id) {
            self
        } else {
            let pushed = RelayView {
                conns: self.conns.insert(
                    id,
                    ConnView {
                        state: ConnState::Active,
                        queue: self.conns[id].queue.push(payload),
                    },
                ),
                ..self
            };
            if self.gives_up(id, payload) {
                pushed.close(id)
            } else {
                pushed
            }
        }
    }

    /// The relay after `payload` was handed to each of `ids` in turn.
    pub open spec fn deliver(self, ids: Seq<ConnId>, payload: Seq<u8>) -> RelayView
        decreases ids.len(),
    {
        if ids.len() == 0 {
            self
        } else {
            self.deliver(ids.drop_last(), payload).deliver_one(ids.last(), payload)
        }
    }

    /// Those of `ids`, in order, that were active at their turn and so got
    /// `payload` into their queue.
    pub open spec fn reached(self, ids: Seq<ConnId>, payload: Seq<u8>) -> Seq<ConnId>
        decreases ids.len(),
    {
        if ids.len() == 0 {
            Seq::empty()
        } else {
            let before = self.reached(ids.drop_last(), payload);
            if self.deliver(ids.drop_last(), payload).is_active(ids.last()) {
                before.push(ids.last())
            } else {
                before
            }
        }
    }

    /// Those of `ids`, in order, that the delivery of `payload` closed
    /// because they reached the drop limit.
    pub open spec fn given_up(self, ids: Seq<ConnId>, payload: Seq<u8>) -> Seq<ConnId>
        decreases ids.len(),
    {
        if ids.len() == 0 {
            Seq::empty()
        } else {
            let before = self.given_up(ids.drop_last(), payload);
            if self.deliver(ids.drop_last(), payload).gives_up(ids.last(), payload) {
                before.push(ids.last())
            } else {
                before
            }
        }
    }

    /// The relay after `sender` sent `payload` to `room`: the payload was
    /// handed to the recipients that the room had at that moment.
    pub open spec fn route(self, sender: ConnId, room: Seq<u8>, payload: Seq<u8>) -> RelayView {
        self.deliver(self.recipients(sender, room), payload)
    }

    /// The relay after the connection `id` took the oldest message out of its
    /// queue.
    pub open spec fn pop(self, id: ConnId) -> RelayView {
        if self.conns.dom().contains(id) {
            RelayView {
                conns: self.conns.insert(
                    id,
                    ConnView { state: self.conns[id].state, queue: self.conns[id].queue.pop() },
                ),
                ..self
            }
        } else {
            self
        }
    }

    /// The relay after `frame` came in from the connection `sender`.
    ///
    /// A frame from a connection that is not active, and a frame that is
    /// malformed, change nothing. A valid frame is routed to the room it
    /// names; who is in which room stays as it is.
    pub open spec fn ingest(self, sender: ConnId, frame: Seq<u8>) -> RelayView {
        if !self.is_active(sender) {
            self
        } else {
            match spec_parse(frame) {
                FrameView::Malformed(_) => self,
                FrameView::Valid { room, payload } => self.route(sender, room, payload),
            }
        }
    }
}

/// A relay that differs from one in order in at most one connection is in
/// order itself, if that connection is, if its rooms are, and if it has no
/// member that the other did not have.
///
/// Of the relay `v` only what does not concern the connection `id` has to
/// hold; of the relay `w` what concerns `id` has to.
pub proof fn lemma_wf_but_one(v: RelayView, w: RelayView, id: ConnId)
    requires
        spec_check_config(v.config) is None,
        w.config == v.config,
        v.next_id <= w.next_id,
        w.conns.dom().finite(),
        rooms_wf(w.rooms),
        forall|c: ConnId| c != id && #[trigger] v.conns.dom().contains(c) ==> v.conn_ok(c),
        forall|r: Seq<u8>, c: ConnId|
            c != id && #[trigger] spec_is_member(v.rooms, r, c) ==> v.is_active(c),
        forall|c: ConnId|
            c != id && #[trigger] w.conns.dom().contains(c) ==> v.conns.dom().contains(c)
                && w.conns[c] == v.conns[c],
        w.conns.dom().contains(id) ==> w.conn_ok(id),
        forall|r: Seq<u8>, c: ConnId| #[trigger]
            spec_is_member(w.rooms, r, c) ==> if c == id {
                w.is_active(id)
            } else {
                spec_is_member(v.rooms, r, c) && w.conns.dom().contains(c)
            },
    ensures
        w.wf(),
{
    assert forall|c: ConnId| #[trigger] w.conns.dom().contains(c) implies w.conn_ok(c) by {
        if c != id {
            assert(v.conn_ok(c));
        }
    }
    assert forall|r: Seq<u8>, c: ConnId| #[trigger]
        spec_is_member(w.rooms, r, c) implies w.is_active(c) by {
        if c != id {
            assert(spec_is_member(v.rooms, r, c));
            assert(v.is_active(c));
        }
    }
}

/// Taking in a connection keeps the relay in order.
pub proof fn lemma_accept(v: RelayView)
    requires
        v.wf(),
    ensures
        v.accept().wf(),
{
    if v.next_id < u64::MAX {
        lemma_wf_but_one(v, v.accept(), v.next_id);
    }
}

/// Closing a connection whose queue is in order keeps the relay in order,
/// whatever waited in that queue, and touches no other connection.
pub proof fn lemma_close(v: RelayView, id: ConnId)
    requires
        spec_check_config(v.config) is None,
        v.conns.dom().finite(),
        rooms_wf(v.rooms),
        v.conns.dom().contains(id),
        id < v.next_id,
        v.conns[id].queue.wf(),
        v.conns[id].queue.capacity == v.config.queue_capacity,
        forall|c: ConnId| c != id && #[trigger] v.conns.dom().contains(c) ==> v.conn_ok(c),
        forall|r: Seq<u8>, c: ConnId|
            c != id && #[trigger] spec_is_member(v.rooms, r, c) ==> v.is_active(c),
    ensures
        v.close(id).wf(),
{
    lemma_leave(v.rooms, id);
    lemma_wf_but_one(v, v.close(id), id);
}

/// An event keeps the relay in order.
pub proof fn lemma_on_event(v: RelayView, id: ConnId, event: ConnEvent)
    requires
        v.wf(),
    ensures
        v.on_event(id, event).wf(),
{
    if v.conns.dom().contains(id) {
        assert(v.conn_ok(id));
        if spec_step(v.conns[id].state, event) == ConnState::Closing {
            lemma_close(v, id);
        } else {
            lemma_wf_but_one(v, v.on_event(id, event), id);
        }
    }
}

/// Joining a room keeps the relay in order.
pub proof fn lemma_relay_join(v: RelayView, id: ConnId, room: Seq<u8>)
    requires
        v.wf(),
        valid_room_name(room),
    ensures
        v.join(id, room).wf(),
{
    if v.is_active(id) {
        lemma_join(v.rooms, id, room);
        lemma_wf_but_one(v, v.join(id, room), id);
    }
}

/// Leaving a room keeps the relay in order.
pub proof fn lemma_relay_leave(v: RelayView, id: ConnId)
    requires
        v.wf(),
    ensures
        v.leave(id).wf(),
{
    lemma_leave(v.rooms, id);
    lemma_wf_but_one(v, v.leave(id), id);
}

/// Taking a message out of a queue keeps the relay in order.
pub proof fn lemma_pop(v: RelayView, id: ConnId)
    requires
        v.wf(),
    ensures
        v.pop(id).wf(),
{
    lemma_wf_but_one(v, v.pop(id), id);
}

/// Handing a message to one connection keeps the relay in order and touches
/// nothing but that connection: every other connection keeps its state, its
/// queue and its room.
pub proof fn lemma_deliver_one(v: RelayView, id: ConnId, payload: Seq<u8>)
    requires
        v.wf(),
    ensures
        v.deliver_one(id, payload).wf(),
        v.deliver_one(id, payload).config == v.config,
        v.deliver_one(id, payload).next_id == v.next_id,
        v.deliver_one(id, payload).persist_failures == v.persist_failures,
        v.deliver_one(id, payload).conns.dom() == v.conns.dom(),
        forall|c: ConnId| c != id ==> #[trigger] v.deliver_one(id, payload).conns[c] == v.conns[c],
        forall|r: Seq<u8>, c: ConnId|
            c != id ==> (#[trigger] spec_is_member(v.deliver_one(id, payload).rooms, r, c)
                <==> spec_is_member(v.rooms, r, c)),
        !v.gives_up(id, payload) ==> v.deliver_one(id, payload).rooms == v.rooms,
        v.gives_up(id, payload) ==> v.deliver_one(id, payload).rooms == spec_leave(v.rooms, id),
{
    if v.is_active(id) {
        assert(v.conn_ok(id));
        let pushed = RelayView {
            conns: v.conns.insert(
                id,
                ConnView { state: ConnState::Active, queue: v.conns[id].queue.push(payload) },
            ),
            ..v
        };
        assert(pushed.conns.dom() =~= v.conns.dom());
        lemma_leave(v.rooms, id);
        lemma_wf_but_one(v, v.deliver_one(id, payload), id);
        assert(v.deliver_one(id, payload).conns.dom() =~= v.conns.dom());
    }
}

/// Handing a message to several connections keeps the relay in order and
/// touches none that is not among them.
pub proof fn lemma_deliver(v: RelayView, ids: Seq<ConnId>, payload: Seq<u8>)
    requires
        v.wf(),
    ensures
        v.deliver(ids, payload).wf(),
        v.deliver(ids, payload).config == v.config,
        v.deliver(ids, payload).next_id == v.next_id,
        v.deliver(ids, payload).persist_failures == v.persist_failures,
        v.deliver(ids, payload).conns.dom() == v.conns.dom(),
        forall|c: ConnId|
            !ids.contains(c) ==> #[trigger] v.deliver(ids, payload).conns[c] == v.conns[c],
        forall|r: Seq<u8>, c: ConnId|
            !ids.contains(c) ==> (#[trigger] spec_is_member(v.deliver(ids, payload).rooms, r, c)
                <==> spec_is_member(v.rooms, r, c)),
    decreases ids.len(),
{
    if ids.len() > 0 {
        let head = ids.drop_last();
        let mid = v.deliver(head, payload);
        lemma_deliver(v, head, payload);
        lemma_deliver_one(mid, ids.last(), payload);
        let w = v.deliver(ids, payload);
        assert forall|c: ConnId| !ids.contains(c) implies #[trigger] w.conns[c] == v.conns[c] by {
            assert(c != ids.last()) by {
                assert(ids[ids.len() - 1] == ids.last());
            }
            assert(!head.contains(c)) by {
                if head.contains(c) {
                    let a = choose|a: int| 0 <= a < head.len() && head[a] == c;
                    assert(ids[a] == c);
                }
            }
        }
        assert forall|r: Seq<u8>, c: ConnId| !ids.contains(c) implies (#[trigger] spec_is_member(
            w.rooms,
            r,
            c,
        ) <==> spec_is_member(v.rooms, r, c)) by {
            assert(c != ids.last()) by {
                assert(ids[ids.len() - 1] == ids.last());
            }
            assert(!head.contains(c)) by {
                if head.contains(c) {
                    let a = choose|a: int| 0 <= a < head.len() && head[a] == c;
                    assert(ids[a] == c);
                }
            }
            assert(spec_is_member(mid.rooms, r, c) <==> spec_is_member(v.rooms, r, c));
        }
    }
}

/// Where every one of `ids` is active and none comes twice, a delivery
/// reaches each of them.
pub proof fn lemma_reached_all(v: RelayView, ids: Seq<ConnId>, payload: Seq<u8>)
    requires
        v.wf(),
        ids.no_duplicates(),
        forall|a: int| 0 <= a < ids.len() ==> v.is_active(#[trigger] ids[a]),
    ensures
        v.reached(ids, payload) == ids,
    decreases ids.len(),
{
    if ids.len() > 0 {
        let head = ids.drop_last();
        lemma_reached_all(v, head, payload);
        lemma_deliver(v, head, payload);
        let last = ids.last();
        assert(!head.contains(last)) by {
            if head.contains(last) {
                let a = choose|a: int| 0 <= a < head.len() && head[a] == last;
                assert(ids[a] == ids[ids.len() - 1]);
            }
        }
        assert(v.is_active(ids[ids.len() - 1]));
        assert(v.deliver(head, payload).conns[last] == v.conns[last]);
        assert(head.push(last) =~= ids);
    }
}

/// What a delivery did.
#[derive(Debug)]
pub struct Fanout {
    /// Who got the message into their queue, in the order of delivery.
    pub reached: Vec<ConnId>,
    /// Who was closed for having reached the drop limit, in the order of
    /// delivery.
    pub disconnected: Vec<ConnId>,
}

/// One message as it goes to the persistence sink.
#[derive(Debug)]
pub struct Message {
    room: RoomName,
    sender: ConnId,
    payload: Vec<u8>,
    timestamp: u64,
}

/// A message as plain values.
pub struct MessageView {
    /// The room it was sent to.
    pub room: Seq<u8>,
    /// Who sent it.
    pub sender: ConnId,
    /// What it says.
    pub payload: Seq<u8>,
    /// When it arrived.
    pub timestamp: u64,
}

impl View for Message {
    type V = MessageView;

    closed spec fn view(&self) -> MessageView {
        MessageView {
            room: self.room@,
            sender: self.sender,
            payload: self.payload@,
            timestamp: self.timestamp,
        }
    }
}

impl Message {
    /// Makes a message. Once made it does not change.
    pub fn new(room: RoomName, sender: ConnId, payload: Vec<u8>, timestamp: u64) -> (message:
        Message)
        ensures
            message@ == (MessageView { room: room@, sender, payload: payload@, timestamp }),
    {
        Message { room, sender, payload, timestamp }
    }

    /// The room the message was sent to.
    pub fn room(&self) -> (room: &RoomName)
        ensures
            room@ == self@.room,
    {
        &self.room
    }

    /// Who sent the message.
    pub fn sender(&self) -> (sender: ConnId)
        ensures
            sender == self@.sender,
    {
        self.sender
    }

    /// What the message says.
    pub fn payload(&self) -> (payload: &[u8])
        ensures
            payload@ == self@.payload,
    {
        self.payload.as_slice()
    }

    /// When the message arrived.
    pub fn timestamp(&self) -> (timestamp: u64)
        ensures
            timestamp == self@.timestamp,
    {
        self.timestamp
    }
}

/// What became of a frame that came in.
#[derive(Debug)]
pub enum Ingress {
    /// The frame was valid and went to its room; `message` is what the
    /// persistence sink should record.
    Routed { message: Message, fanout: Fanout },
    /// The frame was malformed and was thrown away; the connection stays as it is.
    Rejected(ProtocolError),
    /// The sender is not an active connection; the frame was thrown away.
    Ignored,
}

/// What the writer of a connection does next.
#[derive(Debug)]
pub enum Outbound {
    /// Send this message; it was taken out of the queue.
    Send(Vec<u8>),
    /// Nothing waits; wait until something does.
    Wait,
    /// Nothing waits and nothing will: the connection is not active.
    Stop,
}

/// The relay.
#[derive(Debug)]
pub struct Relay {
    config: Config,
    conns: ConnTable,
    registry: Registry,
    next_id: u64,
    persist_failures: u64,
}

impl View for Relay {
    type V = RelayView;

    closed spec fn view(&self) -> RelayView {
        RelayView {
            config: self.config,
            conns: self.conns@,
            rooms: self.registry@,
            next_id: self.next_id,
            persist_failures: self.persist_failures,
        }
    }
}

impl Relay {
    /// What the relay keeps true of its own bookkeeping.
    pub closed spec fn inv(&self) -> bool {
        self.conns.wf() && self.registry.wf()
    }

    /// The relay is in order: its bookkeeping is sound and its state is one
    /// that [`RelayView::wf`] accepts.
    pub open spec fn wf(&self) -> bool {
        self.inv() && self@.wf()
    }

    /// Makes a relay that has seen nothing yet, or says which rule the
    /// configuration breaks.
    pub fn new(config: Config) -> (r: Result<Relay, ConfigError>)
        ensures
            match r {
                Ok(relay) => spec_check_config(config) is None && relay.wf() && relay@
                    == RelayView::initial(config),
                Err(e) => spec_check_config(config) == Some(e),
            },
    {
        if config.queue_capacity == 0 {
            Err(ConfigError::ZeroCapacity)
        } else if config.drop_limit == 0 {
            Err(ConfigError::ZeroDropLimit)
        } else {
            Ok(
                Relay {
                    config,
                    conns: ConnTable::new(),
                    registry: Registry::new(),
                    next_id: 0,
                    persist_failures: 0,
                },
            )
        }
    }

    /// How the relay is set up.
    pub fn config(&self) -> (config: Config)
        ensures
            config == self@.config,
    {
        self.config
    }

    /// Takes in a new connection and returns its identity, which no
    /// connection had before and none will have again. The connection starts
    /// in state `Connecting`. Once all identities are used up, none is given.
    pub fn accept(&mut self) -> (id: Option<ConnId>)
        requires
            old(self).wf(),
        ensures
            final(self).wf(),
            final(self)@ == old(self)@.accept(),
            match id {
                Some(id) => old(self)@.next_id < u64::MAX && id == old(self)@.next_id,
                None => old(self)@.next_id == u64::MAX,
            },
    {
        if self.next_id == u64::MAX {
            return None;
        }
        match OutboundQueue::new(self.config.queue_capacity) {
            None => None,
            Some(queue) => {
                let id = self.next_id;
                proof {
                    lemma_accept(self@);
                    if self@.conns.dom().contains(id) {
                        assert(self@.conn_ok(id));
                    }
                }
                let _ = self.conns.insert(id, queue);
                self.next_id = id + 1;
                Some(id)
            },
        }
    }

    /// Begins to close the connection `id`.
    fn close(&mut self, id: ConnId)
        requires
            old(self).inv(),
            old(self)@.conns.dom().contains(id),
        ensures
            final(self).inv(),
            final(self)@ == old(self)@.close(id),
    {
        self.registry.leave(id);
        self.conns.discard(id);
        let _ = self.conns.set_state(id, ConnState::Closing);
        assert(self@.conns =~= old(self)@.close(id).conns);
    }

    /// The state of the connection `id`: that of a known connection, `Closed`
    /// for one that was known once, nothing for one that never was.
    pub fn state_of(&self, id: ConnId) -> (state: Option<ConnState>)
        requires
            self.wf(),
        ensures
            state == self@.state_of(id),
    {
        match self.conns.state_of(id) {
            Some(state) => Some(state),
            None => if id < self.next_id {
                Some(ConnState::Closed)
            } else {
                None
            },
        }
    }

    /// Whether the connection `id` is known and active.
    pub fn is_active(&self, id: ConnId) -> (b: bool)
        requires
            self.wf(),
        ensures
            b == self@.is_active(id),
    {
        match self.conns.state_of(id) {
            Some(ConnState::Active) => true,
            _ => false,
        }
    }

    /// Tells the relay that `event` happened to the connection `id`, and
    /// returns the state the connection is in afterwards.
    ///
    /// A connection that begins to close leaves its room at once, and what
    /// waited for it is thrown away. A connection that is closed is forgotten;
    /// its identity stays used up.
    pub fn on_event(&mut self, id: ConnId, event: ConnEvent) -> (state: Option<ConnState>)
        requires
            old(self).wf(),
        ensures
            final(self).wf(),
            final(self)@ == old(self)@.on_event(id, event),
            state == final(self)@.state_of(id),
    {
        proof {
            lemma_on_event(self@, id, event);
        }
        match self.conns.state_of(id) {
            None => {},
            Some(now) => {
                let next = step(now, event);
                if next == now {
                } else if next == ConnState::Closed {
                    self.conns.remove(id);
                } else if next == ConnState::Closing {
                    self.close(id);
                } else {
                    let _ = self.conns.set_state(id, next);
                }
            },
        }
        self.state_of(id)
    }

    /// Puts the connection `id` into `room`, and returns whether it did. Only
    /// an active connection can be in a room: for any other nothing changes.
    ///
    /// A connection that is in another room leaves that room first; one that
    /// is already in `room` changes nothing.
    pub fn join(&mut self, id: ConnId, room: &RoomName) -> (joined: bool)
        requires
            old(self).wf(),
        ensures
            final(self).wf(),
            joined == old(self)@.is_active(id),
            final(self)@ == old(self)@.join(id, room@),
    {
        proof {
            use_type_invariant(room);
            lemma_relay_join(self@, id, room@);
        }
        if self.is_active(id) {
            self.registry.join(id, room);
            true
        } else {
            false
        }
    }

    /// Takes the connection `id` out of the room it is in, if it is in one.
    pub fn leave(&mut self, id: ConnId)
        requires
            old(self).wf(),
        ensures
            final(self).wf(),
            final(self)@ == old(self)@.leave(id),
    {
        proof {
            lemma_relay_leave(self@, id);
        }
        self.registry.leave(id);
    }

    /// The room that the connection `id` is in, if it is in one.
    pub fn room_of(&self, id: ConnId) -> (room: Option<RoomName>)
        requires
            self.wf(),
        ensures
            match room {
                Some(name) => spec_room_of(self@.rooms, id) == Some(name@),
                None => spec_room_of(self@.rooms, id) is None,
            },
    {
        self.registry.room_of(id)
    }

    /// A copy of the members of `room`, in the order they joined, without
    /// `exclude` if one is named.
    pub fn members_of(&self, room: &RoomName, exclude: Option<ConnId>) -> (snapshot: Vec<ConnId>)
        requires
            self.wf(),
        ensures
            snapshot@ == spec_snapshot(self@.rooms, room@, exclude),
            snapshot@.no_duplicates(),
    {
        self.registry.members_of(room, exclude)
    }

    /// Hands `payload` to each of `recipients` in turn.
    ///
    /// The list is taken as it is given: whoever is on it and still active
    /// gets the message, whether or not it is in any room by now, and nobody
    /// else does. A recipient whose queue is full loses its oldest message;
    /// one that reaches the drop limit is closed.
    pub fn deliver(&mut self, recipients: &[ConnId], payload: &[u8]) -> (fanout: Fanout)
        requires
            old(self).wf(),
        ensures
            final(self).wf(),
            final(self)@ == old(self)@.deliver(recipients@, payload@),
            fanout.reached@ == old(self)@.reached(recipients@, payload@),
            fanout.disconnected@ == old(self)@.given_up(recipients@, payload@),
    {
        let ghost start = self@;
        let mut reached: Vec<ConnId> = Vec::new();
        let mut disconnected: Vec<ConnId> = Vec::new();
        let mut k: usize = 0;
        while k < recipients.len()
            invariant
                k <= recipients@.len(),
                self.wf(),
                self@ == start.deliver(recipients@.take(k as int), payload@),
                reached@ == start.reached(recipients@.take(k as int), payload@),
                disconnected@ == start.given_up(recipients@.take(k as int), payload@),
            decreases recipients@.len() - k,
        {
            let id = recipients[k];
            let ghost mid = self@;
            proof {
                let next = recipients@.take(k as int + 1);
                assert(next.drop_last() =~= recipients@.take(k as int));
                assert(next.last() == id);
                lemma_deliver_one(mid, id, payload@);
            }
            if self.is_active(id) {
                let _ = self.conns.push(id, slice_to_vec(payload));
                reached.push(id);
                let over = match self.conns.streak(id) {
                    Some(streak) => streak >= self.config.drop_limit,
                    None => false,
                };
                if over {
                    self.close(id);
                    disconnected.push(id);
                }
            }
            k += 1;
        }
        assert(recipients@.take(k as int) =~= recipients@);
        Fanout { reached, disconnected }
    }

    /// Sends `payload` from `sender` to the room called `room`.
    ///
    /// A name that is no room name is refused, and nothing changes. Otherwise
    /// the recipients are the members that the room has at this moment,
    /// without the sender if the relay is set up so, and each of them gets the
    /// message as in [`Relay::deliver`]. A room without members is no error:
    /// the message then reaches nobody.
    pub fn route(&mut self, sender: ConnId, room: &[u8], payload: &[u8]) -> (r: Result<
        Fanout,
        ProtocolError,
    >)
        requires
            old(self).wf(),
        ensures
            final(self).wf(),
            r is Ok <==> valid_room_name(room@),
            match r {
                Ok(fanout) => {
                    &&& final(self)@ == old(self)@.route(sender, room@, payload@)
                    &&& fanout.reached@ == old(self)@.recipients(sender, room@)
                    &&& fanout.disconnected@ == old(self)@.given_up(
                        old(self)@.recipients(sender, room@),
                        payload@,
                    )
                },
                Err(e) => spec_check_room_name(room@) == Some(e) && final(self)@ == old(self)@,
            },
    {
        match RoomName::new(room) {
            Err(e) => Err(e),
            Ok(name) => Ok(self.fan_out(sender, &name, payload)),
        }
    }

    /// Sends `payload` from `sender` to `room`.
    fn fan_out(&mut self, sender: ConnId, room: &RoomName, payload: &[u8]) -> (fanout: Fanout)
        requires
            old(self).wf(),
        ensures
            final(self).wf(),
            final(self)@ == old(self)@.route(sender, room@, payload@),
            fanout.reached@ == old(self)@.recipients(sender, room@),
            fanout.disconnected@ == old(self)@.given_up(
                old(self)@.recipients(sender, room@),
                payload@,
            ),
    {
        let exclude = if self.config.exclude_sender {
            Some(sender)
        } else {
            None
        };
        let snapshot = self.registry.members_of(room, exclude);
        proof {
            let members = spec_members(self@.rooms, room@);
            assert forall|a: int| 0 <= a < snapshot@.len() implies self@.is_active(
                #[trigger] snapshot@[a],
            ) by {
                let c = snapshot@[a];
                assert(snapshot@.contains(c));
                if exclude is Some {
                    lemma_without(members, exclude->0);
                }
                assert(members.contains(c));
                assert(spec_is_member(self@.rooms, room@, c));
            }
            lemma_reached_all(self@, snapshot@, payload@);
        }
        self.deliver(snapshot.as_slice(), payload)
    }

    /// Takes in one frame that came from the connection `sender` at the time
    /// `timestamp`.
    ///
    /// A frame from a connection that is not active is ignored. A malformed
    /// frame is refused with the reason, and the connection stays active. A
    /// valid frame goes to the members of the room it names as in
    /// [`Relay::route`] and comes back as the message to record. Sending to a
    /// room makes nobody a member of it: that is what [`Relay::join`] is for.
    pub fn ingest(&mut self, sender: ConnId, frame: &[u8], timestamp: u64) -> (outcome: Ingress)
        requires
            old(self).wf(),
        ensures
            final(self).wf(),
            final(self)@ == old(self)@.ingest(sender, frame@),
            match outcome {
                Ingress::Ignored => !old(self)@.is_active(sender),
                Ingress::Rejected(e) => old(self)@.is_active(sender) && spec_parse(frame@)
                    == FrameView::Malformed(e),
                Ingress::Routed { message, fanout } => {
                    &&& old(self)@.is_active(sender)
                    &&& spec_parse(frame@) == (FrameView::Valid {
                        room: message@.room,
                        payload: message@.payload,
                    })
                    &&& message@.sender == sender
                    &&& message@.timestamp == timestamp
                    &&& fanout.reached@ == old(self)@.recipients(sender, message@.room)
                    &&& fanout.disconnected@ == old(self)@.given_up(
                        old(self)@.recipients(sender, message@.room),
                        message@.payload,
                    )
                },
            },
    {
        if !self.is_active(sender) {
            return Ingress::Ignored;
        }
        match parse_frame(frame) {
            ParsedFrame::Malformed(e) => Ingress::Rejected(e),
            ParsedFrame::Valid { room, payload } => {
                let fanout = self.fan_out(sender, &room, payload.as_slice());
                Ingress::Routed { message: Message::new(room, sender, payload, timestamp), fanout }
            },
        }
    }

    /// Takes the oldest waiting message of the connection `id` out of its
    /// queue, for the writer to send. Messages come out in the order they
    /// went in.
    pub fn pop_outbound(&mut self, id: ConnId) -> (message: Option<Vec<u8>>)
        requires
            old(self).wf(),
        ensures
            final(self).wf(),
            final(self)@ == old(self)@.pop(id),
            match message {
                Some(m) => old(self)@.conns.dom().contains(id) && old(self)@.conns[id].queue.items.len()
                    > 0 && m@ == old(self)@.conns[id].queue.items[0],
                None => !old(self)@.conns.dom().contains(id) || old(self)@.conns[id].queue.items.len()
                    == 0,
            },
    {
        proof {
            lemma_pop(self@, id);
        }
        self.conns.pop(id)
    }

    /// What the writer of the connection `id` does next: send the oldest
    /// waiting message, which is taken out of the queue; wait, if nothing
    /// waits and the connection is active; or stop, if nothing waits and the
    /// connection is not active.
    pub fn next_outbound(&mut self, id: ConnId) -> (action: Outbound)
        requires
            old(self).wf(),
        ensures
            final(self).wf(),
            final(self)@ == old(self)@.pop(id),
            match action {
                Outbound::Send(m) => old(self)@.conns.dom().contains(id) && old(
                    self,
                )@.conns[id].queue.items.len() > 0 && m@ == old(self)@.conns[id].queue.items[0],
                Outbound::Wait => old(self)@.is_active(id) && old(self)@.conns[id].queue.items.len()
                    == 0,
                Outbound::Stop => !old(self)@.is_active(id) && (!old(self)@.conns.dom().contains(id)
                    || old(self)@.conns[id].queue.items.len() == 0),
            },
    {
        let active = self.is_active(id);
        match self.pop_outbound(id) {
            Some(message) => Outbound::Send(message),
            None => if active {
                Outbound::Wait
            } else {
                Outbound::Stop
            },
        }
    }

    /// How many messages wait for the connection `id`.
    pub fn queued(&self, id: ConnId) -> (n: usize)
        requires
            self.wf(),
        ensures
            n == if self@.conns.dom().contains(id) {
                self@.conns[id].queue.items.len()
            } else {
                0
            },
    {
        self.conns.queued(id)
    }

    /// How many messages were dropped for the connection `id` so far; nothing
    /// for a connection that the relay does not know.
    pub fn dropped(&self, id: ConnId) -> (n: Option<u64>)
        requires
            self.wf(),
        ensures
            n == if self@.conns.dom().contains(id) {
                Some(self@.conns[id].queue.dropped)
            } else {
                None
            },
    {
        self.conns.dropped(id)
    }

    /// How many connections the relay knows that are not closed.
    pub fn connection_count(&self) -> (n: usize)
        requires
            self.wf(),
        ensures
            n == self@.conns.dom().len(),
    {
        self.conns.len()
    }

    /// How many rooms there are.
    pub fn room_count(&self) -> (n: usize)
        requires
            self.wf(),
        ensures
            n == self@.rooms.dom().len(),
    {
        self.registry.room_count()
    }

    /// Counts one failure of the persistence sink. Such a failure is counted
    /// and nothing else: no delivery is undone and no connection is touched.
    pub fn note_persistence_failure(&mut self)
        requires
            old(self).wf(),
        ensures
            final(self).wf(),
            final(self)@ == (RelayView {
                persist_failures: spec_bump(old(self)@.persist_failures),
                ..old(self)@
            }),
    {
        self.persist_failures = bump(self.persist_failures);
        proof {
            lemma_wf_but_one(old(self)@, self@, 0);
        }
    }

    /// How often the persistence sink failed.
    pub fn persistence_failures(&self) -> (n: u64)
        ensures
            n == self@.persist_failures,
    {
        self.persist_failures
    }
}

} // verus!
