//! What holds of the registry and the relay across several calls.
//!
//! Each statement here is proved from the same plain-value functions that the
//! contracts of [`crate::registry::Registry`] and [`crate::relay::Relay`] use.

use crate::connection::ConnView;
use crate::frame::{spec_parse, valid_room_name, FrameView};
use crate::lifecycle::{ConnEvent, ConnState};
use crate::registry::{
    lemma_join, lemma_leave, lemma_room_of, lemma_without, rooms_wf, spec_is_member, spec_join,
    spec_leave, spec_members, spec_room_of, ConnId, Rooms,
};
use crate::relay::{lemma_deliver, lemma_deliver_one, lemma_on_event, lemma_reached_all, RelayView};
use vstd::prelude::*;

verus! {

/// Leaving twice is leaving once.
pub proof fn lemma_leave_twice(rooms: Rooms, conn: ConnId)
    requires
        rooms_wf(rooms),
    ensures
        spec_leave(spec_leave(rooms, conn), conn) == spec_leave(rooms, conn),
{
    lemma_leave(rooms, conn);
}

/// Joining the room one is in changes nothing, and so joining a room twice
/// is joining it once.
pub proof fn lemma_join_twice(rooms: Rooms, conn: ConnId, room: Seq<u8>)
    requires
        rooms_wf(rooms),
        valid_room_name(room),
    ensures
        spec_is_member(rooms, room, conn) ==> spec_join(rooms, conn, room) == rooms,
        spec_join(spec_join(rooms, conn, room), conn, room) == spec_join(rooms, conn, room),
{
    lemma_join(rooms, conn, room);
}

/// A connection is in at most one room: the one it joined last. After it
/// joined `first` and then `second`, it is a member of `second`, and of
/// `first` only if the two are the same room.
pub proof fn lemma_join_moves(rooms: Rooms, conn: ConnId, first: Seq<u8>, second: Seq<u8>)
    requires
        rooms_wf(rooms),
        valid_room_name(first),
        valid_room_name(second),
    ensures
        spec_is_member(spec_join(spec_join(rooms, conn, first), conn, second), second, conn),
        first != second ==> !spec_is_member(
            spec_join(spec_join(rooms, conn, first), conn, second),
            first,
            conn,
        ),
        spec_room_of(spec_join(spec_join(rooms, conn, first), conn, second), conn) == Some(second),
        forall|r: Seq<u8>|
            r != second ==> !#[trigger] spec_is_member(
                spec_join(spec_join(rooms, conn, first), conn, second),
                r,
                conn,
            ),
{
    lemma_join(rooms, conn, first);
    lemma_join(spec_join(rooms, conn, first), conn, second);
}

/// A room exists exactly as long as it has a member, and no connection is in
/// two rooms.
pub proof fn lemma_rooms_shape(rooms: Rooms, room: Seq<u8>, other: Seq<u8>, conn: ConnId)
    requires
        rooms_wf(rooms),
    ensures
        rooms.dom().contains(room) <==> spec_members(rooms, room).len() > 0,
        spec_is_member(rooms, room, conn) && spec_is_member(rooms, other, conn) ==> room == other,
        spec_members(rooms, room).no_duplicates(),
{
    if spec_is_member(rooms, room, conn) && spec_is_member(rooms, other, conn) {
        assert(rooms[room].contains(conn) && rooms[other].contains(conn));
    }
}

/// Membership after each of `ids` joined `room`, one after the other.
pub open spec fn spec_join_all(rooms: Rooms, ids: Seq<ConnId>, room: Seq<u8>) -> Rooms
    decreases ids.len(),
{
    if ids.len() == 0 {
        rooms
    } else {
        spec_join(spec_join_all(rooms, ids.drop_last(), room), ids.last(), room)
    }
}

/// However many connections join a room, and in whatever order, none is lost
/// and none is counted twice: afterwards the members of the room are those
/// it had before and those that joined, each once. Into a room that did not
/// exist, distinct connections come as exactly themselves, in the order
/// their joins took effect.
pub proof fn lemma_join_all(rooms: Rooms, ids: Seq<ConnId>, room: Seq<u8>)
    requires
        rooms_wf(rooms),
        valid_room_name(room),
    ensures
        rooms_wf(spec_join_all(rooms, ids, room)),
        spec_members(spec_join_all(rooms, ids, room), room).no_duplicates(),
        forall|c: ConnId| #[trigger]
            spec_is_member(spec_join_all(rooms, ids, room), room, c) <==> (ids.contains(c)
                || spec_is_member(rooms, room, c)),
        ids.no_duplicates() && !rooms.dom().contains(room) ==> spec_members(
            spec_join_all(rooms, ids, room),
            room,
        ) == ids,
    decreases ids.len(),
{
    let after = spec_join_all(rooms, ids, room);
    if ids.len() == 0 {
        assert forall|c: ConnId| !ids.contains(c) by {}
        if !rooms.dom().contains(room) {
            assert(spec_members(rooms, room) =~= ids);
        }
    } else {
        let head = ids.drop_last();
        let last = ids.last();
        let mid = spec_join_all(rooms, head, room);
        lemma_join_all(rooms, head, room);
        lemma_join(mid, last, room);
        assert(ids[ids.len() - 1] == last);
        assert forall|c: ConnId| #[trigger] spec_is_member(after, room, c) <==> (ids.contains(c)
            || spec_is_member(rooms, room, c)) by {
            if head.contains(c) {
                let a = choose|a: int| 0 <= a < head.len() && head[a] == c;
                assert(ids[a] == c);
            }
            if ids.contains(c) && c != last {
                let a = choose|a: int| 0 <= a < ids.len() && ids[a] == c;
                assert(head[a] == c);
            }
            if c != last {
                assert(spec_is_member(after, room, c) <==> spec_is_member(mid, room, c));
            }
        }
        if ids.no_duplicates() && !rooms.dom().contains(room) {
            assert(head.no_duplicates());
            assert(spec_members(mid, room) == head);
            assert(!head.contains(last)) by {
                if head.contains(last) {
                    let a = choose|a: int| 0 <= a < head.len() && head[a] == last;
                    assert(ids[a] == ids[ids.len() - 1]);
                }
            }
            assert(!spec_is_member(mid, room, last)) by {
                if spec_is_member(mid, room, last) {
                    assert(spec_members(mid, room).contains(last));
                }
            }
            lemma_leave(mid, last);
            let left = spec_leave(mid, last);
            assert(spec_members(left, room) == spec_members(mid, room));
            assert(head.push(last) =~= ids);
        }
    }
}

/// A delivery goes by the list it was given and by nothing else: whatever
/// the rooms look like at the time, the same connections get the message and
/// end up in the same state. So a member that left after the list was made
/// still gets the message, and one that joined after it does not.
pub proof fn lemma_deliver_by_list(
    v: RelayView,
    rooms: Rooms,
    ids: Seq<ConnId>,
    payload: Seq<u8>,
)
    ensures
        (RelayView { rooms, ..v }).deliver(ids, payload).conns == v.deliver(ids, payload).conns,
        (RelayView { rooms, ..v }).reached(ids, payload) == v.reached(ids, payload),
        (RelayView { rooms, ..v }).given_up(ids, payload) == v.given_up(ids, payload),
        (RelayView { rooms, ..v }).deliver(ids, payload).config == v.config,
    decreases ids.len(),
{
    if ids.len() > 0 {
        lemma_deliver_by_list(v, rooms, ids.drop_last(), payload);
        lemma_deliver_config(v, ids.drop_last(), payload);
        lemma_deliver_config(v, ids, payload);
    }
}

/// A delivery leaves the configuration alone.
pub proof fn lemma_deliver_config(v: RelayView, ids: Seq<ConnId>, payload: Seq<u8>)
    ensures
        v.deliver(ids, payload).config == v.config,
    decreases ids.len(),
{
    if ids.len() > 0 {
        lemma_deliver_config(v, ids.drop_last(), payload);
    }
}

/// What a delivery does to one connection on its list, where no connection
/// is listed twice: the connection gets the payload once, as if it alone had
/// been delivered to. A connection that is not on the list is left as it was.
pub proof fn lemma_deliver_each(v: RelayView, ids: Seq<ConnId>, payload: Seq<u8>, id: ConnId)
    requires
        v.wf(),
        ids.no_duplicates(),
    ensures
        ids.contains(id) ==> v.deliver(ids, payload).conns[id] == v.deliver_one(
            id,
            payload,
        ).conns[id],
        !ids.contains(id) ==> v.deliver(ids, payload).conns[id] == v.conns[id],
        v.is_active(id) && !v.gives_up(id, payload) ==> v.deliver_one(id, payload).conns[id] == (
        ConnView { state: ConnState::Active, queue: v.conns[id].queue.push(payload) }),
        v.gives_up(id, payload) ==> v.deliver_one(id, payload).conns[id] == (ConnView {
            state: ConnState::Closing,
            queue: v.conns[id].queue.push(payload).discard(),
        }),
        !v.is_active(id) ==> v.deliver_one(id, payload).conns[id] == v.conns[id],
    decreases ids.len(),
{
    lemma_deliver(v, ids, payload);
    if ids.len() > 0 {
        let head = ids.drop_last();
        let last = ids.last();
        let mid = v.deliver(head, payload);
        lemma_deliver(v, head, payload);
        lemma_deliver_one(mid, last, payload);
        assert(ids[ids.len() - 1] == last);
        assert(!head.contains(last)) by {
            if head.contains(last) {
                let a = choose|a: int| 0 <= a < head.len() && head[a] == last;
                assert(ids[a] == ids[ids.len() - 1]);
            }
        }
        if id == last {
            assert(mid.conns[last] == v.conns[last]);
        } else {
            lemma_deliver_each(v, head, payload, id);
            if ids.contains(id) {
                let a = choose|a: int| 0 <= a < ids.len() && ids[a] == id;
                assert(head[a] == id);
            }
            if head.contains(id) {
                let a = choose|a: int| 0 <= a < head.len() && head[a] == id;
                assert(ids[a] == id);
            }
        }
    }
}

/// A delivery never adds a member to a room, and a room that none of the
/// listed connections is in keeps its members as they were.
pub proof fn lemma_deliver_rooms(v: RelayView, ids: Seq<ConnId>, payload: Seq<u8>)
    requires
        v.wf(),
    ensures
        forall|r: Seq<u8>, c: ConnId| #[trigger]
            spec_is_member(v.deliver(ids, payload).rooms, r, c) ==> spec_is_member(v.rooms, r, c),
        forall|r: Seq<u8>|
            (forall|a: int| 0 <= a < ids.len() ==> !spec_is_member(v.rooms, r, #[trigger] ids[a]))
                ==> #[trigger] spec_members(v.deliver(ids, payload).rooms, r) == spec_members(
                v.rooms,
                r,
            ),
    decreases ids.len(),
{
    if ids.len() > 0 {
        let head = ids.drop_last();
        let last = ids.last();
        let mid = v.deliver(head, payload);
        let w = v.deliver(ids, payload);
        lemma_deliver_rooms(v, head, payload);
        lemma_deliver(v, head, payload);
        lemma_deliver_one(mid, last, payload);
        lemma_leave(mid.rooms, last);
        assert forall|r: Seq<u8>, c: ConnId| #[trigger]
            spec_is_member(w.rooms, r, c) implies spec_is_member(v.rooms, r, c) by {
            assert(spec_is_member(mid.rooms, r, c));
        }
        assert forall|r: Seq<u8>|
            (forall|a: int|
                0 <= a < ids.len() ==> !spec_is_member(
                    v.rooms,
                    r,
                    #[trigger] ids[a],
                )) implies #[trigger] spec_members(w.rooms, r) == spec_members(v.rooms, r) by {
            assert forall|a: int| 0 <= a < head.len() implies !spec_is_member(
                v.rooms,
                r,
                #[trigger] head[a],
            ) by {
                assert(head[a] == ids[a]);
            }
            assert(!spec_is_member(v.rooms, r, ids[ids.len() - 1]));
            assert(!spec_is_member(mid.rooms, r, last));
        }
    }
}

/// Trouble with one recipient stays with that recipient. When a message is
/// routed to a room, every connection that is not among the recipients keeps
/// its state and its queue, whatever happens to the recipients, and every
/// other room keeps its members.
pub proof fn lemma_route_isolated(v: RelayView, sender: ConnId, room: Seq<u8>, payload: Seq<u8>)
    requires
        v.wf(),
    ensures
        v.route(sender, room, payload).wf(),
        v.route(sender, room, payload).conns.dom() == v.conns.dom(),
        forall|c: ConnId|
            !v.recipients(sender, room).contains(c) ==> #[trigger] v.route(
                sender,
                room,
                payload,
            ).conns[c] == v.conns[c],
        forall|r: Seq<u8>|
            r != room ==> #[trigger] spec_members(v.route(sender, room, payload).rooms, r)
                == spec_members(v.rooms, r),
        forall|c: ConnId|
            v.recipients(sender, room).contains(c) ==> #[trigger] spec_is_member(v.rooms, room, c),
{
    let ids = v.recipients(sender, room);
    lemma_deliver(v, ids, payload);
    lemma_deliver_rooms(v, ids, payload);
    let members = spec_members(v.rooms, room);
    if v.config.exclude_sender {
        lemma_without(members, sender);
    }
    assert forall|c: ConnId| ids.contains(c) implies #[trigger] spec_is_member(
        v.rooms,
        room,
        c,
    ) by {
        assert(members.contains(c));
    }
    assert forall|r: Seq<u8>| r != room implies #[trigger] spec_members(
        v.route(sender, room, payload).rooms,
        r,
    ) == spec_members(v.rooms, r) by {
        assert forall|a: int| 0 <= a < ids.len() implies !spec_is_member(
            v.rooms,
            r,
            #[trigger] ids[a],
        ) by {
            assert(ids.contains(ids[a]));
            assert(spec_is_member(v.rooms, room, ids[a]));
            lemma_room_of(v.rooms, ids[a], room);
            lemma_room_of(v.rooms, ids[a], r);
        }
    }
}

/// A frame that comes in keeps the relay in order. A malformed frame, and a
/// frame from a connection that is not active, change nothing at all: the
/// frame is thrown away and every connection, the sender too, stays as it is.
pub proof fn lemma_ingest(v: RelayView, sender: ConnId, frame: Seq<u8>)
    requires
        v.wf(),
    ensures
        v.ingest(sender, frame).wf(),
        spec_parse(frame) is Malformed ==> v.ingest(sender, frame) == v,
        !v.is_active(sender) ==> v.ingest(sender, frame) == v,
        v.ingest(sender, frame).conns.dom() == v.conns.dom(),
        v.ingest(sender, frame).next_id == v.next_id,
{
    if v.is_active(sender) {
        match spec_parse(frame) {
            FrameView::Malformed(_) => {},
            FrameView::Valid { room, payload } => {
                lemma_deliver(v, v.recipients(sender, room), payload);
            },
        }
    }
}

/// A closed connection stays closed. Whatever happens to the relay next, a
/// connection that is closed is closed afterwards, and as only active
/// connections are members of rooms, its identity never shows in a room again.
pub proof fn lemma_closed_for_good(
    v: RelayView,
    id: ConnId,
    other: ConnId,
    event: ConnEvent,
    room: Seq<u8>,
    ids: Seq<ConnId>,
    payload: Seq<u8>,
    frame: Seq<u8>,
)
    requires
        v.wf(),
        v.state_of(id) == Some(ConnState::Closed),
    ensures
        v.accept().state_of(id) == Some(ConnState::Closed),
        v.ingest(other, frame).state_of(id) == Some(ConnState::Closed),
        v.on_event(other, event).state_of(id) == Some(ConnState::Closed),
        v.join(other, room).state_of(id) == Some(ConnState::Closed),
        v.leave(other).state_of(id) == Some(ConnState::Closed),
        v.deliver(ids, payload).state_of(id) == Some(ConnState::Closed),
        v.pop(other).state_of(id) == Some(ConnState::Closed),
        v.join(id, room) == v,
        forall|r: Seq<u8>| !spec_is_member(v.rooms, r, id),
{
    assert(!v.conns.dom().contains(id)) by {
        if v.conns.dom().contains(id) {
            assert(v.conn_ok(id));
        }
    }
    lemma_deliver(v, ids, payload);
    lemma_ingest(v, other, frame);
    assert forall|r: Seq<u8>| !spec_is_member(v.rooms, r, id) by {
        if spec_is_member(v.rooms, r, id) {
            assert(v.is_active(id));
        }
    }
}

/// An identity is given out once: before a connection is taken in nothing is
/// known of its identity, afterwards it is `Connecting`, and no other
/// connection and no room is touched.
pub proof fn lemma_accept_fresh(v: RelayView)
    requires
        v.wf(),
        v.next_id < u64::MAX,
    ensures
        v.state_of(v.next_id) is None,
        v.accept().state_of(v.next_id) == Some(ConnState::Connecting),
        forall|c: ConnId| c != v.next_id ==> #[trigger] v.accept().state_of(c) == v.state_of(c),
        v.accept().rooms == v.rooms,
{
    if v.conns.dom().contains(v.next_id) {
        assert(v.conn_ok(v.next_id));
    }
}

/// Who gets a message: every member of the room, once, and nobody else. Where
/// the relay is set up to leave the sender out, the sender is no recipient
/// of its own message. A room that does not exist has no recipients.
pub proof fn lemma_recipients(v: RelayView, sender: ConnId, room: Seq<u8>, c: ConnId)
    requires
        v.wf(),
    ensures
        v.recipients(sender, room).no_duplicates(),
        v.config.exclude_sender ==> (v.recipients(sender, room).contains(c) <==> (c != sender
            && spec_is_member(v.rooms, room, c))),
        !v.config.exclude_sender ==> (v.recipients(sender, room).contains(c) <==> spec_is_member(
            v.rooms,
            room,
            c,
        )),
        !v.rooms.dom().contains(room) ==> v.recipients(sender, room) == Seq::<ConnId>::empty(),
{
    let members = spec_members(v.rooms, room);
    lemma_without(members, sender);
    if !v.rooms.dom().contains(room) {
        assert(!members.contains(sender));
    }
}

/// A message for a room that does not exist is no error and changes nothing:
/// it has no recipients, so nobody is reached, no room is made, and the
/// sender stays as it is and can send its next frame.
pub proof fn lemma_unknown_room(
    v: RelayView,
    sender: ConnId,
    frame: Seq<u8>,
    room: Seq<u8>,
    payload: Seq<u8>,
)
    requires
        v.wf(),
        !v.rooms.dom().contains(room),
    ensures
        v.recipients(sender, room) == Seq::<ConnId>::empty(),
        v.reached(v.recipients(sender, room), payload) == Seq::<ConnId>::empty(),
        v.given_up(v.recipients(sender, room), payload) == Seq::<ConnId>::empty(),
        v.route(sender, room, payload) == v,
        spec_parse(frame) == (FrameView::Valid { room, payload }) ==> v.ingest(sender, frame) == v,
{
    lemma_recipients(v, sender, room, sender);
}

/// A valid frame from an active sender reaches exactly the members that its
/// room has at that moment, without the sender where the relay is set up so.
/// Each of them is reached once and gets the payload into its queue once;
/// nobody else is touched.
pub proof fn lemma_ingest_reaches_members(
    v: RelayView,
    sender: ConnId,
    frame: Seq<u8>,
    room: Seq<u8>,
    payload: Seq<u8>,
    c: ConnId,
)
    requires
        v.wf(),
        v.is_active(sender),
        spec_parse(frame) == (FrameView::Valid { room, payload }),
    ensures
        v.ingest(sender, frame) == v.deliver(v.recipients(sender, room), payload),
        v.reached(v.recipients(sender, room), payload) == v.recipients(sender, room),
        v.recipients(sender, room).no_duplicates(),
        v.recipients(sender, room).contains(c) <==> (spec_is_member(v.rooms, room, c) && !(
        v.config.exclude_sender && c == sender)),
        v.recipients(sender, room).contains(c) ==> v.is_active(c) && v.ingest(
            sender,
            frame,
        ).conns[c] == v.deliver_one(c, payload).conns[c],
        v.recipients(sender, room).contains(c) && !v.gives_up(c, payload) ==> v.ingest(
            sender,
            frame,
        ).conns[c] == (ConnView {
            state: ConnState::Active,
            queue: v.conns[c].queue.push(payload),
        }),
        !v.recipients(sender, room).contains(c) ==> v.ingest(sender, frame).conns[c] == v.conns[c],
{
    let ids = v.recipients(sender, room);
    lemma_recipients(v, sender, room, c);
    lemma_route_isolated(v, sender, room, payload);
    assert forall|a: int| 0 <= a < ids.len() implies v.is_active(#[trigger] ids[a]) by {
        assert(ids.contains(ids[a]));
        assert(spec_is_member(v.rooms, room, ids[a]));
    }
    lemma_reached_all(v, ids, payload);
    lemma_deliver_each(v, ids, payload, c);
    if ids.contains(c) {
        assert(spec_is_member(v.rooms, room, c));
    }
}

/// The failure of one connection is not the failure of another. Whatever
/// happens to the connection `peer`, another connection `sender` stays
/// active and keeps its queue; and where the relay leaves a sender out of
/// its own messages, the sender is still active after its next frame, whoever
/// that frame closes.
pub proof fn lemma_peer_failure_spares_sender(
    v: RelayView,
    sender: ConnId,
    peer: ConnId,
    event: ConnEvent,
    frame: Seq<u8>,
)
    requires
        v.wf(),
        v.is_active(sender),
        sender != peer,
    ensures
        v.on_event(peer, event).wf(),
        v.on_event(peer, event).is_active(sender),
        v.on_event(peer, event).conns[sender] == v.conns[sender],
        v.config.exclude_sender ==> v.on_event(peer, event).ingest(sender, frame).is_active(sender)
            && v.on_event(peer, event).ingest(sender, frame).conns[sender] == v.conns[sender],
{
    let w = v.on_event(peer, event);
    lemma_on_event(v, peer, event);
    if v.config.exclude_sender {
        match spec_parse(frame) {
            FrameView::Malformed(_) => {},
            FrameView::Valid { room, payload } => {
                lemma_recipients(w, sender, room, sender);
                lemma_route_isolated(w, sender, room, payload);
            },
        }
    }
}

} // verus!
