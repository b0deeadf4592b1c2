//! The room registry: which connection is in which room.
//!
//! The registry is the only source of truth for membership. A connection is in
//! at most one room; a room exists exactly as long as it has a member. Every
//! change goes through `&mut self`, so no reader ever sees one half done, and a
//! membership query hands out a copy, never a view into the registry.

use crate::frame::{valid_room_name, RoomName};
use vstd::prelude::*;

verus! {

/// The identity of a connection.
pub type ConnId = u64;

/// Membership as plain values: each existing room's name with its members in
/// the order they joined.
pub type Rooms = Map<Seq<u8>, Seq<ConnId>>;

/// What holds of every membership the registry can be in.
pub open spec fn rooms_wf(rooms: Rooms) -> bool {
    &&& rooms.dom().finite()
    &&& forall|r: Seq<u8>| #[trigger]
        rooms.dom().contains(r) ==> valid_room_name(r) && rooms[r].len() > 0
            && rooms[r].no_duplicates()
    &&& forall|r1: Seq<u8>, r2: Seq<u8>, c: ConnId|
        rooms.dom().contains(r1) && rooms.dom().contains(r2) && #[trigger] rooms[r1].contains(c)
            && #[trigger] rooms[r2].contains(c) ==> r1 == r2
}

/// The members of `room` in the order they joined; none if there is no such room.
pub open spec fn spec_members(rooms: Rooms, room: Seq<u8>) -> Seq<ConnId> {
    if rooms.dom().contains(room) {
        rooms[room]
    } else {
        Seq::empty()
    }
}

/// `conn` is a member of `room`.
pub open spec fn spec_is_member(rooms: Rooms, room: Seq<u8>, conn: ConnId) -> bool {
    rooms.dom().contains(room) && rooms[room].contains(conn)
}

/// The room that `conn` is in, if it is in one.
pub open spec fn spec_room_of(rooms: Rooms, conn: ConnId) -> Option<Seq<u8>> {
    if exists|r: Seq<u8>| spec_is_member(rooms, r, conn) {
        Some(choose|r: Seq<u8>| spec_is_member(rooms, r, conn))
    } else {
        None
    }
}

/// `members` with `conn` taken out.
pub open spec fn spec_without(members: Seq<ConnId>, conn: ConnId) -> Seq<ConnId> {
    if members.contains(conn) {
        members.remove(members.index_of(conn))
    } else {
        members
    }
}

/// Membership after `conn` left its room. A room that loses its last member
/// goes with it.
pub open spec fn spec_leave(rooms: Rooms, conn: ConnId) -> Rooms {
    match spec_room_of(rooms, conn) {
        None => rooms,
        Some(r) => {
            let rest = spec_without(rooms[r], conn);
            if rest.len() == 0 {
                rooms.remove(r)
            } else {
                rooms.insert(r, rest)
            }
        },
    }
}

/// Membership after `conn` joined `room`. A connection that is already there
/// changes nothing; any other first leaves the room it was in and then comes
/// last in `room`, which is made if need be.
pub open spec fn spec_join(rooms: Rooms, conn: ConnId, room: Seq<u8>) -> Rooms {
    if spec_is_member(rooms, room, conn) {
        rooms
    } else {
        let left = spec_leave(rooms, conn);
        left.insert(room, spec_members(left, room).push(conn))
    }
}

/// The copy of a room's membership that a broadcast works from: all members,
/// or all but one.
pub open spec fn spec_snapshot(rooms: Rooms, room: Seq<u8>, exclude: Option<ConnId>) -> Seq<
    ConnId,
> {
    match exclude {
        None => spec_members(rooms, room),
        Some(c) => spec_without(spec_members(rooms, room), c),
    }
}

/// In a sequence without duplicates a value stands where it was found.
pub proof fn lemma_index_of_unique(members: Seq<ConnId>, j: int)
    requires
        members.no_duplicates(),
        0 <= j < members.len(),
    ensures
        members.index_of(members[j]) == j,
        members.contains(members[j]),
{
    let k = members.index_of(members[j]);
    assert(0 <= k < members.len() && members[k] == members[j]);
}

/// Taking a member out leaves the others, each once and in the same order.
pub proof fn lemma_without(members: Seq<ConnId>, conn: ConnId)
    requires
        members.no_duplicates(),
    ensures
        spec_without(members, conn).no_duplicates(),
        !spec_without(members, conn).contains(conn),
        forall|c: ConnId|
            c != conn ==> (#[trigger] spec_without(members, conn).contains(c)
                <==> members.contains(c)),
        spec_without(members, conn).len() == if members.contains(conn) {
            members.len() - 1
        } else {
            members.len() as int
        },
{
    let rest = spec_without(members, conn);
    if members.contains(conn) {
        let j = members.index_of(conn);
        assert(0 <= j < members.len() && members[j] == conn);
        assert forall|a: int, b: int| 0 <= a < rest.len() && 0 <= b < rest.len() && a != b implies rest[a]
            != rest[b] by {
            let a0 = if a < j { a } else { a + 1 };
            let b0 = if b < j { b } else { b + 1 };
            assert(rest[a] == members[a0]);
            assert(rest[b] == members[b0]);
        }
        if rest.contains(conn) {
            let a = choose|a: int| 0 <= a < rest.len() && rest[a] == conn;
            let a0 = if a < j { a } else { a + 1 };
            assert(rest[a] == members[a0]);
        }
        assert forall|c: ConnId| c != conn implies (#[trigger] rest.contains(c)
            <==> members.contains(c)) by {
            if rest.contains(c) {
                let a = choose|a: int| 0 <= a < rest.len() && rest[a] == c;
                let a0 = if a < j { a } else { a + 1 };
                assert(rest[a] == members[a0]);
            }
            if members.contains(c) {
                let a0 = choose|a0: int| 0 <= a0 < members.len() && members[a0] == c;
                let a = if a0 < j { a0 } else { a0 - 1 };
                assert(rest[a] == members[a0]);
            }
        }
    }
}

/// A connection is in the room that `spec_room_of` names, and in no other.
pub proof fn lemma_room_of(rooms: Rooms, conn: ConnId, room: Seq<u8>)
    requires
        rooms_wf(rooms),
    ensures
        spec_room_of(rooms, conn) == Some(room) <==> spec_is_member(rooms, room, conn),
        spec_room_of(rooms, conn) is None <==> forall|r: Seq<u8>| !spec_is_member(rooms, r, conn),
{
    if spec_is_member(rooms, room, conn) {
        let r = choose|r: Seq<u8>| spec_is_member(rooms, r, conn);
        assert(spec_is_member(rooms, r, conn));
        assert(rooms[r].contains(conn) && rooms[room].contains(conn));
    }
}

/// Leaving keeps the registry in order and takes the connection out of every
/// room, touching no other connection.
pub proof fn lemma_leave(rooms: Rooms, conn: ConnId)
    requires
        rooms_wf(rooms),
    ensures
        rooms_wf(spec_leave(rooms, conn)),
        spec_room_of(spec_leave(rooms, conn), conn) is None,
        forall|r: Seq<u8>| !spec_is_member(spec_leave(rooms, conn), r, conn),
        forall|r: Seq<u8>, c: ConnId|
            c != conn ==> (#[trigger] spec_is_member(spec_leave(rooms, conn), r, c)
                <==> spec_is_member(rooms, r, c)),
        forall|r: Seq<u8>|
            !spec_is_member(rooms, r, conn) ==> #[trigger] spec_members(spec_leave(rooms, conn), r)
                == spec_members(rooms, r),
{
    let after = spec_leave(rooms, conn);
    match spec_room_of(rooms, conn) {
        None => {
            lemma_room_of(rooms, conn, arbitrary());
        },
        Some(room) => {
            lemma_room_of(rooms, conn, room);
            lemma_without(rooms[room], conn);
            let rest = spec_without(rooms[room], conn);
            assert forall|r: Seq<u8>| !spec_is_member(after, r, conn) by {
                if r != room && spec_is_member(after, r, conn) {
                    assert(rooms[r].contains(conn) && rooms[room].contains(conn));
                }
            }
            assert forall|r: Seq<u8>, c: ConnId| c != conn implies (#[trigger] spec_is_member(
                after,
                r,
                c,
            ) <==> spec_is_member(rooms, r, c)) by {
                if r == room {
                    assert(rest.contains(c) <==> rooms[room].contains(c));
                    if rest.len() == 0 && rooms[room].contains(c) {
                        assert(rest.contains(c));
                        let a = choose|a: int| 0 <= a < rest.len() && rest[a] == c;
                    }
                }
            }
            assert forall|r1: Seq<u8>, r2: Seq<u8>, c: ConnId|
                after.dom().contains(r1) && after.dom().contains(r2) && #[trigger] after[r1].contains(
                    c,
                ) && #[trigger] after[r2].contains(c) implies r1 == r2 by {
                assert(spec_is_member(after, r1, c));
                assert(spec_is_member(after, r2, c));
                assert(c != conn);
                assert(spec_is_member(rooms, r1, c));
                assert(spec_is_member(rooms, r2, c));
                assert(rooms[r1].contains(c) && rooms[r2].contains(c));
            }
            lemma_room_of(after, conn, arbitrary());
        },
    }
}

/// Joining keeps the registry in order, puts the connection into the room it
/// asked for and into no other, and touches no other connection.
pub proof fn lemma_join(rooms: Rooms, conn: ConnId, room: Seq<u8>)
    requires
        rooms_wf(rooms),
        valid_room_name(room),
    ensures
        rooms_wf(spec_join(rooms, conn, room)),
        spec_room_of(spec_join(rooms, conn, room), conn) == Some(room),
        forall|r: Seq<u8>| #[trigger]
            spec_is_member(spec_join(rooms, conn, room), r, conn) <==> r == room,
        forall|r: Seq<u8>, c: ConnId|
            c != conn ==> (#[trigger] spec_is_member(spec_join(rooms, conn, room), r, c)
                <==> spec_is_member(rooms, r, c)),
{
    let after = spec_join(rooms, conn, room);
    if spec_is_member(rooms, room, conn) {
        lemma_room_of(rooms, conn, room);
        assert forall|r: Seq<u8>| #[trigger] spec_is_member(after, r, conn) <==> r == room by {
            if spec_is_member(rooms, r, conn) {
                assert(rooms[r].contains(conn) && rooms[room].contains(conn));
            }
        }
    } else {
        lemma_leave(rooms, conn);
        let left = spec_leave(rooms, conn);
        let old_members = spec_members(left, room);
        let new_members = old_members.push(conn);
        assert(!old_members.contains(conn)) by {
            if old_members.contains(conn) {
                assert(spec_is_member(left, room, conn));
            }
        }
        assert(new_members.no_duplicates()) by {
            assert forall|a: int, b: int|
                0 <= a < new_members.len() && 0 <= b < new_members.len() && a != b implies new_members[a]
                != new_members[b] by {
                if a < old_members.len() {
                    assert(old_members.contains(old_members[a]));
                }
                if b < old_members.len() {
                    assert(old_members.contains(old_members[b]));
                }
            }
        }
        assert(new_members[old_members.len() as int] == conn);
        assert(new_members.contains(conn));
        assert forall|c: ConnId| c != conn implies (#[trigger] new_members.contains(c)
            <==> old_members.contains(c)) by {
            if new_members.contains(c) {
                let a = choose|a: int| 0 <= a < new_members.len() && new_members[a] == c;
                assert(old_members[a] == c);
            }
            if old_members.contains(c) {
                let a = choose|a: int| 0 <= a < old_members.len() && old_members[a] == c;
                assert(new_members[a] == c);
            }
        }
        assert forall|r: Seq<u8>| #[trigger] spec_is_member(after, r, conn) <==> r == room by {
            if r != room && spec_is_member(after, r, conn) {
                assert(spec_is_member(left, r, conn));
            }
        }
        assert forall|r: Seq<u8>, c: ConnId| c != conn implies (#[trigger] spec_is_member(
            after,
            r,
            c,
        ) <==> spec_is_member(rooms, r, c)) by {
            assert(spec_is_member(left, r, c) <==> spec_is_member(rooms, r, c));
            if r == room {
                assert(new_members.contains(c) <==> old_members.contains(c));
            }
        }
        assert forall|r1: Seq<u8>, r2: Seq<u8>, c: ConnId|
            after.dom().contains(r1) && after.dom().contains(r2) && #[trigger] after[r1].contains(
                c,
            ) && #[trigger] after[r2].contains(c) implies r1 == r2 by {
            assert(spec_is_member(after, r1, c));
            assert(spec_is_member(after, r2, c));
            if c != conn {
                assert(spec_is_member(rooms, r1, c));
                assert(spec_is_member(rooms, r2, c));
                assert(rooms[r1].contains(c) && rooms[r2].contains(c));
            }
        }
        lemma_room_of(after, conn, room);
    }
}

/// One room: its name and its members in the order they joined.
#[derive(Debug)]
struct Room {
    name: RoomName,
    members: Vec<ConnId>,
}

/// The room registry.
///
/// The rooms are kept in a vector and found by comparing names. What a hash
/// map would give for free is kept as the registry's invariant instead: no
/// two rooms share a name, no room is empty and no connection is in two rooms.
#[derive(Debug)]
pub struct Registry {
    rooms: Vec<Room>,
}

impl View for Registry {
    type V = Rooms;

    closed spec fn view(&self) -> Rooms {
        Map::new(
            |r: Seq<u8>| self.names().contains(r),
            |r: Seq<u8>| self.rooms@[self.names().index_of(r)].members@,
        )
    }
}

/// Finds `conn` in `members`.
fn position(members: &Vec<ConnId>, conn: ConnId) -> (found: Option<usize>)
    ensures
        match found {
            Some(j) => j < members@.len() && members@[j as int] == conn,
            None => !members@.contains(conn),
        },
{
    let mut j: usize = 0;
    while j < members.len()
        invariant
            j <= members@.len(),
            forall|k: int| 0 <= k < j ==> members@[k] != conn,
        decreases members@.len() - j,
    {
        if members[j] == conn {
            return Some(j);
        }
        j += 1;
    }
    None
}

impl Registry {
    /// The names of the rooms, in the order the rooms are kept.
    closed spec fn names(&self) -> Seq<Seq<u8>> {
        self.rooms@.map_values(|room: Room| room.name@)
    }

    /// What the registry keeps true of its own bookkeeping.
    pub closed spec fn inv(&self) -> bool {
        &&& forall|i: int|
            0 <= i < self.rooms@.len() ==> valid_room_name((#[trigger] self.rooms@[i]).name@)
                && self.rooms@[i].members@.len() > 0 && self.rooms@[i].members@.no_duplicates()
        &&& forall|i: int, j: int|
            0 <= i < self.rooms@.len() && 0 <= j < self.rooms@.len() && (#[trigger] self.rooms@[i]).name@
                == (#[trigger] self.rooms@[j]).name@ ==> i == j
        &&& forall|i: int, j: int, c: ConnId|
            0 <= i < self.rooms@.len() && 0 <= j < self.rooms@.len()
                && #[trigger] self.rooms@[i].members@.contains(c)
                && #[trigger] self.rooms@[j].members@.contains(c) ==> i == j
    }

    /// The registry is in order: its bookkeeping is sound and its membership
    /// is one that [`rooms_wf`] accepts.
    pub open spec fn wf(&self) -> bool {
        self.inv() && rooms_wf(self@)
    }

    /// The room kept at `i` is a room of the membership, with the same members.
    proof fn lemma_view_at(&self, i: int)
        requires
            self.inv(),
            0 <= i < self.rooms@.len(),
        ensures
            self@.dom().contains(self.rooms@[i].name@),
            self@[self.rooms@[i].name@] == self.rooms@[i].members@,
            self.names().index_of(self.rooms@[i].name@) == i,
    {
        let r = self.rooms@[i].name@;
        assert(self.names()[i] == r);
        let k = self.names().index_of(r);
        assert(0 <= k < self.names().len() && self.names()[k] == r);
        assert(self.rooms@[k].name@ == self.rooms@[i].name@);
    }

    /// A room of the membership is kept somewhere.
    proof fn lemma_view_dom(&self, r: Seq<u8>)
        requires
            self.inv(),
            self@.dom().contains(r),
        ensures
            0 <= self.names().index_of(r) < self.rooms@.len(),
            self.rooms@[self.names().index_of(r)].name@ == r,
            self@[r] == self.rooms@[self.names().index_of(r)].members@,
    {
        let k = self.names().index_of(r);
        assert(0 <= k < self.names().len() && self.names()[k] == r);
    }

    /// Sound bookkeeping makes for a sound membership.
    proof fn lemma_inv_wf(&self)
        requires
            self.inv(),
        ensures
            rooms_wf(self@),
            self@.dom() =~= self.names().to_set(),
            self.names().no_duplicates(),
    {
        let rooms = self@;
        vstd::seq_lib::seq_to_set_is_finite(self.names());
        assert(rooms.dom() =~= self.names().to_set());
        assert forall|r: Seq<u8>| #[trigger] rooms.dom().contains(r) implies valid_room_name(r)
            && rooms[r].len() > 0 && rooms[r].no_duplicates() by {
            self.lemma_view_dom(r);
        }
        assert forall|r1: Seq<u8>, r2: Seq<u8>, c: ConnId|
            rooms.dom().contains(r1) && rooms.dom().contains(r2) && #[trigger] rooms[r1].contains(c)
                && #[trigger] rooms[r2].contains(c) implies r1 == r2 by {
            self.lemma_view_dom(r1);
            self.lemma_view_dom(r2);
        }
        assert forall|i: int, j: int|
            0 <= i < self.names().len() && 0 <= j < self.names().len() && i != j implies self.names()[i]
            != self.names()[j] by {
            assert(self.rooms@[i].name@ == self.names()[i]);
            assert(self.rooms@[j].name@ == self.names()[j]);
        }
    }

    /// A registry without rooms.
    pub fn new() -> (registry: Registry)
        ensures
            registry.wf(),
            registry@ == Map::<Seq<u8>, Seq<ConnId>>::empty(),
    {
        let registry = Registry { rooms: Vec::new() };
        proof {
            registry.lemma_inv_wf();
            assert(registry@ =~= Map::<Seq<u8>, Seq<ConnId>>::empty());
        }
        registry
    }

    /// Where the room called `name` is kept.
    fn find_room(&self, name: &RoomName) -> (found: Option<usize>)
        requires
            self.inv(),
        ensures
            match found {
                Some(i) => i < self.rooms@.len() && self.rooms@[i as int].name@ == name@
                    && self@.dom().contains(name@) && self@[name@] == self.rooms@[i as int].members@,
                None => !self@.dom().contains(name@),
            },
    {
        let mut i: usize = 0;
        while i < self.rooms.len()
            invariant
                self.inv(),
                i <= self.rooms@.len(),
                forall|k: int| 0 <= k < i ==> (#[trigger] self.rooms@[k]).name@ != name@,
            decreases self.rooms@.len() - i,
        {
            if self.rooms[i].name.same(name) {
                proof {
                    self.lemma_view_at(i as int);
                }
                return Some(i);
            }
            i += 1;
        }
        proof {
            if self@.dom().contains(name@) {
                self.lemma_view_dom(name@);
            }
        }
        None
    }

    /// Where `conn` is kept: its room and its place among the members.
    fn find_member(&self, conn: ConnId) -> (found: Option<(usize, usize)>)
        requires
            self.inv(),
        ensures
            match found {
                Some((i, j)) => i < self.rooms@.len() && j < self.rooms@[i as int].members@.len()
                    && self.rooms@[i as int].members@[j as int] == conn,
                None => forall|k: int|
                    0 <= k < self.rooms@.len() ==> !(#[trigger] self.rooms@[k]).members@.contains(
                        conn,
                    ),
            },
    {
        let mut i: usize = 0;
        while i < self.rooms.len()
            invariant
                i <= self.rooms@.len(),
                forall|k: int|
                    0 <= k < i ==> !(#[trigger] self.rooms@[k]).members@.contains(conn),
            decreases self.rooms@.len() - i,
        {
            match position(&self.rooms[i].members, conn) {
                Some(j) => {
                    return Some((i, j));
                },
                None => {},
            }
            i += 1;
        }
        None
    }

    /// A membership that agrees with the bookkeeping room by room is the
    /// registry's membership.
    proof fn lemma_view_is(&self, m: Rooms)
        requires
            self.inv(),
            forall|i: int|
                0 <= i < self.rooms@.len() ==> m.dom().contains((#[trigger] self.rooms@[i]).name@)
                    && m[self.rooms@[i].name@] == self.rooms@[i].members@,
            forall|r: Seq<u8>| #[trigger]
                m.dom().contains(r) ==> exists|i: int|
                    0 <= i < self.rooms@.len() && (#[trigger] self.rooms@[i]).name@ == r,
        ensures
            self@ == m,
    {
        assert forall|r: Seq<u8>| self@.dom().contains(r) <==> m.dom().contains(r) by {
            if self@.dom().contains(r) {
                self.lemma_view_dom(r);
                let k = self.names().index_of(r);
                assert(m.dom().contains(self.rooms@[k].name@));
            }
            if m.dom().contains(r) {
                let i = choose|i: int|
                    0 <= i < self.rooms@.len() && (#[trigger] self.rooms@[i]).name@ == r;
                self.lemma_view_at(i);
            }
        }
        assert forall|r: Seq<u8>| self@.dom().contains(r) implies self@[r] == m[r] by {
            self.lemma_view_dom(r);
            let k = self.names().index_of(r);
            assert(m[self.rooms@[k].name@] == self.rooms@[k].members@);
        }
        assert(self@ =~= m);
    }

    /// Takes `conn` out of the room it is in, if it is in one. A room that
    /// loses its last member goes with it. For a connection that is in no
    /// room nothing changes.
    pub fn leave(&mut self, conn: ConnId)
        requires
            old(self).wf(),
        ensures
            final(self).wf(),
            final(self)@ == spec_leave(old(self)@, conn),
    {
        match self.find_member(conn) {
            None => {
                proof {
                    assert forall|r: Seq<u8>| !spec_is_member(self@, r, conn) by {
                        if self@.dom().contains(r) {
                            self.lemma_view_dom(r);
                        }
                    }
                }
            },
            Some((i, j)) => {
                let ghost before = *self;
                let ghost room = self.rooms@[i as int].name@;
                let ghost members = self.rooms@[i as int].members@;
                proof {
                    before.lemma_view_at(i as int);
                    lemma_index_of_unique(members, j as int);
                    lemma_room_of(before@, conn, room);
                    lemma_leave(before@, conn);
                }
                if self.rooms[i].members.len() == 1 {
                    let _ = self.rooms.remove(i);
                    proof {
                        assert(self.rooms@ == before.rooms@.remove(i as int));
                        assert forall|k: int| 0 <= k < self.rooms@.len() implies (#[trigger] self.rooms@[k])
                            == before.rooms@[if k < i { k } else { k + 1 }] by {}
                        assert(self.inv());
                        assert forall|k: int| 0 <= k < self.rooms@.len() implies spec_leave(
                            before@,
                            conn,
                        ).dom().contains((#[trigger] self.rooms@[k]).name@) && spec_leave(
                            before@,
                            conn,
                        )[self.rooms@[k].name@] == self.rooms@[k].members@ by {
                            before.lemma_view_at(if k < i { k } else { k + 1 });
                        }
                        assert forall|r: Seq<u8>| #[trigger]
                            spec_leave(before@, conn).dom().contains(r) implies exists|k: int|
                            0 <= k < self.rooms@.len() && (#[trigger] self.rooms@[k]).name@ == r by {
                            before.lemma_view_dom(r);
                            let k0 = before.names().index_of(r);
                            let k = if k0 < i { k0 } else { k0 - 1 };
                            assert(self.rooms@[k].name@ == r);
                        }
                        self.lemma_view_is(spec_leave(before@, conn));
                    }
                } else {
                    let _ = self.rooms[i].members.remove(j);
                    proof {
                        assert forall|k: int| 0 <= k < self.rooms@.len() && k != i implies (#[trigger] self.rooms@[k])
                            == before.rooms@[k] by {}
                        assert(self.rooms@[i as int].name@ == room);
                        assert(self.rooms@[i as int].members@ == members.remove(j as int));
                        lemma_without(members, conn);
                        assert(self.inv()) by {
                            assert forall|a: int, b: int, c: ConnId|
                                0 <= a < self.rooms@.len() && 0 <= b < self.rooms@.len()
                                    && #[trigger] self.rooms@[a].members@.contains(c)
                                    && #[trigger] self.rooms@[b].members@.contains(c) implies a == b by {
                                assert(before.rooms@[a].members@.contains(c));
                                assert(before.rooms@[b].members@.contains(c));
                            }
                        }
                        assert forall|k: int| 0 <= k < self.rooms@.len() implies spec_leave(
                            before@,
                            conn,
                        ).dom().contains((#[trigger] self.rooms@[k]).name@) && spec_leave(
                            before@,
                            conn,
                        )[self.rooms@[k].name@] == self.rooms@[k].members@ by {
                            before.lemma_view_at(k);
                        }
                        assert forall|r: Seq<u8>| #[trigger]
                            spec_leave(before@, conn).dom().contains(r) implies exists|k: int|
                            0 <= k < self.rooms@.len() && (#[trigger] self.rooms@[k]).name@ == r by {
                            before.lemma_view_dom(r);
                            let k = before.names().index_of(r);
                            assert(self.rooms@[k].name@ == r);
                        }
                        self.lemma_view_is(spec_leave(before@, conn));
                    }
                }
            },
        }
    }

    /// Whether `conn` is a member of `room`.
    pub fn is_member(&self, room: &RoomName, conn: ConnId) -> (b: bool)
        requires
            self.wf(),
        ensures
            b == spec_is_member(self@, room@, conn),
    {
        match self.find_room(room) {
            None => false,
            Some(i) => position(&self.rooms[i].members, conn).is_some(),
        }
    }

    /// The room that `conn` is in, if it is in one.
    pub fn room_of(&self, conn: ConnId) -> (room: Option<RoomName>)
        requires
            self.wf(),
        ensures
            match room {
                Some(name) => spec_room_of(self@, conn) == Some(name@),
                None => spec_room_of(self@, conn) is None,
            },
    {
        match self.find_member(conn) {
            None => {
                proof {
                    assert forall|r: Seq<u8>| !spec_is_member(self@, r, conn) by {
                        if self@.dom().contains(r) {
                            self.lemma_view_dom(r);
                        }
                    }
                }
                None
            },
            Some((i, j)) => {
                proof {
                    self.lemma_view_at(i as int);
                    lemma_index_of_unique(self.rooms@[i as int].members@, j as int);
                    lemma_room_of(self@, conn, self.rooms@[i as int].name@);
                }
                Some(self.rooms[i].name.clone())
            },
        }
    }

    /// Puts `conn` into `room`, which is made if it does not exist yet. A
    /// connection that is in another room leaves that room first; one that is
    /// already in `room` changes nothing.
    pub fn join(&mut self, conn: ConnId, room: &RoomName)
        requires
            old(self).wf(),
        ensures
            final(self).wf(),
            final(self)@ == spec_join(old(self)@, conn, room@),
    {
        proof {
            use_type_invariant(room);
        }
        if self.is_member(room, conn) {
            return ;
        }
        proof {
            lemma_leave(self@, conn);
            lemma_join(self@, conn, room@);
        }
        self.leave(conn);
        let ghost left = *self;
        let ghost target = spec_join(old(self)@, conn, room@);
        proof {
            assert forall|k: int| 0 <= k < left.rooms@.len() implies !(#[trigger] left.rooms@[k]).members@.contains(
                conn,
            ) by {
                left.lemma_view_at(k);
                assert(!spec_is_member(left@, left.rooms@[k].name@, conn));
            }
        }
        match self.find_room(room) {
            Some(i) => {
                self.rooms[i].members.push(conn);
                proof {
                    let was = left.rooms@[i as int].members@;
                    let now = self.rooms@[i as int].members@;
                    assert(now == was.push(conn));
                    assert forall|k: int| 0 <= k < self.rooms@.len() && k != i implies (#[trigger] self.rooms@[k])
                        == left.rooms@[k] by {}
                    assert(self.rooms@[i as int].name@ == room@);
                    assert(now.no_duplicates()) by {
                        assert forall|a: int, b: int|
                            0 <= a < now.len() && 0 <= b < now.len() && a != b implies now[a]
                            != now[b] by {
                            if a < was.len() {
                                assert(was.contains(was[a]));
                            }
                            if b < was.len() {
                                assert(was.contains(was[b]));
                            }
                        }
                    }
                    assert forall|c: ConnId| #[trigger] now.contains(c) implies was.contains(c) || c
                        == conn by {
                        let a = choose|a: int| 0 <= a < now.len() && now[a] == c;
                        if a < was.len() {
                            assert(was[a] == c);
                        }
                    }
                    assert(self.inv()) by {
                        assert forall|a: int, b: int, c: ConnId|
                            0 <= a < self.rooms@.len() && 0 <= b < self.rooms@.len()
                                && #[trigger] self.rooms@[a].members@.contains(c)
                                && #[trigger] self.rooms@[b].members@.contains(c) implies a == b by {
                            if c != conn {
                                assert(left.rooms@[a].members@.contains(c));
                                assert(left.rooms@[b].members@.contains(c));
                            }
                        }
                    }
                    assert forall|k: int| 0 <= k < self.rooms@.len() implies target.dom().contains(
                        (#[trigger] self.rooms@[k]).name@,
                    ) && target[self.rooms@[k].name@] == self.rooms@[k].members@ by {
                        left.lemma_view_at(k);
                    }
                    assert forall|r: Seq<u8>| #[trigger] target.dom().contains(r) implies exists|
                        k: int,
                    |
                        0 <= k < self.rooms@.len() && (#[trigger] self.rooms@[k]).name@ == r by {
                        if r == room@ {
                            assert(self.rooms@[i as int].name@ == r);
                        } else {
                            left.lemma_view_dom(r);
                            let k = left.names().index_of(r);
                            assert(self.rooms@[k].name@ == r);
                        }
                    }
                    self.lemma_view_is(target);
                }
            },
            None => {
                let mut members: Vec<ConnId> = Vec::new();
                members.push(conn);
                self.rooms.push(Room { name: room.clone(), members });
                proof {
                    let n = left.rooms@.len() as int;
                    assert(self.rooms@[n].members@ =~= seq![conn]);
                    assert(self.rooms@[n].name@ == room@);
                    assert(spec_members(left@, room@).push(conn) =~= seq![conn]);
                    assert forall|k: int| 0 <= k < n implies (#[trigger] self.rooms@[k])
                        == left.rooms@[k] by {}
                    assert forall|k: int| 0 <= k < n implies (#[trigger] self.rooms@[k]).name@
                        != room@ by {
                        left.lemma_view_at(k);
                    }
                    assert forall|c: ConnId| #[trigger]
                        self.rooms@[n].members@.contains(c) implies c == conn by {}
                    assert(self.inv()) by {
                        assert forall|a: int, b: int, c: ConnId|
                            0 <= a < self.rooms@.len() && 0 <= b < self.rooms@.len()
                                && #[trigger] self.rooms@[a].members@.contains(c)
                                && #[trigger] self.rooms@[b].members@.contains(c) implies a == b by {
                            if a < n && b < n {
                                assert(left.rooms@[a].members@.contains(c));
                                assert(left.rooms@[b].members@.contains(c));
                            }
                        }
                    }
                    assert forall|k: int| 0 <= k < self.rooms@.len() implies target.dom().contains(
                        (#[trigger] self.rooms@[k]).name@,
                    ) && target[self.rooms@[k].name@] == self.rooms@[k].members@ by {
                        if k < n {
                            left.lemma_view_at(k);
                        }
                    }
                    assert forall|r: Seq<u8>| #[trigger] target.dom().contains(r) implies exists|
                        k: int,
                    |
                        0 <= k < self.rooms@.len() && (#[trigger] self.rooms@[k]).name@ == r by {
                        if r == room@ {
                            assert(self.rooms@[n].name@ == r);
                        } else {
                            left.lemma_view_dom(r);
                            let k = left.names().index_of(r);
                            assert(self.rooms@[k].name@ == r);
                        }
                    }
                    self.lemma_view_is(target);
                }
            },
        }
    }

    /// A copy of the members of `room`, in the order they joined, without
    /// `exclude` if one is named. The copy is the caller's own: later changes
    /// to the registry do not show in it.
    pub fn members_of(&self, room: &RoomName, exclude: Option<ConnId>) -> (snapshot: Vec<ConnId>)
        requires
            self.wf(),
        ensures
            snapshot@ == spec_snapshot(self@, room@, exclude),
            snapshot@.no_duplicates(),
    {
        match self.find_room(room) {
            None => {
                let snapshot: Vec<ConnId> = Vec::new();
                assert(snapshot@ =~= Seq::<ConnId>::empty());
                snapshot
            },
            Some(i) => {
                let mut snapshot = vstd::slice::slice_to_vec(self.rooms[i].members.as_slice());
                match exclude {
                    None => {},
                    Some(c) => {
                        proof {
                            lemma_without(snapshot@, c);
                        }
                        match position(&snapshot, c) {
                            None => {},
                            Some(j) => {
                                proof {
                                    lemma_index_of_unique(snapshot@, j as int);
                                }
                                let _ = snapshot.remove(j);
                            },
                        }
                    },
                }
                snapshot
            },
        }
    }

    /// How many rooms there are.
    pub fn room_count(&self) -> (n: usize)
        requires
            self.wf(),
        ensures
            n == self@.dom().len(),
    {
        proof {
            self.lemma_inv_wf();
            self.names().unique_seq_to_set();
        }
        self.rooms.len()
    }
}

} // verus!
