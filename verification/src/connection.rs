//! The connections the relay knows, each with its state and its outbound queue.

use crate::lifecycle::ConnState;
use crate::queue::{OutboundQueue, QueueView};
use crate::registry::ConnId;
use vstd::prelude::*;

verus! {

/// One connection as plain values.
pub struct ConnView {
    /// Where the connection stands in its life.
    pub state: ConnState,
    /// Its outbound queue.
    pub queue: QueueView,
}

/// The connections as plain values, by identity.
pub type Conns = Map<ConnId, ConnView>;

/// What holds of every set of connections the table can hold.
pub open spec fn conns_wf(conns: Conns) -> bool {
    &&& conns.dom().finite()
    &&& forall|id: ConnId| #[trigger] conns.dom().contains(id) ==> conns[id].queue.wf()
}

/// One connection: its identity, its state and its outbound queue.
#[derive(Debug)]
struct Connection {
    id: ConnId,
    state: ConnState,
    queue: OutboundQueue,
}

/// The table of connections.
#[derive(Debug)]
pub struct ConnTable {
    conns: Vec<Connection>,
}

impl View for ConnTable {
    type V = Conns;

    closed spec fn view(&self) -> Conns {
        Map::new(
            |id: ConnId| self.ids().contains(id),
            |id: ConnId|
                ConnView {
                    state: self.conns@[self.ids().index_of(id)].state,
                    queue: self.conns@[self.ids().index_of(id)].queue@,
                },
        )
    }
}

impl ConnTable {
    /// The identities in the order the connections are kept.
    closed spec fn ids(&self) -> Seq<ConnId> {
        self.conns@.map_values(|c: Connection| c.id)
    }

    /// What the table keeps true of its own bookkeeping.
    pub closed spec fn inv(&self) -> bool {
        &&& forall|i: int| 0 <= i < self.conns@.len() ==> (#[trigger] self.conns@[i]).queue.wf()
        &&& forall|i: int, j: int|
            0 <= i < self.conns@.len() && 0 <= j < self.conns@.len() && (#[trigger] self.conns@[i]).id
                == (#[trigger] self.conns@[j]).id ==> i == j
    }

    /// The table is in order: its bookkeeping is sound and what it holds is
    /// something [`conns_wf`] accepts.
    pub open spec fn wf(&self) -> bool {
        self.inv() && conns_wf(self@)
    }

    /// The connection as plain values that is kept at `i`.
    closed spec fn view_at(&self, i: int) -> ConnView {
        ConnView { state: self.conns@[i].state, queue: self.conns@[i].queue@ }
    }

    proof fn lemma_view_at(&self, i: int)
        requires
            self.inv(),
            0 <= i < self.conns@.len(),
        ensures
            self@.dom().contains(self.conns@[i].id),
            self@[self.conns@[i].id] == self.view_at(i),
            self.ids().index_of(self.conns@[i].id) == i,
    {
        let id = self.conns@[i].id;
        assert(self.ids()[i] == id);
        let k = self.ids().index_of(id);
        assert(0 <= k < self.ids().len() && self.ids()[k] == id);
        assert(self.conns@[k].id == self.conns@[i].id);
    }

    proof fn lemma_view_dom(&self, id: ConnId)
        requires
            self.inv(),
            self@.dom().contains(id),
        ensures
            0 <= self.ids().index_of(id) < self.conns@.len(),
            self.conns@[self.ids().index_of(id)].id == id,
            self@[id] == self.view_at(self.ids().index_of(id)),
    {
        let k = self.ids().index_of(id);
        assert(0 <= k < self.ids().len() && self.ids()[k] == id);
    }

    proof fn lemma_inv_wf(&self)
        requires
            self.inv(),
        ensures
            conns_wf(self@),
            self@.dom() =~= self.ids().to_set(),
            self.ids().no_duplicates(),
    {
        vstd::seq_lib::seq_to_set_is_finite(self.ids());
        assert(self@.dom() =~= self.ids().to_set());
        assert forall|id: ConnId| #[trigger] self@.dom().contains(id) implies self@[id].queue.wf() by {
            self.lemma_view_dom(id);
        }
        assert forall|i: int, j: int|
            0 <= i < self.ids().len() && 0 <= j < self.ids().len() && i != j implies self.ids()[i]
            != self.ids()[j] by {
            assert(self.conns@[i].id == self.ids()[i]);
            assert(self.conns@[j].id == self.ids()[j]);
        }
    }

    /// Connections that agree with the bookkeeping one by one are the table's
    /// connections.
    proof fn lemma_view_is(&self, m: Conns)
        requires
            self.inv(),
            forall|i: int|
                0 <= i < self.conns@.len() ==> m.dom().contains((#[trigger] self.conns@[i]).id)
                    && m[self.conns@[i].id] == self.view_at(i),
            forall|id: ConnId| #[trigger]
                m.dom().contains(id) ==> exists|i: int|
                    0 <= i < self.conns@.len() && (#[trigger] self.conns@[i]).id == id,
        ensures
            self@ == m,
            conns_wf(m),
    {
        assert forall|id: ConnId| self@.dom().contains(id) <==> m.dom().contains(id) by {
            if self@.dom().contains(id) {
                self.lemma_view_dom(id);
                let k = self.ids().index_of(id);
                assert(m.dom().contains(self.conns@[k].id));
            }
            if m.dom().contains(id) {
                let i = choose|i: int|
                    0 <= i < self.conns@.len() && (#[trigger] self.conns@[i]).id == id;
                self.lemma_view_at(i);
            }
        }
        assert forall|id: ConnId| self@.dom().contains(id) implies self@[id] == m[id] by {
            self.lemma_view_dom(id);
            let k = self.ids().index_of(id);
            assert(m[self.conns@[k].id] == self.view_at(k));
        }
        assert(self@ =~= m);
        self.lemma_inv_wf();
    }

    /// A table without connections.
    pub fn new() -> (table: ConnTable)
        ensures
            table.wf(),
            table@ == Map::<ConnId, ConnView>::empty(),
    {
        let table = ConnTable { conns: Vec::new() };
        proof {
            table.lemma_inv_wf();
            assert(table@ =~= Map::<ConnId, ConnView>::empty());
        }
        table
    }

    /// Where the connection `id` is kept.
    fn find(&self, id: ConnId) -> (found: Option<usize>)
        requires
            self.inv(),
        ensures
            match found {
                Some(i) => i < self.conns@.len() && self.conns@[i as int].id == id
                    && self@.dom().contains(id) && self@[id] == self.view_at(i as int),
                None => !self@.dom().contains(id),
            },
    {
        let mut i: usize = 0;
        while i < self.conns.len()
            invariant
                self.inv(),
                i <= self.conns@.len(),
                forall|k: int| 0 <= k < i ==> (#[trigger] self.conns@[k]).id != id,
            decreases self.conns@.len() - i,
        {
            if self.conns[i].id == id {
                proof {
                    self.lemma_view_at(i as int);
                }
                return Some(i);
            }
            i += 1;
        }
        proof {
            if self@.dom().contains(id) {
                self.lemma_view_dom(id);
            }
        }
        None
    }

    /// How many connections the table holds.
    pub fn len(&self) -> (n: usize)
        requires
            self.wf(),
        ensures
            n == self@.dom().len(),
    {
        proof {
            self.lemma_inv_wf();
            self.ids().unique_seq_to_set();
        }
        self.conns.len()
    }

    /// The state of the connection `id`, if the table holds it.
    pub fn state_of(&self, id: ConnId) -> (state: Option<ConnState>)
        requires
            self.wf(),
        ensures
            state == if self@.dom().contains(id) {
                Some(self@[id].state)
            } else {
                None
            },
    {
        match self.find(id) {
            None => None,
            Some(i) => Some(self.conns[i].state),
        }
    }

    /// How many messages wait for the connection `id`; none for a connection
    /// that the table does not hold.
    pub fn queued(&self, id: ConnId) -> (n: usize)
        requires
            self.wf(),
        ensures
            n == if self@.dom().contains(id) {
                self@[id].queue.items.len()
            } else {
                0
            },
    {
        match self.find(id) {
            None => 0,
            Some(i) => self.conns[i].queue.len(),
        }
    }

    /// How many messages were dropped for the connection `id` so far.
    pub fn dropped(&self, id: ConnId) -> (n: Option<u64>)
        requires
            self.wf(),
        ensures
            n == if self@.dom().contains(id) {
                Some(self@[id].queue.dropped)
            } else {
                None
            },
    {
        match self.find(id) {
            None => None,
            Some(i) => Some(self.conns[i].queue.dropped()),
        }
    }

    /// How many of the latest messages for the connection `id` in a row each
    /// pushed an older one out.
    pub fn streak(&self, id: ConnId) -> (n: Option<u64>)
        requires
            self.wf(),
        ensures
            n == if self@.dom().contains(id) {
                Some(self@[id].queue.streak)
            } else {
                None
            },
    {
        match self.find(id) {
            None => None,
            Some(i) => Some(self.conns[i].queue.streak()),
        }
    }

    /// Takes in a new connection under the identity `id`, in state
    /// `Connecting` and with `queue` as its outbound queue. Returns whether
    /// it did: an identity that the table holds already is not taken twice,
    /// and nothing changes.
    pub fn insert(&mut self, id: ConnId, queue: OutboundQueue) -> (inserted: bool)
        requires
            old(self).wf(),
            queue.wf(),
        ensures
            final(self).wf(),
            inserted == !old(self)@.dom().contains(id),
            final(self)@ == if inserted {
                old(self)@.insert(id, ConnView { state: ConnState::Connecting, queue: queue@ })
            } else {
                old(self)@
            },
    {
        if self.find(id).is_some() {
            return false;
        }
        let ghost before = *self;
        let ghost target = self@.insert(id, ConnView { state: ConnState::Connecting, queue: queue@ });
        self.conns.push(Connection { id, state: ConnState::Connecting, queue });
        proof {
            let n = before.conns@.len() as int;
            assert forall|k: int| 0 <= k < n implies (#[trigger] self.conns@[k])
                == before.conns@[k] by {}
            assert forall|k: int| 0 <= k < n implies (#[trigger] self.conns@[k]).id != id by {
                before.lemma_view_at(k);
            }
            assert(self.inv());
            assert forall|k: int| 0 <= k < self.conns@.len() implies target.dom().contains(
                (#[trigger] self.conns@[k]).id,
            ) && target[self.conns@[k].id] == self.view_at(k) by {
                if k < n {
                    before.lemma_view_at(k);
                }
            }
            assert forall|c: ConnId| #[trigger] target.dom().contains(c) implies exists|k: int|
                0 <= k < self.conns@.len() && (#[trigger] self.conns@[k]).id == c by {
                if c == id {
                    assert(self.conns@[n].id == c);
                } else {
                    before.lemma_view_dom(c);
                    let k = before.ids().index_of(c);
                    assert(self.conns@[k].id == c);
                }
            }
            self.lemma_view_is(target);
        }
        true
    }

    /// After a change to the one connection kept at `i`, the table holds what
    /// it held before, but for that connection.
    proof fn lemma_changed_at(&self, before: ConnTable, i: int)
        requires
            before.inv(),
            0 <= i < before.conns@.len(),
            self.conns@.len() == before.conns@.len(),
            self.conns@[i].id == before.conns@[i].id,
            self.conns@[i].queue.wf(),
            forall|k: int|
                0 <= k < self.conns@.len() && k != i ==> (#[trigger] self.conns@[k])
                    == before.conns@[k],
        ensures
            self.inv(),
            conns_wf(self@),
            self@ == before@.insert(before.conns@[i].id, self.view_at(i)),
    {
        let target = before@.insert(before.conns@[i].id, self.view_at(i));
        assert(self.inv()) by {
            assert forall|a: int, b: int|
                0 <= a < self.conns@.len() && 0 <= b < self.conns@.len() && (#[trigger] self.conns@[a]).id
                    == (#[trigger] self.conns@[b]).id implies a == b by {
                assert(self.conns@[a].id == before.conns@[a].id);
                assert(self.conns@[b].id == before.conns@[b].id);
            }
        }
        assert forall|k: int| 0 <= k < self.conns@.len() implies target.dom().contains(
            (#[trigger] self.conns@[k]).id,
        ) && target[self.conns@[k].id] == self.view_at(k) by {
            before.lemma_view_at(k);
            before.lemma_view_at(i);
        }
        assert forall|c: ConnId| #[trigger] target.dom().contains(c) implies exists|k: int|
            0 <= k < self.conns@.len() && (#[trigger] self.conns@[k]).id == c by {
            if c == before.conns@[i].id {
                assert(self.conns@[i].id == c);
            } else {
                before.lemma_view_dom(c);
                let k = before.ids().index_of(c);
                assert(self.conns@[k].id == c);
            }
        }
        self.lemma_view_is(target);
    }

    /// Sets the state of the connection `id`. Returns whether the table holds
    /// such a connection; if not, nothing changes.
    pub fn set_state(&mut self, id: ConnId, state: ConnState) -> (found: bool)
        requires
            old(self).wf(),
        ensures
            final(self).wf(),
            found == old(self)@.dom().contains(id),
            final(self)@ == if found {
                old(self)@.insert(id, ConnView { state, queue: old(self)@[id].queue })
            } else {
                old(self)@
            },
    {
        match self.find(id) {
            None => false,
            Some(i) => {
                let ghost before = *self;
                self.conns[i].state = state;
                proof {
                    self.lemma_changed_at(before, i as int);
                }
                true
            },
        }
    }

    /// Puts `payload` into the queue of the connection `id`. Returns whether
    /// an older message had to go to make room; for a connection that the
    /// table does not hold nothing happens.
    pub fn push(&mut self, id: ConnId, payload: Vec<u8>) -> (dropped_oldest: bool)
        requires
            old(self).wf(),
        ensures
            final(self).wf(),
            dropped_oldest == (old(self)@.dom().contains(id) && old(self)@[id].queue.is_full()),
            final(self)@ == if old(self)@.dom().contains(id) {
                old(self)@.insert(
                    id,
                    ConnView {
                        state: old(self)@[id].state,
                        queue: old(self)@[id].queue.push(payload@),
                    },
                )
            } else {
                old(self)@
            },
    {
        match self.find(id) {
            None => false,
            Some(i) => {
                let ghost before = *self;
                let dropped_oldest = self.conns[i].queue.push(payload);
                proof {
                    self.lemma_changed_at(before, i as int);
                }
                dropped_oldest
            },
        }
    }

    /// Takes the oldest waiting message of the connection `id` out of its
    /// queue, if there is one.
    pub fn pop(&mut self, id: ConnId) -> (message: Option<Vec<u8>>)
        requires
            old(self).wf(),
        ensures
            final(self).wf(),
            match message {
                Some(m) => old(self)@.dom().contains(id) && old(self)@[id].queue.items.len() > 0
                    && m@ == old(self)@[id].queue.items[0],
                None => !old(self)@.dom().contains(id) || old(self)@[id].queue.items.len() == 0,
            },
            final(self)@ == if old(self)@.dom().contains(id) {
                old(self)@.insert(
                    id,
                    ConnView { state: old(self)@[id].state, queue: old(self)@[id].queue.pop() },
                )
            } else {
                old(self)@
            },
    {
        match self.find(id) {
            None => None,
            Some(i) => {
                let ghost before = *self;
                let message = self.conns[i].queue.pop();
                proof {
                    self.lemma_changed_at(before, i as int);
                }
                message
            },
        }
    }

    /// Throws away what waits for the connection `id`.
    pub fn discard(&mut self, id: ConnId)
        requires
            old(self).wf(),
        ensures
            final(self).wf(),
            final(self)@ == if old(self)@.dom().contains(id) {
                old(self)@.insert(
                    id,
                    ConnView {
                        state: old(self)@[id].state,
                        queue: old(self)@[id].queue.discard(),
                    },
                )
            } else {
                old(self)@
            },
    {
        match self.find(id) {
            None => {},
            Some(i) => {
                let ghost before = *self;
                self.conns[i].queue.discard();
                proof {
                    self.lemma_changed_at(before, i as int);
                }
            },
        }
    }

    /// Lets go of the connection `id` for good.
    pub fn remove(&mut self, id: ConnId)
        requires
            old(self).wf(),
        ensures
            final(self).wf(),
            final(self)@ == old(self)@.remove(id),
    {
        match self.find(id) {
            None => {
                assert(self@ =~= old(self)@.remove(id));
            },
            Some(i) => {
                let ghost before = *self;
                let ghost target = before@.remove(id);
                let _ = self.conns.remove(i);
                proof {
                    assert forall|k: int| 0 <= k < self.conns@.len() implies (#[trigger] self.conns@[k])
                        == before.conns@[if k < i { k } else { k + 1 }] by {}
                    assert(self.inv());
                    assert forall|k: int| 0 <= k < self.conns@.len() implies target.dom().contains(
                        (#[trigger] self.conns@[k]).id,
                    ) && target[self.conns@[k].id] == self.view_at(k) by {
                        before.lemma_view_at(if k < i { k } else { k + 1 });
                    }
                    assert forall|c: ConnId| #[trigger] target.dom().contains(c) implies exists|
                        k: int,
                    |
                        0 <= k < self.conns@.len() && (#[trigger] self.conns@[k]).id == c by {
                        before.lemma_view_dom(c);
                        let k0 = before.ids().index_of(c);
                        let k = if k0 < i { k0 } else { k0 - 1 };
                        assert(self.conns@[k].id == c);
                    }
                    self.lemma_view_is(target);
                }
            },
        }
    }
}

} // verus!
