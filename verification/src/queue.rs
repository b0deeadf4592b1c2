//! The bounded outbound queue of one connection.
//!
//! Many senders put messages in; one writer takes them out, oldest first. When
//! the queue is full the oldest message gives way to the new one, so memory
//! stays bounded and recent traffic survives. The queue counts what it
//! dropped, in total and in a row.

use std::collections::VecDeque;
use vstd::prelude::*;

verus! {

/// One step up for a counter that stops at the top of its range.
pub open spec fn spec_bump(n: u64) -> u64 {
    if n < u64::MAX {
        (n + 1) as u64
    } else {
        n
    }
}

/// One step up for a counter that stops at the top of its range.
pub fn bump(n: u64) -> (m: u64)
    ensures
        m == spec_bump(n),
{
    if n < u64::MAX {
        n + 1
    } else {
        n
    }
}

/// An outbound queue as plain values.
pub struct QueueView {
    /// The waiting messages, oldest first.
    pub items: Seq<Seq<u8>>,
    /// How many messages may wait at once.
    pub capacity: usize,
    /// How many messages were dropped since the queue was made.
    pub dropped: u64,
    /// How many of the latest puts in a row each dropped a message.
    pub streak: u64,
}

impl QueueView {
    /// A queue has room for at least one message and never holds more than
    /// its capacity.
    pub open spec fn wf(self) -> bool {
        &&& self.capacity >= 1
        &&& self.items.len() <= self.capacity
    }

    /// An empty queue of the given capacity.
    pub open spec fn empty(capacity: usize) -> QueueView {
        QueueView { items: Seq::empty(), capacity, dropped: 0, streak: 0 }
    }

    /// No further message fits without another giving way.
    pub open spec fn is_full(self) -> bool {
        self.items.len() >= self.capacity
    }

    /// The queue after `payload` was put in.
    ///
    /// A full queue loses its oldest message and counts the loss; any other
    /// queue just grows, and its run of losses ends.
    pub open spec fn push(self, payload: Seq<u8>) -> QueueView {
        if self.is_full() {
            QueueView {
                items: self.items.drop_first().push(payload),
                capacity: self.capacity,
                dropped: spec_bump(self.dropped),
                streak: spec_bump(self.streak),
            }
        } else {
            QueueView {
                items: self.items.push(payload),
                capacity: self.capacity,
                dropped: self.dropped,
                streak: 0,
            }
        }
    }

    /// The queue after its oldest message was taken out, if it had one.
    pub open spec fn pop(self) -> QueueView {
        if self.items.len() == 0 {
            self
        } else {
            QueueView {
                items: self.items.drop_first(),
                capacity: self.capacity,
                dropped: self.dropped,
                streak: self.streak,
            }
        }
    }

    /// The queue after all waiting messages were thrown away. The counters stay.
    pub open spec fn discard(self) -> QueueView {
        QueueView {
            items: Seq::empty(),
            capacity: self.capacity,
            dropped: self.dropped,
            streak: self.streak,
        }
    }
}

/// The bounded outbound queue of one connection.
#[derive(Debug)]
pub struct OutboundQueue {
    items: VecDeque<Vec<u8>>,
    capacity: usize,
    dropped: u64,
    streak: u64,
}

impl View for OutboundQueue {
    type V = QueueView;

    closed spec fn view(&self) -> QueueView {
        QueueView {
            items: self.items@.map_values(|m: Vec<u8>| m@),
            capacity: self.capacity,
            dropped: self.dropped,
            streak: self.streak,
        }
    }
}

impl OutboundQueue {
    /// The queue's invariant: see [`QueueView::wf`].
    pub open spec fn wf(&self) -> bool {
        self@.wf()
    }

    /// Makes an empty queue for up to `capacity` messages. A queue that could
    /// hold nothing is no queue: for `capacity` 0 there is none.
    pub fn new(capacity: usize) -> (queue: Option<OutboundQueue>)
        ensures
            queue is Some <==> capacity >= 1,
            queue matches Some(q) ==> q.wf() && q@ == QueueView::empty(capacity),
    {
        if capacity == 0 {
            None
        } else {
            let q = OutboundQueue { items: VecDeque::new(), capacity, dropped: 0, streak: 0 };
            assert(q@.items =~= Seq::<Seq<u8>>::empty());
            Some(q)
        }
    }

    /// Puts `payload` in, making room first if the queue is full. Returns
    /// whether the oldest message had to go.
    pub fn push(&mut self, payload: Vec<u8>) -> (dropped_oldest: bool)
        requires
            old(self).wf(),
        ensures
            final(self).wf(),
            final(self)@ == old(self)@.push(payload@),
            dropped_oldest == old(self)@.is_full(),
    {
        let full = self.items.len() >= self.capacity;
        if full {
            let _ = self.items.pop_front();
            self.dropped = bump(self.dropped);
            self.streak = bump(self.streak);
        } else {
            self.streak = 0;
        }
        self.items.push_back(payload);
        assert(self@.items =~= old(self)@.push(payload@).items);
        full
    }

    /// Takes the oldest waiting message out, if there is one.
    pub fn pop(&mut self) -> (message: Option<Vec<u8>>)
        requires
            old(self).wf(),
        ensures
            final(self).wf(),
            final(self)@ == old(self)@.pop(),
            match message {
                Some(m) => old(self)@.items.len() > 0 && m@ == old(self)@.items[0],
                None => old(self)@.items.len() == 0,
            },
    {
        let message = self.items.pop_front();
        assert(self@.items =~= old(self)@.pop().items);
        message
    }

    /// Throws all waiting messages away. The counters stay as they are.
    pub fn discard(&mut self)
        requires
            old(self).wf(),
        ensures
            final(self).wf(),
            final(self)@ == old(self)@.discard(),
    {
        self.items.clear();
        assert(self@.items =~= Seq::<Seq<u8>>::empty());
    }

    /// How many messages wait.
    pub fn len(&self) -> (n: usize)
        ensures
            n == self@.items.len(),
    {
        self.items.len()
    }

    /// Whether no message waits.
    pub fn is_empty(&self) -> (b: bool)
        ensures
            b == (self@.items.len() == 0),
    {
        self.items.len() == 0
    }

    /// How many messages may wait at once.
    pub fn capacity(&self) -> (n: usize)
        ensures
            n == self@.capacity,
    {
        self.capacity
    }

    /// How many messages were dropped since the queue was made.
    pub fn dropped(&self) -> (n: u64)
        ensures
            n == self@.dropped,
    {
        self.dropped
    }

    /// How many of the latest puts in a row each dropped a message.
    pub fn streak(&self) -> (n: u64)
        ensures
            n == self@.streak,
    {
        self.streak
    }
}

/// The queue after each of `messages` was put in, one after the other.
pub open spec fn spec_push_all(q: QueueView, messages: Seq<Seq<u8>>) -> QueueView
    decreases messages.len(),
{
    if messages.len() == 0 {
        q
    } else {
        spec_push_all(q, messages.drop_last()).push(messages.last())
    }
}

/// The last `n` of `messages`, or all of them if they are fewer.
pub open spec fn spec_latest(messages: Seq<Seq<u8>>, n: int) -> Seq<Seq<u8>> {
    if messages.len() <= n {
        messages
    } else {
        messages.subrange(messages.len() - n, messages.len() as int)
    }
}

/// A queue keeps the latest messages, in the order they were put in: after
/// any number of puts it holds the last of everything it was ever given, as
/// many as its capacity allows, oldest first. So what one sender puts in for
/// one recipient comes out in the order it went in.
pub proof fn lemma_push_all_keeps_latest(q: QueueView, messages: Seq<Seq<u8>>)
    requires
        q.wf(),
    ensures
        spec_push_all(q, messages).wf(),
        spec_push_all(q, messages).capacity == q.capacity,
        spec_push_all(q, messages).items == spec_latest(q.items + messages, q.capacity as int),
    decreases messages.len(),
{
    if messages.len() == 0 {
        assert(q.items + messages =~= q.items);
    } else {
        let head = messages.drop_last();
        lemma_push_all_keeps_latest(q, head);
        let all = q.items + messages;
        assert(all =~= (q.items + head).push(messages.last()));
        assert(spec_push_all(q, messages).items =~= spec_latest(all, q.capacity as int));
    }
}

} // verus!
