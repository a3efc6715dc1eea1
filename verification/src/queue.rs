//! The queue collection: named FIFO queues of identified payloads.
//!
//! One executable type serves both backends of the broker. The
//! single-threaded configuration is unbounded and requeues to the front of
//! a queue, so a message whose redelivery timer fired is the next one
//! read. The concurrent configuration is bounded — an enqueue on a full
//! queue is rejected and hands the payload back — and requeues to the
//! tail. Deleting a queue leaves a dead slot behind: lookups by name no
//! longer see it, but unconfirmed deliveries that still hold its index can
//! requeue into it, the way handles to a removed queue keep working.

use vstd::prelude::*;
use crate::msg::MsgId;

verus! {

/// One message held by a queue.
pub struct Msg {
    pub id: MsgId,
    pub data: Vec<u8>,
}

/// Model of a message.
#[verifier::ext_equal]
pub struct MsgModel {
    pub id: MsgId,
    pub data: Seq<u8>,
}

impl View for Msg {
    type V = MsgModel;

    open spec fn view(&self) -> MsgModel {
        MsgModel { id: self.id, data: self.data@ }
    }
}

/// One queue slot: its name, whether it is still reachable by name, and
/// its messages in delivery order.
pub(crate) struct Slot {
    pub name: Vec<u8>,
    pub live: bool,
    pub items: Vec<Msg>,
}

/// Model of a slot.
#[verifier::ext_equal]
pub struct SlotModel {
    pub name: Seq<u8>,
    pub live: bool,
    pub items: Seq<MsgModel>,
}

impl View for Slot {
    type V = SlotModel;

    closed spec fn view(&self) -> SlotModel {
        SlotModel {
            name: self.name@,
            live: self.live,
            items: self.items@.map_values(|m: Msg| m@),
        }
    }
}

/// Model of the queue collection.
#[verifier::ext_equal]
pub struct QueueSetModel {
    /// Bound on each queue's length, if the collection is bounded.
    pub capacity: Option<usize>,
    /// Whether a requeued message goes to the front of its queue.
    pub front_requeue: bool,
    /// All slots ever created, dead ones included; a slot's index is the
    /// stable handle that unconfirmed deliveries keep.
    pub slots: Seq<SlotModel>,
}

impl QueueSetModel {
    /// Names of live slots are pairwise distinct.
    pub open spec fn wf(self) -> bool {
        forall|i: int, j: int|
            0 <= i < j < self.slots.len() && self.slots[i].live && self.slots[j].live
                ==> self.slots[i].name != self.slots[j].name
    }

    /// The index of the first live slot with this name.
    pub open spec fn find_live(self, name: Seq<u8>) -> Option<int> {
        find_live_from(self.slots, name, 0)
    }

    /// Whether queue `q` can take one more message.
    pub open spec fn accepts(self, q: int) -> bool {
        match self.capacity {
            Option::Some(c) => self.slots[q].items.len() < c,
            Option::None => true,
        }
    }

    /// The collection after creating a queue: a no-op if a live queue of
    /// that name exists, else a fresh empty slot at the end.
    pub open spec fn create_queue(self, name: Seq<u8>) -> QueueSetModel {
        match self.find_live(name) {
            Option::Some(q) => self,
            Option::None => QueueSetModel {
                slots: self.slots.push(SlotModel { name, live: true, items: Seq::empty() }),
                ..self
            },
        }
    }

    /// The collection after deleting the named queue, if it exists: its
    /// slot goes dead but keeps its contents.
    pub open spec fn delete_queue(self, name: Seq<u8>) -> QueueSetModel {
        match self.find_live(name) {
            Option::Some(q) => QueueSetModel {
                slots: self.slots.update(q, SlotModel { live: false, ..self.slots[q] }),
                ..self
            },
            Option::None => self,
        }
    }

    /// The collection after appending a message to queue `q`.
    pub open spec fn enq(self, q: int, m: MsgModel) -> QueueSetModel {
        QueueSetModel {
            slots: self.slots.update(
                q,
                SlotModel { items: self.slots[q].items.push(m), ..self.slots[q] },
            ),
            ..self
        }
    }

    /// The collection after requeuing a message on queue `q`: at the
    /// front or at the tail, as configured.
    pub open spec fn rq(self, q: int, m: MsgModel) -> QueueSetModel {
        if self.front_requeue {
            QueueSetModel {
                slots: self.slots.update(
                    q,
                    SlotModel { items: self.slots[q].items.insert(0, m), ..self.slots[q] },
                ),
                ..self
            }
        } else {
            self.enq(q, m)
        }
    }

    /// The head of queue `q`, if any.
    pub open spec fn head(self, q: int) -> Option<MsgModel> {
        if self.slots[q].items.len() == 0 {
            Option::None
        } else {
            Option::Some(self.slots[q].items[0])
        }
    }

    /// The collection after removing the head of queue `q`.
    pub open spec fn deq(self, q: int) -> QueueSetModel {
        if self.slots[q].items.len() == 0 {
            self
        } else {
            QueueSetModel {
                slots: self.slots.update(
                    q,
                    SlotModel { items: self.slots[q].items.drop_first(), ..self.slots[q] },
                ),
                ..self
            }
        }
    }
}

/// The index of the first live slot with this name, at or after `i`.
pub open spec fn find_live_from(slots: Seq<SlotModel>, name: Seq<u8>, i: int) -> Option<int>
    recommends
        0 <= i,
    decreases slots.len() - i,
{
    if i >= slots.len() {
        Option::None
    } else if slots[i].live && slots[i].name == name {
        Option::Some(i)
    } else {
        find_live_from(slots, name, i + 1)
    }
}

/// A found index points at a live slot with the name looked up.
pub proof fn lemma_find_live_from(slots: Seq<SlotModel>, name: Seq<u8>, i: int)
    requires
        0 <= i,
    ensures
        find_live_from(slots, name, i) matches Option::Some(q) ==> i <= q < slots.len()
            && slots[q].live && slots[q].name == name,
    decreases slots.len() - i,
{
    if i < slots.len() && !(slots[i].live && slots[i].name == name) {
        lemma_find_live_from(slots, name, i + 1);
    }
}

/// Bytewise equality of two byte strings.
pub fn bytes_eq(a: &[u8], b: &[u8]) -> (r: bool)
    ensures
        r == (a@ == b@),
{
    if a.len() != b.len() {
        return false;
    }
    let mut i: usize = 0;
    while i < a.len()
        invariant
            a@.len() == b@.len(),
            i <= a@.len(),
            forall|j: int| 0 <= j < i ==> a@[j] == b@[j],
        decreases a@.len() - i,
    {
        if a[i] != b[i] {
            return false;
        }
        i = i + 1;
    }
    proof {
        assert(a@ =~= b@);
    }
    true
}

/// The collection of queues, shared by every connection of a server.
pub struct QueueSet {
    capacity: Option<usize>,
    front_requeue: bool,
    slots: Vec<Slot>,
}

impl View for QueueSet {
    type V = QueueSetModel;

    closed spec fn view(&self) -> QueueSetModel {
        QueueSetModel {
            capacity: self.capacity,
            front_requeue: self.front_requeue,
            slots: self.slots@.map_values(|s: Slot| s@),
        }
    }
}

impl QueueSet {
    /// An empty single-threaded collection: unbounded queues that requeue
    /// to the front.
    pub fn single_thread() -> (qs: QueueSet)
        ensures
            qs@ == (QueueSetModel {
                capacity: Option::None,
                front_requeue: true,
                slots: Seq::empty(),
            }),
    {
        let qs = QueueSet { capacity: None, front_requeue: true, slots: Vec::new() };
        proof {
            assert(qs@.slots =~= Seq::<SlotModel>::empty());
        }
        qs
    }

    /// An empty concurrent collection: queues bounded by `capacity` that
    /// requeue to the tail.
    pub fn concurrent(capacity: usize) -> (qs: QueueSet)
        ensures
            qs@ == (QueueSetModel {
                capacity: Option::Some(capacity),
                front_requeue: false,
                slots: Seq::empty(),
            }),
    {
        let qs = QueueSet { capacity: Some(capacity), front_requeue: false, slots: Vec::new() };
        proof {
            assert(qs@.slots =~= Seq::<SlotModel>::empty());
        }
        qs
    }

    /// The index of the live queue with this name, if any.
    pub fn queue(&self, name: &[u8]) -> (r: Option<usize>)
        ensures
            match r {
                Option::Some(q) => self@.find_live(name@) == Option::Some(q as int),
                Option::None => self@.find_live(name@) is None,
            },
    {
        let mut i: usize = 0;
        while i < self.slots.len()
            invariant
                i <= self.slots@.len(),
                find_live_from(self@.slots, name@, 0) == find_live_from(self@.slots, name@, i as int),
            decreases self.slots@.len() - i,
        {
            if self.slots[i].live && bytes_eq(self.slots[i].name.as_slice(), name) {
                return Some(i);
            }
            i = i + 1;
        }
        None
    }

    /// Create the named queue; an existing live queue is left untouched.
    pub fn insert(&mut self, name: Vec<u8>)
        ensures
            final(self)@ == old(self)@.create_queue(name@),
    {
        match self.queue(name.as_slice()) {
            Some(q) => {},
            None => {
                self.slots.push(Slot { name, live: true, items: Vec::new() });
                proof {
                    assert(self@.slots =~~= old(self)@.slots.push(
                        SlotModel { name: name@, live: true, items: Seq::empty() },
                    ));
                }
            },
        }
    }

    /// Delete the named queue; reports whether it existed.
    pub fn remove(&mut self, name: &[u8]) -> (found: bool)
        ensures
            final(self)@ == old(self)@.delete_queue(name@),
            found == (old(self)@.find_live(name@) is Some),
    {
        match self.queue(name) {
            Some(q) => {
                proof {
                    lemma_find_live_from(self@.slots, name@, 0);
                }
                self.slots[q].live = false;
                proof {
                    assert(self@.slots =~= old(self)@.delete_queue(name@).slots);
                }
                true
            },
            None => false,
        }
    }

    /// Append a message at the tail of queue `q`; a full bounded queue
    /// rejects it and hands the identifier and payload back.
    pub fn enqueue(&mut self, q: usize, id: MsgId, data: Vec<u8>) -> (r: Result<
        (),
        (MsgId, Vec<u8>),
    >)
        requires
            q < old(self)@.slots.len(),
        ensures
            old(self)@.accepts(q as int) ==> r is Ok && final(self)@ == old(self)@.enq(
                q as int,
                MsgModel { id, data: data@ },
            ),
            !old(self)@.accepts(q as int) ==> r == Err::<(), _>((id, data)) && *final(self)
                == *old(self),
    {
        let full = match self.capacity {
            Some(c) => self.slots[q].items.len() >= c,
            None => false,
        };
        if full {
            Err((id, data))
        } else {
            self.slots[q].items.push(Msg { id, data });
            proof {
                assert(self@.slots =~~= old(self)@.enq(
                    q as int,
                    MsgModel { id, data: data@ },
                ).slots);
            }
            Ok(())
        }
    }

    /// Put a message back on queue `q` after its redelivery timer fired:
    /// at the front in the single-threaded configuration, at the tail in
    /// the concurrent one. A full bounded queue rejects it.
    pub fn requeue(&mut self, q: usize, id: MsgId, data: Vec<u8>) -> (r: Result<
        (),
        (MsgId, Vec<u8>),
    >)
        requires
            q < old(self)@.slots.len(),
        ensures
            old(self)@.accepts(q as int) ==> r is Ok && final(self)@ == old(self)@.rq(
                q as int,
                MsgModel { id, data: data@ },
            ),
            !old(self)@.accepts(q as int) ==> r == Err::<(), _>((id, data)) && *final(self)
                == *old(self),
    {
        if !self.front_requeue {
            return self.enqueue(q, id, data);
        }
        let full = match self.capacity {
            Some(c) => self.slots[q].items.len() >= c,
            None => false,
        };
        if full {
            Err((id, data))
        } else {
            self.slots[q].items.insert(0, Msg { id, data });
            proof {
                assert(self@.slots =~~= old(self)@.rq(
                    q as int,
                    MsgModel { id, data: data@ },
                ).slots);
            }
            Ok(())
        }
    }

    /// Remove and return the head of queue `q`, if any.
    pub fn dequeue(&mut self, q: usize) -> (r: Option<Msg>)
        requires
            q < old(self)@.slots.len(),
        ensures
            final(self)@ == old(self)@.deq(q as int),
            match r {
                Option::Some(m) => old(self)@.head(q as int) == Option::Some(m@),
                Option::None => old(self)@.head(q as int) is None,
            },
    {
        if self.slots[q].items.len() == 0 {
            None
        } else {
            let m = self.slots[q].items.remove(0);
            proof {
                assert(self@.slots =~~= old(self)@.deq(q as int).slots);
            }
            Some(m)
        }
    }
}

} // verus!
