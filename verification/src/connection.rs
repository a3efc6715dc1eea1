//! A connection: buffered bytes in and out, request dispatch, and the
//! unconfirmed-delivery tracker.
//!
//! The reactor hands a connection the bytes it read from the socket; the
//! connection decodes as many complete requests as the buffer holds,
//! produces exactly one response per request in request order, and
//! appends each encoded response to its outgoing queue. A successful
//! Read registers an unconfirmed delivery and asks the caller to arm a
//! redelivery timer; the later race between the timer and the client's
//! Confirm is resolved here, one event at a time, by `timer_fired` and
//! the Confirm branch of dispatch.

use vstd::prelude::*;
use vstd::assert_seqs_equal;
use crate::msg::{MsgId, ClientMessage, ServerMessage, ReqModel, RespModel, fresh_id};
use crate::queue::{QueueSet, QueueSetModel, MsgModel, lemma_find_live_from};
use crate::codec::{Decoded, dec_req, enc_resp, lemma_dec_req_consumes, push_bytes,
    MAX_CLIENT_MESSAGE_LEN, MAX_SERVER_MESSAGE_LEN};
use crate::error::Error;

verus! {

/// Where an unconfirmed delivery stands in the race between its
/// redelivery timer and the client's Confirm.
#[derive(Clone, Copy, Debug, PartialEq, Eq, Structural)]
pub enum PendingState {
    /// Neither the timer nor a Confirm has been seen.
    InFlight,
    /// The timer fired and the payload went back to its queue.
    RequeuedOk,
    /// The timer fired but the queue was full; the payload is kept here
    /// so a later Confirm can retry the requeue.
    RequeueFailed,
}

/// One unconfirmed delivery: the identifier read out, the slot index of
/// the owning queue, a copy of the payload, and the race state.
pub(crate) struct Unconfirmed {
    pub id: MsgId,
    pub qid: usize,
    pub data: Vec<u8>,
    pub state: PendingState,
}

/// Model of an unconfirmed delivery.
#[verifier::ext_equal]
pub struct UncModel {
    pub id: MsgId,
    pub qid: int,
    pub data: Seq<u8>,
    pub state: PendingState,
}

impl View for Unconfirmed {
    type V = UncModel;

    closed spec fn view(&self) -> UncModel {
        UncModel { id: self.id, qid: self.qid as int, data: self.data@, state: self.state }
    }
}

/// Model of a connection.
#[verifier::ext_equal]
pub struct ConnModel {
    /// Bytes received but not yet decoded.
    pub incoming: Seq<u8>,
    /// Encoded responses not yet written out, oldest first.
    pub outgoing: Seq<Seq<u8>>,
    /// Unconfirmed deliveries, oldest first; identifiers are unique.
    pub unconfirmed: Seq<UncModel>,
}

/// A connection with a single client.
pub struct Connection {
    incoming: Vec<u8>,
    outgoing: Vec<Vec<u8>>,
    unconfirmed: Vec<Unconfirmed>,
}

impl View for Connection {
    type V = ConnModel;

    closed spec fn view(&self) -> ConnModel {
        ConnModel {
            incoming: self.incoming@,
            outgoing: self.outgoing@.map_values(|b: Vec<u8>| b@),
            unconfirmed: self.unconfirmed@.map_values(|u: Unconfirmed| u@),
        }
    }
}

/// The index of the first unconfirmed entry with this identifier, at or
/// after `i`.
pub open spec fn find_unc_from(un: Seq<UncModel>, id: MsgId, i: int) -> Option<int>
    recommends
        0 <= i,
    decreases un.len() - i,
{
    if i >= un.len() {
        Option::None
    } else if un[i].id == id {
        Option::Some(i)
    } else {
        find_unc_from(un, id, i + 1)
    }
}

/// The index of the first unconfirmed entry with this identifier.
pub open spec fn find_unc(un: Seq<UncModel>, id: MsgId) -> Option<int> {
    find_unc_from(un, id, 0)
}

/// A found index points at an entry with the identifier looked up.
pub proof fn lemma_find_unc_from(un: Seq<UncModel>, id: MsgId, i: int)
    requires
        0 <= i,
    ensures
        find_unc_from(un, id, i) matches Option::Some(k) ==> i <= k < un.len() && un[k].id == id,
    decreases un.len() - i,
{
    if i < un.len() && un[i].id != id {
        lemma_find_unc_from(un, id, i + 1);
    }
}

/// Register a delivery: an existing entry with the same identifier is
/// replaced, else the entry goes to the end.
pub open spec fn upsert_unc(un: Seq<UncModel>, e: UncModel) -> Seq<UncModel> {
    match find_unc(un, e.id) {
        Option::Some(k) => un.update(k, e),
        Option::None => un.push(e),
    }
}

/// Every unconfirmed entry holds a valid slot index of `qs`.
pub open spec fn unc_wf(un: Seq<UncModel>, qs: QueueSetModel) -> bool {
    forall|k: int| 0 <= k < un.len() ==> 0 <= #[trigger] un[k].qid < qs.slots.len()
}

/// What one dispatched request does: the new queue collection and
/// unconfirmed entries, the response, and the redelivery timer to arm.
#[verifier::ext_equal]
pub struct StepOut {
    pub qs: QueueSetModel,
    pub unconfirmed: Seq<UncModel>,
    pub resp: RespModel,
    pub timer: Option<(MsgId, u64)>,
}

/// Dispatch one request against the queue collection and this
/// connection's unconfirmed entries. `fresh` is the identifier drawn for
/// an Enqueue; other requests ignore it.
pub open spec fn step(
    qs: QueueSetModel,
    un: Seq<UncModel>,
    req: ReqModel,
    fresh: MsgId,
) -> StepOut {
    match req {
        ReqModel::CreateQueue(name) => StepOut {
            qs: qs.create_queue(name),
            unconfirmed: un,
            resp: RespModel::QueueCreated,
            timer: Option::None,
        },
        ReqModel::DeleteQueue(name) => match qs.find_live(name) {
            Option::Some(q) => StepOut {
                qs: qs.delete_queue(name),
                unconfirmed: un,
                resp: RespModel::QueueDeleted,
                timer: Option::None,
            },
            Option::None => StepOut {
                qs,
                unconfirmed: un,
                resp: RespModel::NoSuchEntity,
                timer: Option::None,
            },
        },
        ReqModel::Enqueue(name, data) => match qs.find_live(name) {
            Option::Some(q) => if qs.accepts(q) {
                StepOut {
                    qs: qs.enq(q, MsgModel { id: fresh, data }),
                    unconfirmed: un,
                    resp: RespModel::ObjectQueued(fresh),
                    timer: Option::None,
                }
            } else {
                StepOut {
                    qs,
                    unconfirmed: un,
                    resp: RespModel::Full(fresh, data),
                    timer: Option::None,
                }
            },
            Option::None => StepOut {
                qs,
                unconfirmed: un,
                resp: RespModel::NoSuchEntity,
                timer: Option::None,
            },
        },
        ReqModel::Read(name, timeout) => match qs.find_live(name) {
            Option::Some(q) => match qs.head(q) {
                Option::Some(m) => StepOut {
                    qs: qs.deq(q),
                    unconfirmed: upsert_unc(
                        un,
                        UncModel { id: m.id, qid: q, data: m.data, state: PendingState::InFlight },
                    ),
                    resp: RespModel::Read(m.id, m.data),
                    timer: if timeout == 0 {
                        Option::None
                    } else {
                        Option::Some((m.id, timeout))
                    },
                },
                Option::None => StepOut {
                    qs,
                    unconfirmed: un,
                    resp: RespModel::Empty,
                    timer: Option::None,
                },
            },
            Option::None => StepOut {
                qs,
                unconfirmed: un,
                resp: RespModel::NoSuchEntity,
                timer: Option::None,
            },
        },
        ReqModel::Confirm(id) => match find_unc(un, id) {
            Option::None => StepOut {
                qs,
                unconfirmed: un,
                resp: RespModel::NoSuchEntity,
                timer: Option::None,
            },
            Option::Some(k) => {
                let e = un[k];
                let rest = un.remove(k);
                match e.state {
                    PendingState::InFlight => StepOut {
                        qs,
                        unconfirmed: rest,
                        resp: RespModel::Confirmed,
                        timer: Option::None,
                    },
                    PendingState::RequeuedOk => StepOut {
                        qs,
                        unconfirmed: rest,
                        resp: RespModel::Requeued,
                        timer: Option::None,
                    },
                    PendingState::RequeueFailed => if qs.accepts(e.qid) {
                        StepOut {
                            qs: qs.rq(e.qid, MsgModel { id: e.id, data: e.data }),
                            unconfirmed: rest,
                            resp: RespModel::Requeued,
                            timer: Option::None,
                        }
                    } else {
                        StepOut {
                            qs,
                            unconfirmed: rest,
                            resp: RespModel::Full(e.id, e.data),
                            timer: Option::None,
                        }
                    },
                }
            },
        },
    }
}

/// What a fired redelivery timer does: an in-flight entry's payload goes
/// back to its queue (or the failure is recorded for a later retry); a
/// timer for a confirmed or already-resolved entry does nothing.
pub open spec fn timer_step(qs: QueueSetModel, un: Seq<UncModel>, id: MsgId) -> (
    QueueSetModel,
    Seq<UncModel>,
) {
    match find_unc(un, id) {
        Option::None => (qs, un),
        Option::Some(k) => {
            let e = un[k];
            if e.state is InFlight {
                if qs.accepts(e.qid) {
                    (
                        qs.rq(e.qid, MsgModel { id: e.id, data: e.data }),
                        un.update(
                            k,
                            UncModel { data: Seq::empty(), state: PendingState::RequeuedOk, ..e },
                        ),
                    )
                } else {
                    (qs, un.update(k, UncModel { state: PendingState::RequeueFailed, ..e }))
                }
            } else {
                (qs, un)
            }
        },
    }
}

/// Dispatch preserves well-formedness: every unconfirmed entry of the
/// stepped state still points at a slot of the stepped collection.
pub proof fn lemma_step_unc_wf(qs: QueueSetModel, un: Seq<UncModel>, req: ReqModel, fresh: MsgId)
    requires
        unc_wf(un, qs),
    ensures
        unc_wf(step(qs, un, req, fresh).unconfirmed, step(qs, un, req, fresh).qs),
{
    let so = step(qs, un, req, fresh);
    match req {
        ReqModel::Read(name, timeout) => {
            match qs.find_live(name) {
                Option::Some(q) => {
                    lemma_find_live_from(qs.slots, name, 0);
                    match qs.head(q) {
                        Option::Some(m) => {
                            let e = UncModel {
                                id: m.id,
                                qid: q,
                                data: m.data,
                                state: PendingState::InFlight,
                            };
                            assert(so.qs.slots.len() == qs.slots.len());
                            lemma_find_unc_from(un, e.id, 0);
                            match find_unc(un, e.id) {
                                Option::Some(k0) => {
                                    assert(so.unconfirmed == un.update(k0, e));
                                    assert forall|j: int| 0 <= j < so.unconfirmed.len() implies 0
                                        <= #[trigger] so.unconfirmed[j].qid
                                        < so.qs.slots.len() by {
                                        if j != k0 {
                                            assert(so.unconfirmed[j] == un[j]);
                                        } else {
                                            assert(so.unconfirmed[j] == e);
                                        }
                                    }
                                },
                                Option::None => {
                                    assert(so.unconfirmed == un.push(e));
                                    assert forall|j: int| 0 <= j < so.unconfirmed.len() implies 0
                                        <= #[trigger] so.unconfirmed[j].qid
                                        < so.qs.slots.len() by {
                                        if j < un.len() {
                                            assert(so.unconfirmed[j] == un[j]);
                                        } else {
                                            assert(so.unconfirmed[j] == e);
                                        }
                                    }
                                },
                            }
                        },
                        Option::None => {},
                    }
                },
                Option::None => {},
            }
        },
        ReqModel::Confirm(id) => {
            match find_unc(un, id) {
                Option::Some(k) => {
                    lemma_find_unc_from(un, id, 0);
                    assert(0 <= un[k].qid < qs.slots.len());
                    assert forall|j: int| 0 <= j < so.unconfirmed.len() implies 0
                        <= #[trigger] so.unconfirmed[j].qid < so.qs.slots.len() by {
                        if j < k {
                            assert(so.unconfirmed[j] == un[j]);
                        } else {
                            assert(so.unconfirmed[j] == un[j + 1]);
                        }
                    }
                },
                Option::None => {},
            }
        },
        ReqModel::CreateQueue(name) => {
            lemma_qs_len_monotone(qs, un, req, fresh);
        },
        ReqModel::DeleteQueue(name) => {
            lemma_qs_len_monotone(qs, un, req, fresh);
        },
        ReqModel::Enqueue(name, data) => {
            lemma_qs_len_monotone(qs, un, req, fresh);
        },
    }
}

/// For requests that leave the unconfirmed entries alone, the stepped
/// collection has at least as many slots, so the entries stay valid.
proof fn lemma_qs_len_monotone(qs: QueueSetModel, un: Seq<UncModel>, req: ReqModel, fresh: MsgId)
    requires
        unc_wf(un, qs),
        req is CreateQueue || req is DeleteQueue || req is Enqueue,
    ensures
        step(qs, un, req, fresh).unconfirmed == un,
        step(qs, un, req, fresh).qs.slots.len() >= qs.slots.len(),
        unc_wf(un, step(qs, un, req, fresh).qs),
{
    let so = step(qs, un, req, fresh);
    match req {
        ReqModel::CreateQueue(name) => {
            match qs.find_live(name) {
                Option::Some(q) => {},
                Option::None => {
                    assert(so.qs.slots.len() == qs.slots.len() + 1);
                },
            }
        },
        ReqModel::DeleteQueue(name) => {
            match qs.find_live(name) {
                Option::Some(q) => {
                    lemma_find_live_from(qs.slots, name, 0);
                    assert(so.qs.slots.len() == qs.slots.len());
                },
                Option::None => {},
            }
        },
        ReqModel::Enqueue(name, data) => {
            match qs.find_live(name) {
                Option::Some(q) => {
                    lemma_find_live_from(qs.slots, name, 0);
                    assert(so.qs.slots.len() == qs.slots.len());
                },
                Option::None => {},
            }
        },
        _ => {},
    }
    assert forall|j: int| 0 <= j < un.len() implies 0 <= #[trigger] un[j].qid
        < so.qs.slots.len() by {
        assert(0 <= un[j].qid < qs.slots.len());
    }
}

/// Copy a byte string.
fn copy_bytes(s: &[u8]) -> (r: Vec<u8>)
    ensures
        r@ == s@,
{
    let mut r: Vec<u8> = Vec::new();
    let mut i: usize = 0;
    while i < s.len()
        invariant
            i <= s@.len(),
            r@ == s@.subrange(0, i as int),
        decreases s@.len() - i,
    {
        r.push(s[i]);
        i = i + 1;
        proof {
            assert_seqs_equal!(s@.subrange(0, i as int)
                == s@.subrange(0, i - 1).push(s@[i - 1]));
        }
    }
    proof {
        assert_seqs_equal!(s@.subrange(0, s@.len() as int) == s@);
    }
    r
}

impl Connection {
    /// A fresh connection with empty buffers and no unconfirmed
    /// deliveries.
    pub fn new() -> (c: Connection)
        ensures
            c@ == (ConnModel {
                incoming: Seq::empty(),
                outgoing: Seq::empty(),
                unconfirmed: Seq::empty(),
            }),
    {
        let c = Connection { incoming: Vec::new(), outgoing: Vec::new(), unconfirmed: Vec::new() };
        proof {
            assert(c@ =~~= (ConnModel {
                incoming: Seq::empty(),
                outgoing: Seq::empty(),
                unconfirmed: Seq::empty(),
            }));
        }
        c
    }

    /// The index of the unconfirmed entry with this identifier, if any.
    fn find_unconfirmed(&self, id: MsgId) -> (r: Option<usize>)
        ensures
            match r {
                Option::Some(k) => find_unc(self@.unconfirmed, id) == Option::Some(k as int),
                Option::None => find_unc(self@.unconfirmed, id) is None,
            },
    {
        let mut i: usize = 0;
        while i < self.unconfirmed.len()
            invariant
                i <= self.unconfirmed@.len(),
                find_unc(self@.unconfirmed, id) == find_unc_from(self@.unconfirmed, id, i as int),
            decreases self.unconfirmed@.len() - i,
        {
            if self.unconfirmed[i].id.hi == id.hi && self.unconfirmed[i].id.lo == id.lo {
                return Some(i);
            }
            i = i + 1;
        }
        None
    }

    /// Dispatch one request, already decoded. `fresh` is the identifier
    /// to use if the request enqueues a payload. Returns the response and
    /// the redelivery timer to arm, if any.
    pub fn handle_request(
        &mut self,
        queues: &mut QueueSet,
        req: ClientMessage,
        fresh: MsgId,
    ) -> (r: (ServerMessage, Option<(MsgId, u64)>))
        requires
            unc_wf(old(self)@.unconfirmed, old(queues)@),
        ensures
            ({
                let so = step(old(queues)@, old(self)@.unconfirmed, req@, fresh);
                &&& final(queues)@ == so.qs
                &&& final(self)@.unconfirmed == so.unconfirmed
                &&& final(self)@.incoming == old(self)@.incoming
                &&& final(self)@.outgoing == old(self)@.outgoing
                &&& r.0@ == so.resp
                &&& r.1 == so.timer
            }),
            unc_wf(final(self)@.unconfirmed, final(queues)@),
    {
        proof {
            lemma_step_unc_wf(old(queues)@, old(self)@.unconfirmed, req@, fresh);
        }
        match req {
            ClientMessage::CreateQueue(name) => {
                queues.insert(name);
                (ServerMessage::QueueCreated, None)
            },
            ClientMessage::DeleteQueue(name) => {
                if queues.remove(name.as_slice()) {
                    (ServerMessage::QueueDeleted, None)
                } else {
                    (ServerMessage::NoSuchEntity, None)
                }
            },
            ClientMessage::Enqueue(name, data) => {
                match queues.queue(name.as_slice()) {
                    Some(q) => {
                        proof {
                            lemma_find_live_from(queues@.slots, name@, 0);
                        }
                        match queues.enqueue(q, fresh, data) {
                            Ok(()) => (ServerMessage::ObjectQueued(fresh), None),
                            Err((rid, rdata)) => (ServerMessage::Full(rid, rdata), None),
                        }
                    },
                    None => (ServerMessage::NoSuchEntity, None),
                }
            },
            ClientMessage::Read(name, timeout) => self.read_ms(queues, name, timeout),
            ClientMessage::Confirm(id) => (self.confirm(queues, id), None),
        }
    }

    /// Handle a Read request: dequeue from the named queue, register the
    /// unconfirmed delivery, and say which redelivery timer to arm. A
    /// timeout of 0 arms none.
    fn read_ms(&mut self, queues: &mut QueueSet, name: Vec<u8>, timeout: u64) -> (r: (
        ServerMessage,
        Option<(MsgId, u64)>,
    ))
        requires
            unc_wf(old(self)@.unconfirmed, old(queues)@),
        ensures
            ({
                let so = step(
                    old(queues)@,
                    old(self)@.unconfirmed,
                    ReqModel::Read(name@, timeout),
                    MsgId { hi: 0, lo: 0 },
                );
                &&& final(queues)@ == so.qs
                &&& final(self)@.unconfirmed == so.unconfirmed
                &&& final(self)@.incoming == old(self)@.incoming
                &&& final(self)@.outgoing == old(self)@.outgoing
                &&& r.0@ == so.resp
                &&& r.1 == so.timer
            }),
            unc_wf(final(self)@.unconfirmed, final(queues)@),
    {
        match queues.queue(name.as_slice()) {
            Some(q) => {
                proof {
                    lemma_find_live_from(queues@.slots, name@, 0);
                }
                match queues.dequeue(q) {
                    Some(m) => {
                        let entry = Unconfirmed {
                            id: m.id,
                            qid: q,
                            data: copy_bytes(m.data.as_slice()),
                            state: PendingState::InFlight,
                        };
                        match self.find_unconfirmed(m.id) {
                            Some(k) => {
                                proof {
                                    lemma_find_unc_from(self@.unconfirmed, m.id, 0);
                                }
                                let _ = self.unconfirmed.remove(k);
                                self.unconfirmed.insert(k, entry);
                                proof {
                                    assert(self@.unconfirmed =~~= upsert_unc(
                                        old(self)@.unconfirmed,
                                        UncModel {
                                            id: m.id,
                                            qid: q as int,
                                            data: m.data@,
                                            state: PendingState::InFlight,
                                        },
                                    ));
                                }
                            },
                            None => {
                                self.unconfirmed.push(entry);
                                proof {
                                    assert(self@.unconfirmed =~~= upsert_unc(
                                        old(self)@.unconfirmed,
                                        UncModel {
                                            id: m.id,
                                            qid: q as int,
                                            data: m.data@,
                                            state: PendingState::InFlight,
                                        },
                                    ));
                                }
                            },
                        }
                        let timer = if timeout == 0 {
                            None
                        } else {
                            Some((m.id, timeout))
                        };
                        (ServerMessage::Read(m.id, m.data), timer)
                    },
                    None => (ServerMessage::Empty, None),
                }
            },
            None => (ServerMessage::NoSuchEntity, None),
        }
    }

    /// Handle a Confirm request: resolve the unconfirmed entry with this
    /// identifier against whatever the redelivery timer has done so far.
    fn confirm(&mut self, queues: &mut QueueSet, id: MsgId) -> (r: ServerMessage)
        requires
            unc_wf(old(self)@.unconfirmed, old(queues)@),
        ensures
            ({
                let so = step(
                    old(queues)@,
                    old(self)@.unconfirmed,
                    ReqModel::Confirm(id),
                    MsgId { hi: 0, lo: 0 },
                );
                &&& final(queues)@ == so.qs
                &&& final(self)@.unconfirmed == so.unconfirmed
                &&& final(self)@.incoming == old(self)@.incoming
                &&& final(self)@.outgoing == old(self)@.outgoing
                &&& r@ == so.resp
            }),
            unc_wf(final(self)@.unconfirmed, final(queues)@),
    {
        match self.find_unconfirmed(id) {
            None => ServerMessage::NoSuchEntity,
            Some(k) => {
                proof {
                    lemma_find_unc_from(self@.unconfirmed, id, 0);
                }
                let e = self.unconfirmed.remove(k);
                proof {
                    assert(e@ == old(self)@.unconfirmed[k as int]);
                    assert(self@.unconfirmed =~~= old(self)@.unconfirmed.remove(k as int));
                    assert(0 <= e@.qid < queues@.slots.len());
                }
                let r = match e.state {
                    PendingState::InFlight => ServerMessage::Confirmed,
                    PendingState::RequeuedOk => ServerMessage::Requeued,
                    PendingState::RequeueFailed => {
                        match queues.requeue(e.qid, e.id, e.data) {
                            Ok(()) => ServerMessage::Requeued,
                            Err((rid, rdata)) => ServerMessage::Full(rid, rdata),
                        }
                    },
                };
                proof {
                    let unew = self@.unconfirmed;
                    let uold = old(self)@.unconfirmed;
                    assert forall|j: int| 0 <= j < unew.len() implies 0 <= #[trigger] unew[j].qid
                        < queues@.slots.len() by {
                        if j < k {
                            assert(unew[j] == uold[j]);
                        } else {
                            assert(unew[j] == uold[j + 1]);
                        }
                    }
                }
                r
            },
        }
    }

    /// React to a fired redelivery timer for this identifier.
    pub fn timer_fired(&mut self, queues: &mut QueueSet, id: MsgId)
        requires
            unc_wf(old(self)@.unconfirmed, old(queues)@),
        ensures
            (final(queues)@, final(self)@.unconfirmed) == timer_step(
                old(queues)@,
                old(self)@.unconfirmed,
                id,
            ),
            final(self)@.incoming == old(self)@.incoming,
            final(self)@.outgoing == old(self)@.outgoing,
            unc_wf(final(self)@.unconfirmed, final(queues)@),
    {
        match self.find_unconfirmed(id) {
            None => {},
            Some(k) => {
                proof {
                    lemma_find_unc_from(self@.unconfirmed, id, 0);
                }
                let e = self.unconfirmed.remove(k);
                proof {
                    assert(e@ == old(self)@.unconfirmed[k as int]);
                    assert(0 <= e@.qid < queues@.slots.len());
                }
                match e.state {
                    PendingState::InFlight => {
                        match queues.requeue(e.qid, e.id, e.data) {
                            Ok(()) => {
                                self.unconfirmed.insert(
                                    k,
                                    Unconfirmed {
                                        id: e.id,
                                        qid: e.qid,
                                        data: Vec::new(),
                                        state: PendingState::RequeuedOk,
                                    },
                                );
                            },
                            Err((rid, rdata)) => {
                                self.unconfirmed.insert(
                                    k,
                                    Unconfirmed {
                                        id: e.id,
                                        qid: e.qid,
                                        data: rdata,
                                        state: PendingState::RequeueFailed,
                                    },
                                );
                            },
                        }
                        proof {
                            assert(self@.unconfirmed =~~= timer_step(
                                old(queues)@,
                                old(self)@.unconfirmed,
                                id,
                            ).1);
                        }
                    },
                    _ => {
                        self.unconfirmed.insert(k, e);
                        proof {
                            assert(self@.unconfirmed =~~= old(self)@.unconfirmed);
                        }
                    },
                }
            },
        }
    }

    /// Take the oldest pending outgoing buffer, if any.
    pub fn pop_outgoing(&mut self) -> (r: Option<Vec<u8>>)
        ensures
            final(self)@.incoming == old(self)@.incoming,
            final(self)@.unconfirmed == old(self)@.unconfirmed,
            match r {
                Option::Some(b) => old(self)@.outgoing.len() > 0 && b@ == old(
                    self,
                )@.outgoing.first() && final(self)@.outgoing == old(self)@.outgoing.drop_first(),
                Option::None => old(self)@.outgoing.len() == 0 && final(self)@.outgoing == old(
                    self,
                )@.outgoing,
            },
    {
        if self.outgoing.len() == 0 {
            None
        } else {
            let b = self.outgoing.remove(0);
            proof {
                assert(self@.outgoing =~~= old(self)@.outgoing.drop_first());
            }
            Some(b)
        }
    }

    /// Put a partially written buffer back at the head of the outgoing
    /// queue, to be resumed on the next writable event.
    pub fn push_front_outgoing(&mut self, b: Vec<u8>)
        ensures
            final(self)@.incoming == old(self)@.incoming,
            final(self)@.unconfirmed == old(self)@.unconfirmed,
            final(self)@.outgoing == old(self)@.outgoing.insert(0, b@),
    {
        self.outgoing.insert(0, b);
        proof {
            assert(self@.outgoing =~~= old(self)@.outgoing.insert(0, b@));
        }
    }

    /// How many encoded responses wait to be written.
    pub fn outgoing_len(&self) -> (r: usize)
        ensures
            r == self@.outgoing.len(),
    {
        self.outgoing.len()
    }

    /// How many deliveries are unconfirmed.
    pub fn unconfirmed_len(&self) -> (r: usize)
        ensures
            r == self@.unconfirmed.len(),
    {
        self.unconfirmed.len()
    }
}

/// The timer request of one step, as a sequence of zero or one entries.
pub open spec fn timer_seq(t: Option<(MsgId, u64)>) -> Seq<(MsgId, u64)> {
    match t {
        Option::Some(p) => seq![p],
        Option::None => Seq::empty(),
    }
}

/// What processing a whole buffer does: the final queue collection and
/// unconfirmed entries, the bytes left undecoded, the encoded responses
/// appended in request order, the timers to arm, and whether a response
/// failed to encode (which is fatal for the connection).
#[verifier::ext_equal]
pub struct RunOut {
    pub qs: QueueSetModel,
    pub unconfirmed: Seq<UncModel>,
    pub incoming: Seq<u8>,
    pub outgoing: Seq<Seq<u8>>,
    pub timers: Seq<(MsgId, u64)>,
    pub failed: bool,
}

/// Decode and dispatch requests from the head of `buf` until the bytes
/// left are not a complete request, drawing the identifier for each
/// request from `ids`. One encoded response per request, in request
/// order; a response over the size bound stops processing with `failed`.
pub open spec fn run(
    qs: QueueSetModel,
    un: Seq<UncModel>,
    buf: Seq<u8>,
    ids: Seq<MsgId>,
) -> RunOut
    decreases buf.len(),
    via run_decreases
{
    match dec_req(buf) {
        Decoded::Done(m, n) => {
            let so = step(qs, un, m, ids.first());
            if enc_resp(so.resp).len() > MAX_SERVER_MESSAGE_LEN {
                RunOut {
                    qs: so.qs,
                    unconfirmed: so.unconfirmed,
                    incoming: buf.skip(n),
                    outgoing: Seq::empty(),
                    timers: timer_seq(so.timer),
                    failed: true,
                }
            } else {
                let rec = run(so.qs, so.unconfirmed, buf.skip(n), ids.drop_first());
                RunOut {
                    outgoing: seq![enc_resp(so.resp)] + rec.outgoing,
                    timers: timer_seq(so.timer) + rec.timers,
                    ..rec
                }
            }
        },
        _ => RunOut {
            qs,
            unconfirmed: un,
            incoming: buf,
            outgoing: Seq::empty(),
            timers: Seq::empty(),
            failed: false,
        },
    }
}

#[via_fn]
proof fn run_decreases(qs: QueueSetModel, un: Seq<UncModel>, buf: Seq<u8>, ids: Seq<MsgId>) {
    lemma_dec_req_consumes(buf);
}

/// Unfold one step of `run` when a request decodes at the head and the
/// identifier drawn for it stands first in the identifier sequence.
pub proof fn lemma_run_step(
    qs: QueueSetModel,
    un: Seq<UncModel>,
    buf: Seq<u8>,
    m: ReqModel,
    n: int,
    fresh: MsgId,
    ids_rest: Seq<MsgId>,
)
    requires
        dec_req(buf) == Decoded::Done(m, n),
    ensures
        ({
            let so = step(qs, un, m, fresh);
            let ids = seq![fresh] + ids_rest;
            if enc_resp(so.resp).len() > MAX_SERVER_MESSAGE_LEN {
                run(qs, un, buf, ids) == (RunOut {
                    qs: so.qs,
                    unconfirmed: so.unconfirmed,
                    incoming: buf.skip(n),
                    outgoing: Seq::empty(),
                    timers: timer_seq(so.timer),
                    failed: true,
                })
            } else {
                run(qs, un, buf, ids) == ({
                    let rec = run(so.qs, so.unconfirmed, buf.skip(n), ids_rest);
                    RunOut {
                        outgoing: seq![enc_resp(so.resp)] + rec.outgoing,
                        timers: timer_seq(so.timer) + rec.timers,
                        ..rec
                    }
                })
            }
        }),
{
    let ids = seq![fresh] + ids_rest;
    assert(ids.first() == fresh);
    assert_seqs_equal!(ids.drop_first() == ids_rest);
}

/// How one call that processes `buf` against the state `(qs0, c0)` with
/// identifiers `ids` relates to the state `(qs1, c1)` and results it
/// leaves behind.
pub open spec fn drain_post(
    qs0: QueueSetModel,
    c0: ConnModel,
    buf: Seq<u8>,
    ids: Seq<MsgId>,
    qs1: QueueSetModel,
    c1: ConnModel,
    timers: Seq<(MsgId, u64)>,
    res: Result<(), Error>,
) -> bool {
    let ro = run(qs0, c0.unconfirmed, buf, ids);
    &&& qs1 == ro.qs
    &&& c1.unconfirmed == ro.unconfirmed
    &&& c1.incoming == ro.incoming
    &&& c1.outgoing == c0.outgoing + ro.outgoing
    &&& timers == ro.timers
    &&& res == (if ro.failed {
        Result::<(), Error>::Err(Error::Encoding)
    } else {
        Result::<(), Error>::Ok(())
    })
}

/// How a readable event with the bytes `data` relates the old state to
/// the new one: the buffered and new bytes are processed as `run` says,
/// and a buffer over the request bound without a decodable request is
/// fatal.
pub open spec fn readable_post(
    qs0: QueueSetModel,
    c0: ConnModel,
    data: Seq<u8>,
    ids: Seq<MsgId>,
    qs1: QueueSetModel,
    c1: ConnModel,
    timers: Seq<(MsgId, u64)>,
    res: Result<(), Error>,
) -> bool {
    let ro = run(qs0, c0.unconfirmed, c0.incoming + data, ids);
    &&& qs1 == ro.qs
    &&& c1.unconfirmed == ro.unconfirmed
    &&& c1.incoming == ro.incoming
    &&& c1.outgoing == c0.outgoing + ro.outgoing
    &&& timers == ro.timers
    &&& res == (if ro.failed {
        Result::<(), Error>::Err(Error::Encoding)
    } else if ro.incoming.len() > MAX_CLIENT_MESSAGE_LEN {
        Result::<(), Error>::Err(Error::OverLongMessage)
    } else {
        Result::<(), Error>::Ok(())
    })
}

/// The bytes of `buf` from position `n` on.
pub(crate) fn drop_prefix(buf: &Vec<u8>, n: usize) -> (r: Vec<u8>)
    requires
        n <= buf@.len(),
    ensures
        r@ == buf@.skip(n as int),
{
    let mut r: Vec<u8> = Vec::new();
    let mut i: usize = n;
    while i < buf.len()
        invariant
            n <= i <= buf@.len(),
            r@ == buf@.subrange(n as int, i as int),
        decreases buf@.len() - i,
    {
        r.push(buf[i]);
        i = i + 1;
        proof {
            assert_seqs_equal!(buf@.subrange(n as int, i as int)
                == buf@.subrange(n as int, i - 1).push(buf@[i - 1]));
        }
    }
    proof {
        assert_seqs_equal!(buf@.subrange(n as int, buf@.len() as int) == buf@.skip(n as int));
    }
    r
}

impl Connection {
    /// Decode and dispatch every complete request at the head of `buf`,
    /// leaving the undecoded remainder as the incoming buffer.
    #[verifier::rlimit(100)]
    fn drain(&mut self, queues: &mut QueueSet, buf: Vec<u8>) -> (r: (
        Vec<(MsgId, u64)>,
        Result<(), Error>,
        Ghost<Seq<MsgId>>,
    ))
        requires
            unc_wf(old(self)@.unconfirmed, old(queues)@),
        ensures
            drain_post(
                old(queues)@,
                old(self)@,
                buf@,
                r.2@,
                final(queues)@,
                final(self)@,
                r.0@,
                r.1,
            ),
            unc_wf(final(self)@.unconfirmed, final(queues)@),
        decreases buf@.len(),
    {
        match ClientMessage::decode(buf.as_slice()) {
            Err(_) => {
                self.incoming = buf;
                let timers: Vec<(MsgId, u64)> = Vec::new();
                proof {
                    let ro = run(old(queues)@, old(self)@.unconfirmed, buf@, Seq::<MsgId>::empty());
                    assert(self@.outgoing =~~= old(self)@.outgoing + ro.outgoing);
                    assert(drain_post(
                        old(queues)@,
                        old(self)@,
                        buf@,
                        Seq::<MsgId>::empty(),
                        queues@,
                        self@,
                        timers@,
                        Result::<(), Error>::Ok(()),
                    ));
                }
                (timers, Ok(()), Ghost(Seq::<MsgId>::empty()))
            },
            Ok((msg, n)) => {
                let ghost qs0 = queues@;
                let ghost c0 = self@;
                let rest = drop_prefix(&buf, n);
                let fresh = fresh_id();
                let (resp, timer) = self.handle_request(queues, msg, fresh);
                let ghost so = step(qs0, c0.unconfirmed, msg@, fresh);
                match resp.encode() {
                    Err(_) => {
                        self.incoming = rest;
                        let mut timers: Vec<(MsgId, u64)> = Vec::new();
                        match timer {
                            Some(t) => timers.push(t),
                            None => {},
                        }
                        proof {
                            let ids = seq![fresh] + Seq::<MsgId>::empty();
                            lemma_run_step(
                                qs0,
                                c0.unconfirmed,
                                buf@,
                                msg@,
                                n as int,
                                fresh,
                                Seq::<MsgId>::empty(),
                            );
                            let ro = run(qs0, c0.unconfirmed, buf@, ids);
                            assert(timers@ =~~= timer_seq(so.timer));
                            assert(self@.outgoing =~~= c0.outgoing + ro.outgoing);
                            assert(drain_post(
                                qs0,
                                c0,
                                buf@,
                                ids,
                                queues@,
                                self@,
                                timers@,
                                Result::<(), Error>::Err(Error::Encoding),
                            ));
                        }
                        (timers, Err(Error::Encoding), Ghost(seq![fresh]
                            + Seq::<MsgId>::empty()))
                    },
                    Ok(enc) => {
                        self.outgoing.push(enc);
                        proof {
                            assert(self@.outgoing =~~= c0.outgoing.push(enc@));
                            assert(self@.unconfirmed == so.unconfirmed);
                        }
                        let ghost qs_mid = queues@;
                        let ghost c_mid = self@;
                        let (timers_rest, res, ids_rest_g) = self.drain(queues, rest);
                        let ghost timers_rest_v = timers_rest@;
                        let mut timers: Vec<(MsgId, u64)> = Vec::new();
                        match timer {
                            Some(t) => timers.push(t),
                            None => {},
                        }
                        let mut tr = timers_rest;
                        timers.append(&mut tr);
                        proof {
                            let ids_rest = ids_rest_g@;
                            let ids = seq![fresh] + ids_rest;
                            lemma_run_step(
                                qs0,
                                c0.unconfirmed,
                                buf@,
                                msg@,
                                n as int,
                                fresh,
                                ids_rest,
                            );
                            let rec = run(so.qs, so.unconfirmed, buf@.skip(n as int), ids_rest);
                            let ro = run(qs0, c0.unconfirmed, buf@, ids);
                            assert(ro.outgoing == seq![enc_resp(so.resp)] + rec.outgoing);
                            assert(ro.timers == timer_seq(so.timer) + rec.timers);
                            assert(timers@ =~~= timer_seq(so.timer) + rec.timers);
                            assert(self@.outgoing =~~= c0.outgoing + ro.outgoing);
                            assert(drain_post(qs0, c0, buf@, ids, queues@, self@, timers@, res));
                        }
                        (timers, res, Ghost(seq![fresh] + ids_rest_g@))
                    },
                }
            },
        }
    }

    /// Handle a readable event: take the bytes just read from the
    /// stream, decode and dispatch every complete request, and queue one
    /// encoded response per request, in request order. Returns the
    /// redelivery timers to arm and whether the connection must be
    /// dropped: because a response could not be encoded, or because the
    /// peer sent more than the largest request without a decodable one.
    pub fn readable(&mut self, queues: &mut QueueSet, data: &[u8]) -> (r: (
        Vec<(MsgId, u64)>,
        Result<(), Error>,
        Ghost<Seq<MsgId>>,
    ))
        requires
            unc_wf(old(self)@.unconfirmed, old(queues)@),
        ensures
            readable_post(
                old(queues)@,
                old(self)@,
                data@,
                r.2@,
                final(queues)@,
                final(self)@,
                r.0@,
                r.1,
            ),
            unc_wf(final(self)@.unconfirmed, final(queues)@),
    {
        let mut buf = copy_bytes(self.incoming.as_slice());
        push_bytes(&mut buf, data);
        let ghost c0 = self@;
        let (timers, res, ids_g) = self.drain(queues, buf);
        proof {
            assert(c0.incoming + data@ == buf@);
        }
        match res {
            Err(e) => (timers, Err(e), ids_g),
            Ok(()) => {
                if self.incoming.len() as u64 > MAX_CLIENT_MESSAGE_LEN {
                    (timers, Err(Error::OverLongMessage), ids_g)
                } else {
                    (timers, Ok(()), ids_g)
                }
            },
        }
    }
}

} // verus!
