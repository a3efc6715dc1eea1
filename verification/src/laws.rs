//! Laws of the broker, stated over the dispatch model and proved once
//! for every state they speak of.

use vstd::prelude::*;
use crate::msg::{MsgId, ReqModel, RespModel};
use crate::queue::{QueueSetModel, SlotModel, MsgModel, find_live_from, lemma_find_live_from};
use crate::connection::{
    UncModel, PendingState, StepOut, step, timer_step, upsert_unc, find_unc, find_unc_from,
    lemma_find_unc_from, run, lemma_run_step, unc_wf,
};
use crate::codec::{enc_req, enc_resp, req_fits, MAX_SERVER_MESSAGE_LEN, dec_req, Decoded};
use vstd::assert_seqs_equal;

verus! {

/// Dispatch a sequence of requests in order, drawing the i-th identifier
/// for the i-th request; collects the responses in request order.
pub open spec fn steps(
    qs: QueueSetModel,
    un: Seq<UncModel>,
    reqs: Seq<ReqModel>,
    ids: Seq<MsgId>,
) -> (QueueSetModel, Seq<UncModel>, Seq<RespModel>)
    decreases reqs.len(),
{
    if reqs.len() == 0 {
        (qs, un, Seq::empty())
    } else {
        let so = step(qs, un, reqs.first(), ids.first());
        let rest = steps(so.qs, so.unconfirmed, reqs.drop_first(), ids.drop_first());
        (rest.0, rest.1, seq![so.resp] + rest.2)
    }
}

/// Lookup by name sees only names and liveness: two slot sequences that
/// agree on those agree on every lookup.
proof fn lemma_find_live_congruent(a: Seq<SlotModel>, b: Seq<SlotModel>, name: Seq<u8>, i: int)
    requires
        0 <= i,
        a.len() == b.len(),
        forall|j: int| 0 <= j < a.len() ==> a[j].name == b[j].name && a[j].live == b[j].live,
    ensures
        find_live_from(a, name, i) == find_live_from(b, name, i),
    decreases a.len() - i,
{
    if i < a.len() {
        lemma_find_live_congruent(a, b, name, i + 1);
    }
}

/// Enqueuing, requeuing and dequeuing leave every lookup unchanged.
proof fn lemma_find_live_after_items(qs: QueueSetModel, qs2: QueueSetModel, name: Seq<u8>)
    requires
        qs2.slots.len() == qs.slots.len(),
        forall|j: int|
            0 <= j < qs.slots.len() ==> qs2.slots[j].name == qs.slots[j].name
                && qs2.slots[j].live == qs.slots[j].live,
    ensures
        qs2.find_live(name) == qs.find_live(name),
{
    lemma_find_live_congruent(qs.slots, qs2.slots, name, 0);
}

/// Capacity rejection returns the payload: an Enqueue on a full bounded
/// queue answers Full with the submitted identifier and payload, and
/// changes nothing.
pub proof fn lemma_full_returns_payload(
    qs: QueueSetModel,
    un: Seq<UncModel>,
    name: Seq<u8>,
    data: Seq<u8>,
    fresh: MsgId,
)
    requires
        qs.find_live(name) is Some,
        !qs.accepts(qs.find_live(name)->Some_0),
    ensures
        step(qs, un, ReqModel::Enqueue(name, data), fresh) == (StepOut {
            qs,
            unconfirmed: un,
            resp: RespModel::Full(fresh, data),
            timer: Option::None,
        }),
{
}

/// After a queue is deleted, it cannot be found by name again, and a
/// Read or an Enqueue for that name answers NoSuchEntity.
pub proof fn lemma_deleted_queue(
    qs: QueueSetModel,
    un: Seq<UncModel>,
    un2: Seq<UncModel>,
    name: Seq<u8>,
    data: Seq<u8>,
    timeout: u64,
    x: MsgId,
    y: MsgId,
    z: MsgId,
)
    requires
        qs.wf(),
    ensures
        ({
            let so = step(qs, un, ReqModel::DeleteQueue(name), x);
            &&& so.qs.find_live(name) is None
            &&& step(so.qs, un2, ReqModel::Read(name, timeout), y).resp
                == RespModel::NoSuchEntity
            &&& step(so.qs, un2, ReqModel::Read(name, timeout), y).qs == so.qs
            &&& step(so.qs, un2, ReqModel::Enqueue(name, data), z).resp
                == RespModel::NoSuchEntity
            &&& step(so.qs, un2, ReqModel::Enqueue(name, data), z).qs == so.qs
        }),
{
    let so = step(qs, un, ReqModel::DeleteQueue(name), x);
    match qs.find_live(name) {
        Option::Some(q) => {
            lemma_find_live_from(qs.slots, name, 0);
            lemma_none_when_no_live_match(so.qs.slots, name, 0, q);
        },
        Option::None => {
            lemma_none_live_stays_none(qs.slots, name, 0);
        },
    }
}

/// If no slot at or after `i` is live with this name, except possibly a
/// dead one at `q`, the lookup from `i` finds nothing.
proof fn lemma_none_when_no_live_match(slots: Seq<SlotModel>, name: Seq<u8>, i: int, q: int)
    requires
        0 <= i,
        0 <= q < slots.len(),
        !slots[q].live,
        forall|j: int|
            0 <= j < slots.len() && j != q && #[trigger] slots[j].live ==> slots[j].name != name,
    ensures
        find_live_from(slots, name, i) is None,
    decreases slots.len() - i,
{
    if i < slots.len() {
        lemma_none_when_no_live_match(slots, name, i + 1, q);
    }
}

/// A name that finds nothing still finds nothing: helper for the case
/// where the deleted queue never existed.
proof fn lemma_none_live_stays_none(slots: Seq<SlotModel>, name: Seq<u8>, i: int)
    requires
        find_live_from(slots, name, 0) is None,
        0 <= i,
    ensures
        find_live_from(slots, name, i) is None,
    decreases slots.len() - i,
{
    if i < slots.len() {
        lemma_none_live_stays_none(slots, name, i + 1);
        if find_live_from(slots, name, i) is Some {
            lemma_some_found_earlier(slots, name, 0, i);
        }
    }
}

/// If the lookup from `i` finds a slot, the lookup from any earlier
/// position finds one too.
proof fn lemma_some_found_earlier(slots: Seq<SlotModel>, name: Seq<u8>, j: int, i: int)
    requires
        0 <= j <= i,
        find_live_from(slots, name, i) is Some,
    ensures
        find_live_from(slots, name, j) is Some,
    decreases i - j,
{
    if j < i {
        lemma_some_found_earlier(slots, name, j + 1, i);
    }
}

/// An upsert leaves the entry looked up by its identifier in flight.
proof fn lemma_find_after_upsert(un: Seq<UncModel>, e: UncModel)
    ensures
        ({
            let un2 = upsert_unc(un, e);
            &&& find_unc(un2, e.id) matches Option::Some(k) && un2[k] == e
        }),
{
    match find_unc(un, e.id) {
        Option::Some(k) => {
            lemma_find_unc_from(un, e.id, 0);
            let un2 = un.update(k, e);
            lemma_find_unc_prefix_same(un, un2, e.id, 0, k);
        },
        Option::None => {
            let un2 = un.push(e);
            lemma_find_unc_push(un, e, 0);
        },
    }
}

/// Two entry sequences that agree before `k` and whose `k`-th entries
/// carry the same identifier agree on where that identifier is found,
/// when it is found at or before `k`.
proof fn lemma_find_unc_prefix_same(
    a: Seq<UncModel>,
    b: Seq<UncModel>,
    id: MsgId,
    i: int,
    k: int,
)
    requires
        0 <= i <= k < a.len(),
        a.len() == b.len(),
        forall|j: int| 0 <= j < a.len() && j != k ==> a[j] == b[j],
        a[k].id == id,
        b[k].id == id,
        find_unc_from(a, id, i) == Option::Some(k),
    ensures
        find_unc_from(b, id, i) == Option::Some(k),
    decreases k - i,
{
    if i < k {
        lemma_find_unc_prefix_same(a, b, id, i + 1, k);
    }
}

/// Looking up the identifier of a pushed entry finds an entry with that
/// identifier.
proof fn lemma_find_unc_push(un: Seq<UncModel>, e: UncModel, i: int)
    requires
        0 <= i <= un.len(),
        find_unc_from(un, e.id, i) is None,
    ensures
        find_unc_from(un.push(e), e.id, i) == Option::Some(un.len() as int),
    decreases un.len() - i,
{
    if i < un.len() {
        lemma_find_unc_push(un, e, i + 1);
    }
}

/// Requeue-to-head, for the single-threaded configuration: enqueue `a`
/// then `b` on a queue, read (which yields `a`), let the redelivery
/// timer fire unconfirmed; the next read yields `a` again, before `b`.
pub proof fn lemma_requeue_to_head(
    qs: QueueSetModel,
    un: Seq<UncModel>,
    name: Seq<u8>,
    pa: Seq<u8>,
    pb: Seq<u8>,
    timeout: u64,
    ida: MsgId,
    idb: MsgId,
    x: MsgId,
    y: MsgId,
)
    requires
        qs.front_requeue,
        qs.capacity is None,
        qs.find_live(name) matches Option::Some(q) && qs.slots[q].items.len() == 0,
    ensures
        ({
            let s1 = step(qs, un, ReqModel::Enqueue(name, pa), ida);
            let s2 = step(s1.qs, s1.unconfirmed, ReqModel::Enqueue(name, pb), idb);
            let s3 = step(s2.qs, s2.unconfirmed, ReqModel::Read(name, timeout), x);
            let after = timer_step(s3.qs, s3.unconfirmed, ida);
            let s5 = step(after.0, after.1, ReqModel::Read(name, timeout), y);
            &&& s3.resp == RespModel::Read(ida, pa)
            &&& s5.resp == RespModel::Read(ida, pa)
        }),
{
    let q = qs.find_live(name)->Some_0;
    lemma_find_live_from(qs.slots, name, 0);
    let ma = MsgModel { id: ida, data: pa };
    let mb = MsgModel { id: idb, data: pb };

    let s1 = step(qs, un, ReqModel::Enqueue(name, pa), ida);
    assert(s1.qs == qs.enq(q, ma));
    lemma_find_live_after_items(qs, s1.qs, name);

    let s2 = step(s1.qs, s1.unconfirmed, ReqModel::Enqueue(name, pb), idb);
    assert(s2.qs == s1.qs.enq(q, mb));
    lemma_find_live_after_items(qs, s2.qs, name);
    assert(s2.qs.slots[q].items =~~= seq![ma, mb]);

    let s3 = step(s2.qs, s2.unconfirmed, ReqModel::Read(name, timeout), x);
    assert(s2.qs.head(q) == Option::Some(ma));
    assert(s3.resp == RespModel::Read(ida, pa));
    assert(s3.qs == s2.qs.deq(q));
    assert(s3.qs.slots[q].items =~~= seq![mb]);
    lemma_find_live_after_items(qs, s3.qs, name);

    let ea = UncModel { id: ida, qid: q, data: pa, state: PendingState::InFlight };
    assert(s3.unconfirmed == upsert_unc(s2.unconfirmed, ea));
    lemma_find_after_upsert(s2.unconfirmed, ea);

    let after = timer_step(s3.qs, s3.unconfirmed, ida);
    assert(after.0 == s3.qs.rq(q, MsgModel { id: ida, data: pa }));
    assert(after.0.slots[q].items =~~= seq![ma, mb]);
    lemma_find_live_after_items(qs, after.0, name);

    let s5 = step(after.0, after.1, ReqModel::Read(name, timeout), y);
    assert(after.0.head(q) == Option::Some(ma));
    assert(s5.resp == RespModel::Read(ida, pa));
}

/// The requests that enqueue these payloads on the named queue, in order.
pub open spec fn enq_reqs(name: Seq<u8>, ps: Seq<Seq<u8>>) -> Seq<ReqModel> {
    Seq::new(ps.len(), |i: int| ReqModel::Enqueue(name, ps[i]))
}

/// `k` Read requests for the named queue.
pub open spec fn read_reqs(name: Seq<u8>, timeout: u64, k: nat) -> Seq<ReqModel> {
    Seq::new(k, |i: int| ReqModel::Read(name, timeout))
}

/// The messages that pair the i-th payload with the i-th identifier.
pub open spec fn paired_msgs(ps: Seq<Seq<u8>>, ids: Seq<MsgId>) -> Seq<MsgModel> {
    Seq::new(ps.len(), |i: int| MsgModel { id: ids[i], data: ps[i] })
}

/// On an unbounded collection, a sequence of enqueues appends exactly
/// the paired messages to the named queue, answers ObjectQueued with the
/// drawn identifiers in order, and touches nothing else.
pub proof fn lemma_enqueues_append(
    qs: QueueSetModel,
    un: Seq<UncModel>,
    name: Seq<u8>,
    ps: Seq<Seq<u8>>,
    ids: Seq<MsgId>,
)
    requires
        qs.capacity is None,
        qs.find_live(name) is Some,
        ids.len() == ps.len(),
    ensures
        ({
            let q = qs.find_live(name)->Some_0;
            let st = steps(qs, un, enq_reqs(name, ps), ids);
            &&& st.0.slots.len() == qs.slots.len()
            &&& st.0.slots[q].items == qs.slots[q].items + paired_msgs(ps, ids)
            &&& forall|j: int| 0 <= j < qs.slots.len() && j != q ==> st.0.slots[j] == qs.slots[j]
            &&& st.0.capacity == qs.capacity
            &&& st.0.front_requeue == qs.front_requeue
            &&& st.0.find_live(name) == qs.find_live(name)
            &&& st.1 == un
            &&& st.2 == Seq::new(ps.len(), |i: int| RespModel::ObjectQueued(ids[i]))
        }),
    decreases ps.len(),
{
    let q = qs.find_live(name)->Some_0;
    lemma_find_live_from(qs.slots, name, 0);
    let reqs = enq_reqs(name, ps);
    let st = steps(qs, un, reqs, ids);
    if ps.len() == 0 {
        assert(st.0.slots[q].items =~~= qs.slots[q].items + paired_msgs(ps, ids));
        assert(st.2 =~~= Seq::new(ps.len(), |i: int| RespModel::ObjectQueued(ids[i])));
    } else {
        let m0 = MsgModel { id: ids[0], data: ps[0] };
        assert(reqs.first() == ReqModel::Enqueue(name, ps[0]));
        let so = step(qs, un, reqs.first(), ids.first());
        assert(so.qs == qs.enq(q, m0));
        lemma_find_live_after_items(qs, so.qs, name);
        assert_seqs_equal!(reqs.drop_first() == enq_reqs(name, ps.drop_first()));
        assert_seqs_equal!(ids.drop_first() == ids.drop_first());
        lemma_enqueues_append(so.qs, un, name, ps.drop_first(), ids.drop_first());
        let st_rest = steps(so.qs, un, enq_reqs(name, ps.drop_first()), ids.drop_first());
        assert(st.0 == st_rest.0 && st.1 == st_rest.1);
        assert(st_rest.0.slots[q].items == so.qs.slots[q].items + paired_msgs(
            ps.drop_first(),
            ids.drop_first(),
        ));
        assert_seqs_equal!(
            so.qs.slots[q].items + paired_msgs(ps.drop_first(), ids.drop_first())
            == qs.slots[q].items + paired_msgs(ps, ids));
        assert forall|j: int| 0 <= j < qs.slots.len() && j != q implies st.0.slots[j]
            == qs.slots[j] by {
            assert(st_rest.0.slots[j] == so.qs.slots[j]);
            assert(so.qs.slots[j] == qs.slots[j]);
        }
        assert_seqs_equal!(st.2 == Seq::new(ps.len(), |i: int| RespModel::ObjectQueued(ids[i])));
    }
}

/// Reads drain a queue from the head: `k` Reads on a queue holding at
/// least `k` messages answer those messages in queue order and leave the
/// rest, touching no other queue.
pub proof fn lemma_reads_in_order(
    qs: QueueSetModel,
    un: Seq<UncModel>,
    name: Seq<u8>,
    timeout: u64,
    k: nat,
    ids: Seq<MsgId>,
)
    requires
        qs.find_live(name) is Some,
        k <= qs.slots[qs.find_live(name)->Some_0].items.len(),
        ids.len() == k,
    ensures
        ({
            let q = qs.find_live(name)->Some_0;
            let items = qs.slots[q].items;
            let st = steps(qs, un, read_reqs(name, timeout, k), ids);
            &&& st.0.slots.len() == qs.slots.len()
            &&& st.0.slots[q].items == items.skip(k as int)
            &&& forall|j: int| 0 <= j < qs.slots.len() && j != q ==> st.0.slots[j] == qs.slots[j]
            &&& st.0.capacity == qs.capacity
            &&& st.0.front_requeue == qs.front_requeue
            &&& st.2 == Seq::new(k, |i: int| RespModel::Read(items[i].id, items[i].data))
        }),
    decreases k,
{
    let q = qs.find_live(name)->Some_0;
    lemma_find_live_from(qs.slots, name, 0);
    let items = qs.slots[q].items;
    let reqs = read_reqs(name, timeout, k);
    let st = steps(qs, un, reqs, ids);
    if k == 0 {
        assert(st.0.slots[q].items =~~= items.skip(0));
        assert(st.2 =~~= Seq::new(k, |i: int| RespModel::Read(items[i].id, items[i].data)));
    } else {
        assert(reqs.first() == ReqModel::Read(name, timeout));
        let so = step(qs, un, reqs.first(), ids.first());
        assert(qs.head(q) == Option::Some(items[0]));
        assert(so.qs == qs.deq(q));
        assert(so.resp == RespModel::Read(items[0].id, items[0].data));
        lemma_find_live_after_items(qs, so.qs, name);
        assert_seqs_equal!(reqs.drop_first() == read_reqs(name, timeout, (k - 1) as nat));
        lemma_reads_in_order(so.qs, so.unconfirmed, name, timeout, (k - 1) as nat,
            ids.drop_first());
        let st_rest = steps(so.qs, so.unconfirmed, read_reqs(name, timeout, (k - 1) as nat),
            ids.drop_first());
        assert(st.0 == st_rest.0);
        assert(so.qs.slots[q].items == items.drop_first());
        assert forall|j: int| 0 <= j < qs.slots.len() && j != q implies st.0.slots[j]
            == qs.slots[j] by {
            assert(st_rest.0.slots[j] == so.qs.slots[j]);
            assert(so.qs.slots[j] == qs.slots[j]);
        }
        assert_seqs_equal!(items.drop_first().skip(k - 1) == items.skip(k as int));
        assert_seqs_equal!(st.2 == Seq::new(k, |i: int|
            RespModel::Read(items[i].id, items[i].data)));
    }
}

/// FIFO per queue, for the single-threaded configuration: enqueue any
/// payloads on an empty queue, then read as many times; the reads answer
/// exactly those payloads, in the order they were enqueued, each under
/// the identifier its enqueue was given.
pub proof fn lemma_fifo_per_queue(
    qs: QueueSetModel,
    un: Seq<UncModel>,
    name: Seq<u8>,
    ps: Seq<Seq<u8>>,
    timeout: u64,
    ids: Seq<MsgId>,
    ids2: Seq<MsgId>,
)
    requires
        qs.capacity is None,
        qs.find_live(name) is Some,
        qs.slots[qs.find_live(name)->Some_0].items.len() == 0,
        ids.len() == ps.len(),
        ids2.len() == ps.len(),
    ensures
        ({
            let st1 = steps(qs, un, enq_reqs(name, ps), ids);
            let st2 = steps(st1.0, st1.1, read_reqs(name, timeout, ps.len()), ids2);
            &&& st1.2 == Seq::new(ps.len(), |i: int| RespModel::ObjectQueued(ids[i]))
            &&& st2.2 == Seq::new(ps.len(), |i: int| RespModel::Read(ids[i], ps[i]))
        }),
{
    let q = qs.find_live(name)->Some_0;
    lemma_enqueues_append(qs, un, name, ps, ids);
    let st1 = steps(qs, un, enq_reqs(name, ps), ids);
    assert_seqs_equal!(st1.0.slots[q].items == paired_msgs(ps, ids));
    lemma_reads_in_order(st1.0, st1.1, name, timeout, ps.len(), ids2);
    let st2 = steps(st1.0, st1.1, read_reqs(name, timeout, ps.len()), ids2);
    assert_seqs_equal!(st2.2 == Seq::new(ps.len(), |i: int| RespModel::Read(ids[i], ps[i])));
}

/// The concatenated encodings of a sequence of requests.
pub open spec fn enc_all(ms: Seq<ReqModel>) -> Seq<u8>
    decreases ms.len(),
{
    if ms.len() == 0 {
        Seq::empty()
    } else {
        enc_req(ms.first()) + enc_all(ms.drop_first())
    }
}

/// Pipelining order: hand the processing loop the encodings of any
/// requests, back to back, and — provided every response fits on the
/// wire — it consumes them all and queues exactly the encoded responses
/// of those requests, in request order.
pub proof fn lemma_pipelining(
    qs: QueueSetModel,
    un: Seq<UncModel>,
    ms: Seq<ReqModel>,
    ids: Seq<MsgId>,
)
    requires
        forall|i: int| 0 <= i < ms.len() ==> req_fits(#[trigger] ms[i]),
        ids.len() == ms.len(),
    ensures
        ({
            let ro = run(qs, un, enc_all(ms), ids);
            let st = steps(qs, un, ms, ids);
            (forall|i: int|
                0 <= i < st.2.len() ==> enc_resp(#[trigger] st.2[i]).len()
                    <= MAX_SERVER_MESSAGE_LEN) ==> {
                &&& ro.outgoing == st.2.map_values(|m: RespModel| enc_resp(m))
                &&& !ro.failed
                &&& ro.incoming == Seq::<u8>::empty()
                &&& ro.qs == st.0
                &&& ro.unconfirmed == st.1
            }
        }),
    decreases ms.len(),
{
    let buf = enc_all(ms);
    let ro = run(qs, un, buf, ids);
    let st = steps(qs, un, ms, ids);
    if ms.len() == 0 {
        reveal(dec_req);
        assert(dec_req(buf) is More);
        assert(st.2.map_values(|m: RespModel| enc_resp(m)) =~~= Seq::<Seq<u8>>::empty());
    } else {
        let m0 = ms.first();
        let n0 = enc_req(m0).len() as int;
        crate::codec::lemma_req_roundtrip(m0, enc_all(ms.drop_first()));
        assert(dec_req(buf) == Decoded::Done(m0, n0));
        let so = step(qs, un, m0, ids.first());
        assert(st.2 == seq![so.resp] + steps(so.qs, so.unconfirmed, ms.drop_first(),
            ids.drop_first()).2);
        if forall|i: int|
            0 <= i < st.2.len() ==> enc_resp(#[trigger] st.2[i]).len() <= MAX_SERVER_MESSAGE_LEN {
            assert(st.2[0] == so.resp);
            assert(enc_resp(so.resp).len() <= MAX_SERVER_MESSAGE_LEN);
            assert_seqs_equal!(seq![ids.first()] + ids.drop_first() == ids);
            lemma_run_step(qs, un, buf, m0, n0, ids.first(), ids.drop_first());
            assert_seqs_equal!(buf.skip(n0) == enc_all(ms.drop_first()));
            lemma_pipelining(so.qs, so.unconfirmed, ms.drop_first(), ids.drop_first());
            let st_rest = steps(so.qs, so.unconfirmed, ms.drop_first(), ids.drop_first());
            assert(forall|i: int|
                0 <= i < st_rest.2.len() ==> enc_resp(#[trigger] st_rest.2[i]).len()
                    <= MAX_SERVER_MESSAGE_LEN) by {
                assert(forall|i: int|
                    0 <= i < st_rest.2.len() ==> #[trigger] st_rest.2[i] == st.2[i + 1]);
            }
            let rec = run(so.qs, so.unconfirmed, buf.skip(n0), ids.drop_first());
            assert(rec.outgoing == st_rest.2.map_values(|m: RespModel| enc_resp(m)));
            assert_seqs_equal!(seq![enc_resp(so.resp)] + rec.outgoing
                == st.2.map_values(|m: RespModel| enc_resp(m)));
        }
    }
}

/// Whether this identifier sits in some queue of the collection.
pub open spec fn id_in_queues(qs: QueueSetModel, id: MsgId) -> bool {
    exists|i: int, k: int|
        0 <= i < qs.slots.len() && 0 <= k < qs.slots[i].items.len()
            && (#[trigger] qs.slots[i].items[k]).id == id
}

/// The identifier invariant of a queue collection and one connection's
/// unconfirmed entries:
/// - an identifier appears at most once across all queues;
/// - an entry whose payload is not back in a queue — in flight, or kept
///   after a failed requeue — holds an identifier that is in no queue
///   (an entry whose timer requeued its payload still sits in the map,
///   with its identifier back in the queue, until Confirm observes it);
/// - entry identifiers are pairwise distinct.
pub open spec fn sys_wf(qs: QueueSetModel, un: Seq<UncModel>) -> bool {
    &&& forall|i: int, k: int, j: int, l: int|
        0 <= i < qs.slots.len() && 0 <= k < qs.slots[i].items.len() && 0 <= j < qs.slots.len()
            && 0 <= l < qs.slots[j].items.len() && !(i == j && k == l)
            ==> (#[trigger] qs.slots[i].items[k]).id != (#[trigger] qs.slots[j].items[l]).id
    &&& forall|m: int|
        0 <= m < un.len() && !((#[trigger] un[m]).state is RequeuedOk) ==> !id_in_queues(
            qs,
            un[m].id,
        )
    &&& forall|m: int, n: int|
        0 <= m < n < un.len() ==> (#[trigger] un[m]).id != (#[trigger] un[n]).id
}

/// An identifier nowhere in the collection nor among the entries.
pub open spec fn id_fresh(qs: QueueSetModel, un: Seq<UncModel>, id: MsgId) -> bool {
    &&& !id_in_queues(qs, id)
    &&& forall|m: int| 0 <= m < un.len() ==> (#[trigger] un[m]).id != id
}

/// At most one unconfirmed delivery per identifier: in a well-formed
/// state, an in-flight identifier is in no queue and in no other entry.
pub proof fn lemma_at_most_one_unconfirmed(qs: QueueSetModel, un: Seq<UncModel>, m: int)
    requires
        sys_wf(qs, un),
        0 <= m < un.len(),
        un[m].state is InFlight,
    ensures
        !id_in_queues(qs, un[m].id),
        forall|n: int| 0 <= n < un.len() && n != m ==> (#[trigger] un[n]).id != un[m].id,
{
}

/// A failed lookup means no entry at or after `i` has the identifier.
proof fn lemma_find_unc_none_no_match(un: Seq<UncModel>, id: MsgId, i: int)
    requires
        0 <= i,
        find_unc_from(un, id, i) is None,
    ensures
        forall|m: int| i <= m < un.len() ==> (#[trigger] un[m]).id != id,
    decreases un.len() - i,
{
    if i < un.len() {
        lemma_find_unc_none_no_match(un, id, i + 1);
    }
}

/// A collection whose queues hold the same messages, possibly with
/// fresh empty queues added, satisfies the same identifier invariant.
proof fn lemma_same_items_sys_wf(qs1: QueueSetModel, qs2: QueueSetModel, un: Seq<UncModel>)
    requires
        sys_wf(qs1, un),
        qs2.slots.len() >= qs1.slots.len(),
        forall|i: int|
            0 <= i < qs1.slots.len() ==> (#[trigger] qs2.slots[i]).items == qs1.slots[i].items,
        forall|i: int|
            qs1.slots.len() <= i < qs2.slots.len() ==> (#[trigger] qs2.slots[i]).items.len() == 0,
    ensures
        sys_wf(qs2, un),
{
    assert forall|i: int, k: int, j: int, l: int|
        0 <= i < qs2.slots.len() && 0 <= k < qs2.slots[i].items.len() && 0 <= j
            < qs2.slots.len() && 0 <= l < qs2.slots[j].items.len() && !(i == j && k == l)
        implies (#[trigger] qs2.slots[i].items[k]).id != (#[trigger] qs2.slots[j].items[l]).id by {
        assert(i < qs1.slots.len() && j < qs1.slots.len());
        assert(qs1.slots[i].items[k].id != qs1.slots[j].items[l].id);
    }
    assert forall|m: int| 0 <= m < un.len() && !((#[trigger] un[m]).state is RequeuedOk)
        implies !id_in_queues(qs2, un[m].id) by {
        if id_in_queues(qs2, un[m].id) {
            let (i, k) = choose|i: int, k: int|
                0 <= i < qs2.slots.len() && 0 <= k < qs2.slots[i].items.len()
                    && (#[trigger] qs2.slots[i].items[k]).id == un[m].id;
            assert(i < qs1.slots.len());
            assert(qs1.slots[i].items[k].id == un[m].id);
            assert(id_in_queues(qs1, un[m].id));
        }
    }
}

/// Putting a message whose identifier is in no queue into a queue, at
/// either end, keeps the identifier invariant, provided no entry other
/// than possibly `exempt` carries that identifier.
proof fn lemma_insert_msg_sys_wf(
    qs1: QueueSetModel,
    qs2: QueueSetModel,
    un: Seq<UncModel>,
    q: int,
    m: MsgModel,
    at: int,
)
    requires
        sys_wf(qs1, un),
        !id_in_queues(qs1, m.id),
        forall|n: int|
            0 <= n < un.len() && !((#[trigger] un[n]).state is RequeuedOk) ==> un[n].id != m.id,
        0 <= q < qs1.slots.len(),
        qs2.slots.len() == qs1.slots.len(),
        0 <= at <= qs1.slots[q].items.len(),
        qs2.slots[q].items == qs1.slots[q].items.insert(at, m),
        forall|i: int|
            0 <= i < qs1.slots.len() && i != q ==> (#[trigger] qs2.slots[i]).items
                == qs1.slots[i].items,
    ensures
        sys_wf(qs2, un),
{
    let to1 = |i: int, k: int| if i == q && k >= at { k + 1 } else { k as int };
    assert forall|i: int, k: int|
        0 <= i < qs2.slots.len() && 0 <= k < qs2.slots[i].items.len() && !(i == q && k == at)
        implies qs2.slots[i].items[k] == qs1.slots[i].items[if i == q && k > at {
        k - 1
    } else {
        k as int
    }] by {}
    assert forall|i: int, k: int, j: int, l: int|
        0 <= i < qs2.slots.len() && 0 <= k < qs2.slots[i].items.len() && 0 <= j
            < qs2.slots.len() && 0 <= l < qs2.slots[j].items.len() && !(i == j && k == l)
        implies (#[trigger] qs2.slots[i].items[k]).id != (#[trigger] qs2.slots[j].items[l]).id by {
        if i == q && k == at {
            if !(j == q && l == at) {
                let l1: int = if j == q && l > at { l - 1 } else { l };
                assert(qs2.slots[j].items[l] == qs1.slots[j].items[l1]);
                if qs1.slots[j].items[l1].id == m.id {
                    assert(id_in_queues(qs1, m.id));
                }
            }
        } else if j == q && l == at {
            let k1: int = if i == q && k > at { k - 1 } else { k };
            assert(qs2.slots[i].items[k] == qs1.slots[i].items[k1]);
            if qs1.slots[i].items[k1].id == m.id {
                assert(id_in_queues(qs1, m.id));
            }
        } else {
            let k1: int = if i == q && k > at { k - 1 } else { k };
            let l1: int = if j == q && l > at { l - 1 } else { l };
            assert(qs2.slots[i].items[k] == qs1.slots[i].items[k1]);
            assert(qs2.slots[j].items[l] == qs1.slots[j].items[l1]);
            assert(!(i == j && k1 == l1));
        }
    }
    assert forall|n: int| 0 <= n < un.len() && !((#[trigger] un[n]).state is RequeuedOk)
        implies !id_in_queues(qs2, un[n].id) by {
        if id_in_queues(qs2, un[n].id) {
            let (i, k) = choose|i: int, k: int|
                0 <= i < qs2.slots.len() && 0 <= k < qs2.slots[i].items.len()
                    && (#[trigger] qs2.slots[i].items[k]).id == un[n].id;
            if i == q && k == at {
                assert(un[n].id == m.id);
            } else {
                let k1: int = if i == q && k > at { k - 1 } else { k };
                assert(qs1.slots[i].items[k1].id == un[n].id);
                assert(id_in_queues(qs1, un[n].id));
            }
        }
    }
}

/// Dropping an entry keeps the identifier invariant.
proof fn lemma_remove_entry_sys_wf(qs: QueueSetModel, un: Seq<UncModel>, k: int)
    requires
        sys_wf(qs, un),
        0 <= k < un.len(),
    ensures
        sys_wf(qs, un.remove(k)),
{
    let rest = un.remove(k);
    assert forall|m: int| 0 <= m < rest.len() && !((#[trigger] rest[m]).state is RequeuedOk)
        implies !id_in_queues(qs, rest[m].id) by {
        if m < k {
            assert(rest[m] == un[m]);
        } else {
            assert(rest[m] == un[m + 1]);
        }
    }
    assert forall|m: int, n: int| 0 <= m < n < rest.len() implies (#[trigger] rest[m]).id
        != (#[trigger] rest[n]).id by {
        let m1: int = if m < k { m } else { m + 1 };
        let n1: int = if n < k { n } else { n + 1 };
        assert(rest[m] == un[m1]);
        assert(rest[n] == un[n1]);
    }
}

/// Removing the head of a queue keeps the identifier invariant.
proof fn lemma_deq_sys_wf(qs: QueueSetModel, un: Seq<UncModel>, q: int)
    requires
        sys_wf(qs, un),
        0 <= q < qs.slots.len(),
    ensures
        sys_wf(qs.deq(q), un),
{
    let qs2 = qs.deq(q);
    if qs.slots[q].items.len() == 0 {
    } else {
        assert forall|i: int, k: int|
            0 <= i < qs2.slots.len() && 0 <= k < qs2.slots[i].items.len()
            implies (#[trigger] qs2.slots[i].items[k]) == qs.slots[i].items[if i == q {
            k + 1
        } else {
            k as int
        }] by {}
        assert forall|i: int, k: int, j: int, l: int|
            0 <= i < qs2.slots.len() && 0 <= k < qs2.slots[i].items.len() && 0 <= j
                < qs2.slots.len() && 0 <= l < qs2.slots[j].items.len() && !(i == j && k == l)
            implies (#[trigger] qs2.slots[i].items[k]).id
                != (#[trigger] qs2.slots[j].items[l]).id by {
            let k1: int = if i == q { k + 1 } else { k };
            let l1: int = if j == q { l + 1 } else { l };
            assert(qs.slots[i].items[k1].id != qs.slots[j].items[l1].id);
        }
        assert forall|m: int| 0 <= m < un.len() && !((#[trigger] un[m]).state is RequeuedOk)
            implies !id_in_queues(qs2, un[m].id) by {
            if id_in_queues(qs2, un[m].id) {
                let (i, k) = choose|i: int, k: int|
                    0 <= i < qs2.slots.len() && 0 <= k < qs2.slots[i].items.len()
                        && (#[trigger] qs2.slots[i].items[k]).id == un[m].id;
                let k1: int = if i == q { k + 1 } else { k };
                assert(qs.slots[i].items[k1].id == un[m].id);
                assert(id_in_queues(qs, un[m].id));
            }
        }
    }
}

/// Dispatch preserves the identifier invariant, provided an Enqueue is
/// given an identifier that is nowhere yet — which the random draw
/// guarantees with overwhelming probability, not with certainty.
pub proof fn lemma_step_preserves_sys_wf(
    qs: QueueSetModel,
    un: Seq<UncModel>,
    req: ReqModel,
    fresh: MsgId,
)
    requires
        sys_wf(qs, un),
        unc_wf(un, qs),
        req is Enqueue ==> id_fresh(qs, un, fresh),
    ensures
        sys_wf(step(qs, un, req, fresh).qs, step(qs, un, req, fresh).unconfirmed),
{
    let so = step(qs, un, req, fresh);
    match req {
        ReqModel::CreateQueue(name) => {
            match qs.find_live(name) {
                Option::Some(q) => {},
                Option::None => {
                    lemma_same_items_sys_wf(qs, so.qs, un);
                },
            }
        },
        ReqModel::DeleteQueue(name) => {
            match qs.find_live(name) {
                Option::Some(q) => {
                    lemma_find_live_from(qs.slots, name, 0);
                    lemma_same_items_sys_wf(qs, so.qs, un);
                },
                Option::None => {},
            }
        },
        ReqModel::Enqueue(name, data) => {
            match qs.find_live(name) {
                Option::Some(q) => {
                    lemma_find_live_from(qs.slots, name, 0);
                    if qs.accepts(q) {
                        let m = MsgModel { id: fresh, data };
                        assert(so.qs.slots[q].items =~~= qs.slots[q].items.insert(
                            qs.slots[q].items.len() as int,
                            m,
                        ));
                        lemma_insert_msg_sys_wf(
                            qs,
                            so.qs,
                            un,
                            q,
                            m,
                            qs.slots[q].items.len() as int,
                        );
                    }
                },
                Option::None => {},
            }
        },
        ReqModel::Read(name, timeout) => {
            match qs.find_live(name) {
                Option::Some(q) => {
                    lemma_find_live_from(qs.slots, name, 0);
                    match qs.head(q) {
                        Option::Some(m0) => {
                            let e = UncModel {
                                id: m0.id,
                                qid: q,
                                data: m0.data,
                                state: PendingState::InFlight,
                            };
                            let qs2 = qs.deq(q);
                            let un2 = upsert_unc(un, e);
                            lemma_deq_sys_wf(qs, un, q);
                            assert(!id_in_queues(qs2, e.id)) by {
                                if id_in_queues(qs2, e.id) {
                                    let (i, k) = choose|i: int, k: int|
                                        0 <= i < qs2.slots.len() && 0 <= k
                                            < qs2.slots[i].items.len()
                                            && (#[trigger] qs2.slots[i].items[k]).id == e.id;
                                    let k1: int = if i == q { k + 1 } else { k };
                                    assert(qs.slots[i].items[k1].id == e.id);
                                    assert(qs.slots[q].items[0].id == e.id);
                                    assert(!(i == q && k1 == 0));
                                }
                            }
                            match find_unc(un, e.id) {
                                Option::Some(ke) => {
                                    lemma_find_unc_from(un, e.id, 0);
                                    assert forall|m: int|
                                        0 <= m < un2.len() && !((#[trigger] un2[m]).state
                                            is RequeuedOk)
                                        implies !id_in_queues(qs2, un2[m].id) by {
                                        if m != ke {
                                            assert(un2[m] == un[m]);
                                        }
                                    }
                                    assert forall|m: int, n: int| 0 <= m < n < un2.len()
                                        implies (#[trigger] un2[m]).id
                                            != (#[trigger] un2[n]).id by {
                                        assert(un2[m].id == un[m].id);
                                        assert(un2[n].id == un[n].id);
                                    }
                                },
                                Option::None => {
                                    lemma_find_unc_none_no_match(un, e.id, 0);
                                    assert forall|m: int|
                                        0 <= m < un2.len() && !((#[trigger] un2[m]).state
                                            is RequeuedOk)
                                        implies !id_in_queues(qs2, un2[m].id) by {
                                        if m < un.len() {
                                            assert(un2[m] == un[m]);
                                        }
                                    }
                                    assert forall|m: int, n: int| 0 <= m < n < un2.len()
                                        implies (#[trigger] un2[m]).id
                                            != (#[trigger] un2[n]).id by {
                                        if n < un.len() {
                                            assert(un2[m] == un[m] && un2[n] == un[n]);
                                        } else {
                                            assert(un2[m] == un[m] && un2[n] == e);
                                        }
                                    }
                                },
                            }
                        },
                        Option::None => {},
                    }
                },
                Option::None => {},
            }
        },
        ReqModel::Confirm(id) => {
            match find_unc(un, id) {
                Option::None => {},
                Option::Some(k) => {
                    lemma_find_unc_from(un, id, 0);
                    let e = un[k];
                    let rest = un.remove(k);
                    lemma_remove_entry_sys_wf(qs, un, k);
                    match e.state {
                        PendingState::InFlight => {},
                        PendingState::RequeuedOk => {},
                        PendingState::RequeueFailed => {
                            if qs.accepts(e.qid) {
                                let m = MsgModel { id: e.id, data: e.data };
                                assert(0 <= e.qid < qs.slots.len());
                                assert forall|n: int|
                                    0 <= n < rest.len() && !((#[trigger] rest[n]).state
                                        is RequeuedOk)
                                    implies rest[n].id != m.id by {
                                    let n1: int = if n < k { n } else { n + 1 };
                                    assert(rest[n] == un[n1]);
                                }
                                if qs.front_requeue {
                                    lemma_insert_msg_sys_wf(qs, so.qs, rest, e.qid, m, 0);
                                } else {
                                    assert(so.qs.slots[e.qid].items =~~= qs.slots[
                                        e.qid].items.insert(
                                        qs.slots[e.qid].items.len() as int,
                                        m,
                                    ));
                                    lemma_insert_msg_sys_wf(
                                        qs,
                                        so.qs,
                                        rest,
                                        e.qid,
                                        m,
                                        qs.slots[e.qid].items.len() as int,
                                    );
                                }
                            }
                        },
                    }
                },
            }
        },
    }
}

/// A fired redelivery timer preserves the identifier invariant.
pub proof fn lemma_timer_preserves_sys_wf(qs: QueueSetModel, un: Seq<UncModel>, id: MsgId)
    requires
        sys_wf(qs, un),
        unc_wf(un, qs),
    ensures
        sys_wf(timer_step(qs, un, id).0, timer_step(qs, un, id).1),
{
    let after = timer_step(qs, un, id);
    match find_unc(un, id) {
        Option::None => {},
        Option::Some(k) => {
            lemma_find_unc_from(un, id, 0);
            let e = un[k];
            if e.state is InFlight {
                if qs.accepts(e.qid) {
                    let m = MsgModel { id: e.id, data: e.data };
                    let un2 = un.update(
                        k,
                        UncModel { data: Seq::empty(), state: PendingState::RequeuedOk, ..e },
                    );
                    assert(sys_wf(qs, un2)) by {
                        assert forall|n: int|
                            0 <= n < un2.len() && !((#[trigger] un2[n]).state is RequeuedOk)
                            implies !id_in_queues(qs, un2[n].id) by {
                            assert(n != k);
                            assert(un2[n] == un[n]);
                        }
                        assert forall|n1: int, n2: int| 0 <= n1 < n2 < un2.len()
                            implies (#[trigger] un2[n1]).id != (#[trigger] un2[n2]).id by {
                            assert(un2[n1].id == un[n1].id && un2[n2].id == un[n2].id);
                        }
                    }
                    assert forall|n: int|
                        0 <= n < un2.len() && !((#[trigger] un2[n]).state is RequeuedOk)
                        implies un2[n].id != m.id by {
                        assert(n != k);
                        assert(un2[n].id == un[n].id);
                    }
                    if qs.front_requeue {
                        lemma_insert_msg_sys_wf(qs, after.0, un2, e.qid, m, 0);
                    } else {
                        assert(after.0.slots[e.qid].items =~~= qs.slots[e.qid].items.insert(
                            qs.slots[e.qid].items.len() as int,
                            m,
                        ));
                        lemma_insert_msg_sys_wf(
                            qs,
                            after.0,
                            un2,
                            e.qid,
                            m,
                            qs.slots[e.qid].items.len() as int,
                        );
                    }
                } else {
                    let un2 = un.update(k, UncModel { state: PendingState::RequeueFailed, ..e });
                    assert forall|n: int|
                        0 <= n < un2.len() && !((#[trigger] un2[n]).state is RequeuedOk)
                        implies !id_in_queues(qs, un2[n].id) by {
                        if n != k {
                            assert(un2[n] == un[n]);
                        } else {
                            assert(un2[n].id == un[k].id);
                        }
                    }
                    assert forall|n1: int, n2: int| 0 <= n1 < n2 < un2.len()
                        implies (#[trigger] un2[n1]).id != (#[trigger] un2[n2]).id by {
                        assert(un2[n1].id == un[n1].id && un2[n2].id == un[n2].id);
                    }
                }
            }
        },
    }
}

/// Dispatch preserves name well-formedness: live queue names stay
/// pairwise distinct, so every lookup stays unambiguous.
pub proof fn lemma_step_preserves_qs_wf(
    qs: QueueSetModel,
    un: Seq<UncModel>,
    req: ReqModel,
    fresh: MsgId,
)
    requires
        qs.wf(),
        unc_wf(un, qs),
    ensures
        step(qs, un, req, fresh).qs.wf(),
{
    let so = step(qs, un, req, fresh);
    match req {
        ReqModel::CreateQueue(name) => {
            match qs.find_live(name) {
                Option::Some(q) => {},
                Option::None => {
                    lemma_no_find_no_live_match(qs.slots, name, 0);
                    let slots2 = so.qs.slots;
                    assert forall|i: int, j: int|
                        0 <= i < j < slots2.len() && slots2[i].live && slots2[j].live
                        implies slots2[i].name != slots2[j].name by {
                        if j < qs.slots.len() {
                            assert(slots2[i] == qs.slots[i] && slots2[j] == qs.slots[j]);
                        } else {
                            assert(slots2[i] == qs.slots[i]);
                            assert(slots2[j].name == name);
                        }
                    }
                },
            }
        },
        ReqModel::DeleteQueue(name) => {
            match qs.find_live(name) {
                Option::Some(q) => {
                    lemma_find_live_from(qs.slots, name, 0);
                    let slots2 = so.qs.slots;
                    assert forall|i: int, j: int|
                        0 <= i < j < slots2.len() && slots2[i].live && slots2[j].live
                        implies slots2[i].name != slots2[j].name by {
                        assert(i != q && j != q);
                        assert(slots2[i] == qs.slots[i] && slots2[j] == qs.slots[j]);
                    }
                },
                Option::None => {},
            }
        },
        ReqModel::Enqueue(name, data) => {
            match qs.find_live(name) {
                Option::Some(q) => {
                    lemma_find_live_from(qs.slots, name, 0);
                    if qs.accepts(q) {
                        lemma_items_only_wf(qs, so.qs);
                    }
                },
                Option::None => {},
            }
        },
        ReqModel::Read(name, timeout) => {
            match qs.find_live(name) {
                Option::Some(q) => {
                    lemma_find_live_from(qs.slots, name, 0);
                    if qs.head(q) is Some {
                        lemma_items_only_wf(qs, so.qs);
                    }
                },
                Option::None => {},
            }
        },
        ReqModel::Confirm(id) => {
            match find_unc(un, id) {
                Option::Some(k) => {
                    lemma_find_unc_from(un, id, 0);
                    if un[k].state is RequeueFailed && qs.accepts(un[k].qid) {
                        lemma_items_only_wf(qs, so.qs);
                    }
                },
                Option::None => {},
            }
        },
    }
}

/// A failed lookup means no live slot carries the name.
proof fn lemma_no_find_no_live_match(slots: Seq<SlotModel>, name: Seq<u8>, i: int)
    requires
        0 <= i,
        find_live_from(slots, name, i) is None,
    ensures
        forall|j: int| i <= j < slots.len() && (#[trigger] slots[j]).live ==> slots[j].name
            != name,
    decreases slots.len() - i,
{
    if i < slots.len() {
        lemma_no_find_no_live_match(slots, name, i + 1);
    }
}

/// A collection whose slots keep their names and liveness keeps name
/// well-formedness, whatever happened to the messages.
proof fn lemma_items_only_wf(qs: QueueSetModel, qs2: QueueSetModel)
    requires
        qs.wf(),
        qs2.slots.len() == qs.slots.len(),
        forall|j: int|
            0 <= j < qs.slots.len() ==> (#[trigger] qs2.slots[j]).name == qs.slots[j].name
                && qs2.slots[j].live == qs.slots[j].live,
    ensures
        qs2.wf(),
{
    assert forall|i: int, j: int|
        0 <= i < j < qs2.slots.len() && qs2.slots[i].live && qs2.slots[j].live
        implies qs2.slots[i].name != qs2.slots[j].name by {
        assert(qs.slots[i].live && qs.slots[j].live);
    }
}

} // verus!
