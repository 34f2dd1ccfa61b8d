//! The queue of one topic: a message store, an index store, a sequence
//! counter and a scheduler, kept coherent by enqueue, dequeue, ack and nack.
use crate::codec::{
    decode_index, decode_request, encode_index, encode_request, index_bytes, index_fields,
    is_index_record,
    request_bytes,
    EnqueueRequest, RequestView,
};
use crate::kv::{
    first_page, in_range, lemma_lex_below_push_zero, lemma_lex_total, lemma_lex_trans,
    lemma_nonempty_not_below_zero, lex_lt, ordered_entries_of, pairs_view, range_listing, KvError,
    KvStore,
};
use crate::utils::{
    be8, be_value, decimal, lemma_be_round_trip, msgid_from_u64,
    msgid_to_str, msgid_to_u64, parses_as, u64_to_decimal,
};
use crate::worker::{
    entry_of, sat_add, Entry, QueueStats, SchedulerView, TaskItem,
    Worker,
};
use vstd::prelude::*;
use vstd::string::StringExecFns;

verus! {

/// The errors a request can end with.
#[derive(Debug)]
pub enum QueueError {
    NotFound(String),
    InvalidArgument(String),
    AlreadyExists(String),
    Unknown(String),
}

/// The id given to an enqueued message, and the node that took it.
pub struct EnqueueReply {
    pub message_id: String,
    pub node_id: String,
}

/// Up to `count` ready messages of a topic, under a lease of
/// `lease_duration` milliseconds when it is positive.
pub struct DequeueRequest {
    pub topic: String,
    pub count: i32,
    pub lease_duration: i32,
}

/// A message handed to a consumer.
pub struct DataItem {
    pub message_id: String,
    pub payload: Vec<u8>,
    pub meta: String,
    pub priority: i32,
}

/// The messages handed out, in order.
pub struct DequeueReply {
    pub items: Vec<DataItem>,
}

/// Ends the lease of a message, by its decimal id.
pub struct AckRequest {
    pub topic: String,
    pub message_id: String,
}

/// Returns a leased message with a new delay and, when not empty, new meta.
pub struct NackRequest {
    pub topic: String,
    pub message_id: String,
    pub meta: String,
    pub deliver_after: u32,
}

/// A topic's name and how many of its messages are ready and delayed.
pub struct TopicStats {
    pub topic: String,
    pub ready_size: u64,
    pub delayed_size: u64,
}

/// What a topic's queue holds: both stores, the scheduler and the last
/// sequence number handed out.
pub struct QueueView {
    pub msgs: Map<Seq<u8>, Seq<u8>>,
    pub index: Map<Seq<u8>, Seq<u8>>,
    pub sched: SchedulerView,
    pub seq_no: u64,
    pub node_id: Seq<char>,
    pub topic: Seq<char>,
}

/// The due time of a message delivered `after` milliseconds from `now`.
pub open spec fn due_at(now: u64, after: u64) -> u64 {
    sat_add(now, after)
}

/// The task of a message.
pub open spec fn task(priority: i32, due: u64, seq: u64) -> Entry {
    Entry { priority, due, id: seq }
}

/// The message store after removing the message of `seq`, which is kept when
/// it is the latest one handed out so that the counter survives a restart.
pub open spec fn msgs_after_removal(msgs: Map<Seq<u8>, Seq<u8>>, seq: u64, seq_no: u64) -> Map<
    Seq<u8>,
    Seq<u8>,
> {
    if seq == seq_no {
        msgs
    } else {
        msgs.remove(be8(seq))
    }
}

/// `item` is what is stored for the message of `e`.
pub open spec fn hydrated(item: DataItem, e: Entry, msgs: Map<Seq<u8>, Seq<u8>>) -> bool {
    &&& item.message_id@ == decimal(e.id as nat)
    &&& msgs.contains_key(be8(e.id))
    &&& exists|q: RequestView|
        request_bytes(q) == msgs[be8(e.id)] && q.payload == item.payload@ && q.meta == item.meta@
            && q.priority == item.priority
}

/// `idx` gives, for each item, the index of the task it was hydrated from, in
/// increasing order.
pub open spec fn hydration_index(
    items: Seq<DataItem>,
    tasks: Seq<Entry>,
    msgs: Map<Seq<u8>, Seq<u8>>,
    idx: Seq<int>,
) -> bool {
    idx.len() == items.len() && (forall|i: int, j: int|
        0 <= i < j < idx.len() ==> #[trigger] idx[i] < #[trigger] idx[j]) && (forall|i: int|
        0 <= i < idx.len() ==> 0 <= #[trigger] idx[i] < tasks.len() && hydrated(
            items[i],
            tasks[idx[i]],
            msgs,
        ))
}

/// The items are hydrated from tasks of `tasks`, in their order, one per task at most.
pub open spec fn hydrated_from(
    items: Seq<DataItem>,
    tasks: Seq<Entry>,
    msgs: Map<Seq<u8>, Seq<u8>>,
) -> bool {
    exists|idx: Seq<int>| #[trigger] hydration_index(items, tasks, msgs, idx)
}

/// The tasks that task items stand for.
pub open spec fn task_entries(tasks: Seq<TaskItem>) -> Seq<Entry> {
    tasks.map_values(|t: TaskItem| entry_of(t))
}

/// What reading a stored record gave: its bytes, or nothing when it is absent
/// or the read failed.
pub open spec fn read_view(r: Result<Vec<u8>, KvError>) -> Option<Seq<u8>> {
    match r {
        Ok(v) => Some(v@),
        Err(_) => None,
    }
}

/// The bytes are the stored form of some record.
pub open spec fn is_record(v: Seq<u8>) -> bool {
    exists|q: RequestView| #[trigger] request_bytes(q) == v
}

/// `item` is the message of task `e` as read from the bytes `v`.
pub open spec fn item_from(item: DataItem, e: Entry, v: Seq<u8>) -> bool {
    &&& item.message_id@ == decimal(e.id as nat)
    &&& exists|q: RequestView|
        #[trigger] request_bytes(q) == v && q.payload == item.payload@ && q.meta == item.meta@
            && q.priority == item.priority
}

/// The items are, in task order, the messages of exactly those tasks whose
/// read gave the bytes of a stored record.
pub open spec fn hydrated_seq(
    items: Seq<DataItem>,
    tasks: Seq<Entry>,
    reads: Seq<Option<Seq<u8>>>,
) -> bool
    decreases tasks.len(),
{
    if tasks.len() == 0 {
        items.len() == 0
    } else {
        let v = reads[tasks.len() - 1];
        if v is Some && is_record(v->Some_0) {
            &&& items.len() > 0
            &&& item_from(items.last(), tasks.last(), v->Some_0)
            &&& hydrated_seq(items.drop_last(), tasks.drop_last(), reads.drop_last())
        } else {
            hydrated_seq(items, tasks.drop_last(), reads.drop_last())
        }
    }
}

/// One read per task, each agreeing with the message store: a read that gave
/// bytes gave the stored ones, and the read of an absent message gave nothing.
pub open spec fn reads_agree(
    reads: Seq<Option<Seq<u8>>>,
    tasks: Seq<Entry>,
    msgs: Map<Seq<u8>, Seq<u8>>,
) -> bool {
    &&& reads.len() == tasks.len()
    &&& forall|i: int|
        0 <= i < reads.len() ==> (#[trigger] reads[i] matches Some(v) ==> msgs.contains_key(
            be8(tasks[i].id),
        ) && msgs[be8(tasks[i].id)] == v) && (!msgs.contains_key(be8(tasks[i].id)) ==> reads[i] is None)
}

/// Items read in agreement with the store are hydrated from the tasks, in order.
pub proof fn lemma_hydrated_seq_from(
    items: Seq<DataItem>,
    tasks: Seq<Entry>,
    reads: Seq<Option<Seq<u8>>>,
    msgs: Map<Seq<u8>, Seq<u8>>,
)
    requires
        reads_agree(reads, tasks, msgs),
        hydrated_seq(items, tasks, reads),
    ensures
        hydrated_from(items, tasks, msgs),
    decreases tasks.len(),
{
    if tasks.len() == 0 {
        assert(hydration_index(items, tasks, msgs, Seq::<int>::empty()));
    } else {
        let n = tasks.len() - 1;
        let tl = tasks.drop_last();
        let rl = reads.drop_last();
        assert(reads_agree(rl, tl, msgs)) by {
            assert forall|i: int| 0 <= i < rl.len() implies (#[trigger] rl[i] matches Some(v)
                ==> msgs.contains_key(be8(tl[i].id)) && msgs[be8(tl[i].id)] == v) && (
            !msgs.contains_key(be8(tl[i].id)) ==> rl[i] is None) by {
                assert(rl[i] == reads[i] && tl[i] == tasks[i]);
            }
        }
        let v = reads[n];
        assert(reads[n] == v);
        if v is Some && is_record(v->Some_0) {
            lemma_hydrated_seq_from(items.drop_last(), tl, rl, msgs);
            let il = items.drop_last();
            let idx0 = choose|idx0: Seq<int>| #[trigger] hydration_index(il, tl, msgs, idx0);
            let idx = idx0.push(n);
            assert(hydrated(items.last(), tasks.last(), msgs));
            assert forall|i: int| 0 <= i < idx.len() implies 0 <= #[trigger] idx[i] < tasks.len()
                && hydrated(items[i], tasks[idx[i]], msgs) by {
                if i < idx0.len() {
                    assert(idx[i] == idx0[i]);
                    assert(items[i] == il[i]);
                    assert(tl[idx0[i]] == tasks[idx0[i]]);
                }
            }
            assert forall|i: int, j: int| 0 <= i < j < idx.len() implies #[trigger] idx[i] < #[trigger] idx[j] by {
                if j < idx0.len() {
                    assert(idx[i] == idx0[i] && idx[j] == idx0[j]);
                } else {
                    assert(idx[i] == idx0[i]);
                    assert(idx0[i] < tl.len());
                }
            }
            assert(hydration_index(items, tasks, msgs, idx));
        } else {
            lemma_hydrated_seq_from(items, tl, rl, msgs);
            let idx0 = choose|idx0: Seq<int>| #[trigger] hydration_index(items, tl, msgs, idx0);
            assert forall|i: int| 0 <= i < idx0.len() implies 0 <= #[trigger] idx0[i] < tasks.len()
                && hydrated(items[i], tasks[idx0[i]], msgs) by {
                assert(tl[idx0[i]] == tasks[idx0[i]]);
            }
            assert(hydration_index(items, tasks, msgs, idx0));
        }
    }
}

/// When every read gave the bytes of a stored record, there is one item per
/// task, in task order.
pub proof fn lemma_hydrated_seq_all(items: Seq<DataItem>, tasks: Seq<Entry>, reads: Seq<Option<Seq<u8>>>)
    requires
        reads.len() == tasks.len(),
        hydrated_seq(items, tasks, reads),
        forall|i: int| 0 <= i < reads.len() ==> #[trigger] reads[i] is Some && is_record(reads[i]->Some_0),
    ensures
        items.len() == tasks.len(),
        forall|i: int| 0 <= i < items.len() ==> item_from(#[trigger] items[i], tasks[i], reads[i]->Some_0),
    decreases tasks.len(),
{
    if tasks.len() > 0 {
        let n = tasks.len() - 1;
        assert(reads[n] is Some && is_record(reads[n]->Some_0));
        let il = items.drop_last();
        let tl = tasks.drop_last();
        let rl = reads.drop_last();
        assert forall|i: int| 0 <= i < rl.len() implies #[trigger] rl[i] is Some && is_record(rl[i]->Some_0) by {
            assert(rl[i] == reads[i]);
        }
        lemma_hydrated_seq_all(il, tl, rl);
        assert forall|i: int| 0 <= i < items.len() implies item_from(#[trigger] items[i], tasks[i], reads[i]->Some_0) by {
            if i < n {
                assert(items[i] == il[i] && tasks[i] == tl[i] && reads[i] == rl[i]);
            }
        }
    }
}

/// The items are the messages of the tasks, read in agreement with the store
/// and left out only where a read gave no stored record.
pub open spec fn delivered(items: Seq<DataItem>, tasks: Seq<Entry>, msgs: Map<Seq<u8>, Seq<u8>>) -> bool {
    exists|reads: Seq<Option<Seq<u8>>>|
        reads_agree(reads, tasks, msgs) && #[trigger] hydrated_seq(items, tasks, reads)
}

/// The scheduler after giving each of `s` a lease that ends at `due`.
pub open spec fn leased(v: SchedulerView, s: Seq<Entry>, due: u64, now: u64) -> SchedulerView
    decreases s.len(),
{
    if s.len() == 0 {
        v
    } else {
        leased(v, s.drop_last(), due, now).added(task(s.last().priority, due, s.last().id), now)
    }
}

/// The record stored again by a nack: new meta when one is given, a new delay.
pub open spec fn nacked(q: RequestView, meta: Seq<char>, deliver_after: u32) -> RequestView {
    RequestView {
        meta: if meta.len() > 0 {
            meta
        } else {
            q.meta
        },
        deliver_after,
        ..q
    }
}

/// `m1` agrees with `m0` on every key but `k`.
pub open spec fn changed_only_at(m0: Map<Seq<u8>, Seq<u8>>, m1: Map<Seq<u8>, Seq<u8>>, k: Seq<u8>) -> bool {
    forall|j: Seq<u8>|
        j != k ==> (#[trigger] m1.contains_key(j) == m0.contains_key(j)) && (m0.contains_key(j)
            ==> m1[j] == m0[j])
}

/// `m1` is `m0` with some of the keys of `keys` removed, and nothing else changed.
pub open spec fn shrunk_at(m0: Map<Seq<u8>, Seq<u8>>, m1: Map<Seq<u8>, Seq<u8>>, keys: Set<Seq<u8>>) -> bool {
    &&& forall|k: Seq<u8>| #[trigger] m1.contains_key(k) ==> m0.contains_key(k) && m1[k] == m0[k]
    &&& forall|k: Seq<u8>| m0.contains_key(k) && !keys.contains(k) ==> #[trigger] m1.contains_key(k)
}

/// The keys of the messages that the items name.
pub open spec fn delivered_keys(items: Seq<DataItem>) -> Set<Seq<u8>> {
    Set::new(
        |k: Seq<u8>|
            exists|i: int, n: u64|
                0 <= i < items.len() && parses_as(items[i].message_id@, n) && k == be8(n),
    )
}

/// What an enqueue of `request` at `now` does to a queue and returns.
pub open spec fn enqueue_post(
    q0: QueueView,
    q1: QueueView,
    request: RequestView,
    now: u64,
    r: Result<EnqueueReply, QueueError>,
) -> bool {
    &&& (q0.seq_no == u64::MAX ==> (r matches Err(QueueError::Unknown(_)) && q1
        == q0))
    &&& (r is Ok ==> q1.seq_no == q0.seq_no + 1)
    &&& (r is Err ==> q1.seq_no == q0.seq_no)
    &&& (r matches Err(e) ==> e is Unknown && q1.sched == q0.sched)
    &&& (r is Err && q0.seq_no < u64::MAX ==> changed_only_at(
        q0.msgs,
        q1.msgs,
        be8((q0.seq_no + 1) as u64),
    ) && changed_only_at(q0.index, q1.index, be8((q0.seq_no + 1) as u64)))
    &&& (r matches Ok(reply) ==> ({
        let seq = (q0.seq_no + 1) as u64;
        let due = due_at(now, request.deliver_after as u64);
        &&& q0.seq_no < u64::MAX
        &&& reply.message_id@ == decimal(seq as nat)
        &&& reply.node_id@ == q0.node_id
        &&& q1.msgs == q0.msgs.insert(be8(seq), request_bytes(request))
        &&& q1.index == q0.index.insert(
            be8(seq),
            index_bytes(request.priority, due, seq),
        )
        &&& q1.sched == q0.sched.added(task(request.priority, due, seq), now)
    }))
}

/// What a dequeue of `count` messages with a lease of `lease` at `now` does
/// to a queue and returns.
pub open spec fn dequeue_post(
    q0: QueueView,
    q1: QueueView,
    count: i32,
    lease: i32,
    now: u64,
    r: Result<DequeueReply, QueueError>,
) -> bool {
    &&& r matches Ok(reply) && ({
        let k = q0.sched.fetch_len(count as u32);
        let fetched = q0.sched.ready.take(k as int);
        let rest = q0.sched.fetched(count as u32);
        &&& delivered(reply.items@, fetched, q0.msgs)
        &&& lease > 0 ==> q1.sched == leased(rest, fetched, sat_add(now, lease as u64), now)
            && q1.msgs == q0.msgs && q1.index == q0.index
        &&& lease <= 0 ==> q1.sched == rest && shrunk_at(
            q0.index,
            q1.index,
            delivered_keys(reply.items@),
        ) && shrunk_at(q0.msgs, q1.msgs, delivered_keys(reply.items@).remove(be8(q0.seq_no)))
    })
}

/// What an ack of the decimal id `id` does to a queue and returns.
pub open spec fn ack_post(q0: QueueView, q1: QueueView, id: Seq<char>, r: Result<(), QueueError>) -> bool {
    &&& (!(exists|n: u64| parses_as(id, n) && q0.sched.in_wheel(n)) <==> r matches Err(
        QueueError::NotFound(_),
    ))
    &&& (r matches Err(QueueError::NotFound(_)) ==> q1 == q0)
    &&& (r matches Err(e) ==> e is NotFound || e is Unknown)
    &&& (forall|n: u64|
        parses_as(id, n) && q0.sched.in_wheel(n) ==> {
            &&& q1.sched == q0.sched.cancelled(n)
            &&& q1.index == q0.index || q1.index == q0.index.remove(be8(n))
            &&& q1.msgs == q0.msgs || q1.msgs == msgs_after_removal(q0.msgs, n, q0.seq_no)
            &&& r is Ok ==> q1.index == q0.index.remove(be8(n))
                && q1.msgs == msgs_after_removal(
                q0.msgs,
                n,
                q0.seq_no,
            )
        })
}

/// What a nack of the decimal id `id` does to a queue and returns.
pub open spec fn nack_post(
    q0: QueueView,
    q1: QueueView,
    id: Seq<char>,
    meta: Seq<char>,
    deliver_after: u32,
    now: u64,
    r: Result<(), QueueError>,
) -> bool {
    &&& (r matches Err(e) ==> e is NotFound || e is Unknown)
    &&& (!(exists|n: u64| parses_as(id, n)) ==> (r matches Err(QueueError::NotFound(_)) && q1
        == q0))
    &&& (forall|n: u64|
        parses_as(id, n) ==> {
            &&& r matches Err(QueueError::NotFound(_)) ==> !q0.msgs.contains_key(be8(n)) && q1.msgs
                == q0.msgs && q1.index == q0.index && q1.sched == q0.sched.cancelled(n)
            &&& r matches Err(QueueError::Unknown(_)) ==> q1.sched == q0.sched.cancelled(n)
                && changed_only_at(q0.msgs, q1.msgs, be8(n)) && changed_only_at(
                q0.index,
                q1.index,
                be8(n),
            )
            &&& r is Ok ==> exists|q: RequestView|
                {
                    let due = due_at(now, deliver_after as u64);
                    &&& #[trigger] request_bytes(q) == q0.msgs[be8(n)]
                    &&& q0.msgs.contains_key(be8(n))
                    &&& q1.msgs == q0.msgs.insert(
                        be8(n),
                        request_bytes(nacked(q, meta, deliver_after)),
                    )
                    &&& q1.index == q0.index.insert(
                        be8(n),
                        index_bytes(q.priority, due, n),
                    )
                    &&& q1.sched == q0.sched.cancelled(n).added(
                        task(q.priority, due, n),
                        now,
                    )
                }
        })
}

/// The queue of one topic.
pub struct PriorityQueueSvc {
    msg_store: KvStore,
    index_store: KvStore,
    worker: Worker,
    seq_no: u64,
    node_id: String,
    topic: String,
}

impl View for PriorityQueueSvc {
    type V = QueueView;

    closed spec fn view(&self) -> QueueView {
        QueueView {
            msgs: self.msg_store@,
            index: self.index_store@,
            sched: self.worker@,
            seq_no: self.seq_no,
            node_id: self.node_id@,
            topic: self.topic@,
        }
    }
}

fn copy_string(s: &String) -> (r: String)
    ensures
        r@ == s@,
{
    String::from_str(s.as_str())
}

/// The sequence counter a message store implies: the number in the first eight
/// bytes of its greatest key, or 0 when it is empty.
pub open spec fn counter_of(msgs: Map<Seq<u8>, Seq<u8>>, seq_no: u64) -> bool {
    &&& msgs.dom() == Set::<Seq<u8>>::empty() ==> seq_no == 0
    &&& msgs.dom() != Set::<Seq<u8>>::empty() ==> exists|k: Seq<u8>|
        #[trigger] msgs.contains_key(k) && k.len() >= 8 && seq_no == be_value(k) && forall|k2: Seq<u8>|
            #[trigger] msgs.contains_key(k2) ==> !lex_lt(k, k2)
}

/// Opens the queue of a topic over its two stores: the sequence counter
/// continues from the greatest stored key, and every index record is
/// scheduled again.
pub fn make_one_queue(
    msg_store: KvStore,
    index_store: KvStore,
    node_id: &String,
    topic: &String,
    now: u64,
) -> (r: Result<PriorityQueueSvc, KvError>)
    ensures
        r matches Ok(q) ==> {
            &&& q.inv()
            &&& q@.msgs == msg_store@
            &&& q@.index == index_store@
            &&& q@.node_id == node_id@
            &&& q@.topic == topic@
            &&& !q@.sched.stopped
            &&& counter_of(msg_store@, q@.seq_no)
            &&& exists|s: Seq<(Seq<u8>, Seq<u8>)>|
                range_listing(s, index_store@, seq![0u8], index_end()) && q@.sched == rebuilt(
                    empty_scheduler(),
                    s,
                    now,
                )
        },
        (exists|k: Seq<u8>|
            #[trigger] msg_store@.contains_key(k) && k.len() < 8 && forall|k2: Seq<u8>|
                #[trigger] msg_store@.contains_key(k2) ==> !lex_lt(k, k2)) ==> r is Err,
        (exists|k: Seq<u8>|
            #[trigger] index_store@.contains_key(k) && index_range(k) && !is_index_record(
                index_store@[k],
            )) ==> r is Err,
{
    let seq_no: u64 = match msg_store.max_key() {
        Ok(k) => {
            proof {
                if exists|k1: Seq<u8>|
                    #[trigger] msg_store@.contains_key(k1) && k1.len() < 8 && forall|k2: Seq<u8>|
                        #[trigger] msg_store@.contains_key(k2) ==> !lex_lt(k1, k2) {
                    let k1 = choose|k1: Seq<u8>|
                        #[trigger] msg_store@.contains_key(k1) && k1.len() < 8 && forall|k2: Seq<u8>|
                            #[trigger] msg_store@.contains_key(k2) ==> !lex_lt(k1, k2);
                    if k1 != k@ {
                        lemma_lex_total(k1, k@);
                    }
                }
            }
            if k.len() < 8 {
                return Err(KvError::IoError(String::from_str("malformed message key")));
            }
            msgid_to_u64(k.as_slice())
        },
        Err(KvError::NotFound(_)) => {
            proof {
                if exists|k1: Seq<u8>|
                    #[trigger] msg_store@.contains_key(k1) && k1.len() < 8 && forall|k2: Seq<u8>|
                        #[trigger] msg_store@.contains_key(k2) ==> !lex_lt(k1, k2) {
                    let k1 = choose|k1: Seq<u8>|
                        #[trigger] msg_store@.contains_key(k1) && k1.len() < 8 && forall|k2: Seq<u8>|
                            #[trigger] msg_store@.contains_key(k2) ==> !lex_lt(k1, k2);
                    assert(msg_store@.dom().contains(k1));
                }
            }
            0
        },
        Err(e) => {
            return Err(e);
        },
    };
    let mut worker = Worker::new();
    assert(worker@ == empty_scheduler());
    rebuild_index(&index_store, &mut worker, now)?;
    let q = PriorityQueueSvc {
        msg_store,
        index_store,
        worker,
        seq_no,
        node_id: copy_string(node_id),
        topic: copy_string(topic),
    };
    Ok(q)
}

impl PriorityQueueSvc {
    /// The scheduler is well formed.
    pub open spec fn inv(&self) -> bool {
        self@.sched.wf()
    }

    /// Stores and schedules a new message under the next sequence number.
    pub fn enqueue(&mut self, request: &EnqueueRequest, now: u64) -> (r: Result<
        EnqueueReply,
        QueueError,
    >)
        requires
            old(self).inv(),
        ensures
            final(self).inv(),
            final(self)@.node_id == old(self)@.node_id,
            final(self)@.topic == old(self)@.topic,
            enqueue_post(old(self)@, final(self)@, request@, now, r),
    {
        if self.seq_no == u64::MAX {
            return Err(QueueError::Unknown(String::from_str("sequence numbers exhausted")));
        }
        let cur_seq = self.seq_no + 1;
        self.store_and_schedule(cur_seq, request, now)?;
        self.seq_no = cur_seq;
        Ok(EnqueueReply { message_id: u64_to_decimal(cur_seq), node_id: copy_string(&self.node_id) })
    }

    /// Writes the record and the index of message `seq` and schedules its task.
    fn store_and_schedule(&mut self, seq: u64, request: &EnqueueRequest, now: u64) -> (r: Result<
        (),
        QueueError,
    >)
        requires
            old(self).inv(),
        ensures
            final(self).inv(),
            final(self)@.seq_no == old(self)@.seq_no,
            final(self)@.node_id == old(self)@.node_id,
            final(self)@.topic == old(self)@.topic,
            r matches Err(e) ==> e is Unknown && final(self)@.sched == old(self)@.sched,
            r is Err ==> changed_only_at(old(self)@.msgs, final(self)@.msgs, be8(seq))
                && changed_only_at(old(self)@.index, final(self)@.index, be8(seq)),
            r is Ok ==> ({
                let due = due_at(now, request.deliver_after as u64);
                &&& final(self)@.msgs == old(self)@.msgs.insert(be8(seq), request_bytes(request@))
                &&& final(self)@.index == old(self)@.index.insert(
                    be8(seq),
                    index_bytes(request.priority, due, seq),
                )
                &&& final(self)@.sched == old(self)@.sched.added(task(request.priority, due, seq), now)
            }),
    {
        let message_id = msgid_from_u64(seq);
        let due = now.saturating_add(request.deliver_after as u64);
        proof {
            lemma_be_round_trip(seq);
        }
        match self.msg_store.set(&message_id, encode_request(request)) {
            Ok(_) => {},
            Err(e) => {
                return Err(unknown(e));
            },
        }
        match self.index_store.set(&message_id, encode_index(request.priority, due, seq)) {
            Ok(_) => {},
            Err(e) => {
                return Err(unknown(e));
            },
        }
        proof {
            lemma_be_round_trip(seq);
        }
        self.worker.add_task(TaskItem { priority: request.priority, timestamp: due, message_id }, now);
        Ok(())
    }

    /// Removes the index record and the message of `seq`; the message is kept
    /// when `seq` is the latest sequence number handed out.
    fn remove_msg(&mut self, seq: u64) -> (r: Result<(), QueueError>)
        ensures
            final(self)@.sched == old(self)@.sched,
            final(self)@.seq_no == old(self)@.seq_no,
            final(self)@.node_id == old(self)@.node_id,
            final(self)@.topic == old(self)@.topic,
            r matches Err(e) ==> e is Unknown,
            r is Ok ==> final(self)@.index == old(self)@.index.remove(be8(seq)) && final(self)@.msgs
                == msgs_after_removal(old(self)@.msgs, seq, old(self)@.seq_no),
            final(self)@.index == old(self)@.index || final(self)@.index == old(self)@.index.remove(
                be8(seq),
            ),
            final(self)@.msgs == old(self)@.msgs || final(self)@.msgs == msgs_after_removal(
                old(self)@.msgs,
                seq,
                old(self)@.seq_no,
            ),
            final(self)@.msgs != old(self)@.msgs ==> final(self)@.index == old(self)@.index.remove(
                be8(seq),
            ),
    {
        let message_id = msgid_from_u64(seq);
        match self.index_store.remove(&message_id) {
            Ok(_) => {},
            Err(e) => {
                return Err(unknown(e));
            },
        }
        if seq == self.seq_no {
            return Ok(());
        }
        match self.msg_store.remove(&message_id) {
            Ok(_) => Ok(()),
            Err(e) => Err(unknown(e)),
        }
    }

    /// Ends the lease of a message and removes it for good.
    pub fn ack(&mut self, request: &AckRequest) -> (r: Result<(), QueueError>)
        requires
            old(self).inv(),
        ensures
            final(self).inv(),
            final(self)@.seq_no == old(self)@.seq_no,
            final(self)@.node_id == old(self)@.node_id,
            final(self)@.topic == old(self)@.topic,
            ack_post(old(self)@, final(self)@, request.message_id@, r),
    {
        let seq = match crate::utils::parse_msgid(request.message_id.as_str()) {
            Some(n) => n,
            None => {
                return Err(QueueError::NotFound(String::from_str("no lease found")));
            },
        };
        proof {
            lemma_parse_unique(request.message_id@, seq);
            lemma_be_round_trip(seq);
        }
        let message_id = msgid_from_u64(seq);
        if !self.worker.cancel_task(&message_id) {
            return Err(QueueError::NotFound(String::from_str("no lease found")));
        }
        self.remove_msg(seq)
    }

    /// Hands out up to `count` ready messages in order.  With a positive lease
    /// each one is scheduled again for the lease's end, to be redelivered
    /// unless acknowledged; without one each is removed at once.
    pub fn dequeue(&mut self, request: &DequeueRequest, now: u64) -> (r: Result<
        DequeueReply,
        QueueError,
    >)
        requires
            old(self).inv(),
        ensures
            final(self).inv(),
            final(self)@.seq_no == old(self)@.seq_no,
            final(self)@.node_id == old(self)@.node_id,
            final(self)@.topic == old(self)@.topic,
            dequeue_post(old(self)@, final(self)@, request.count, request.lease_duration, now, r),
    {
        let tasks = self.worker.fetch_tasks(request.count as u32);
        let ghost v0 = old(self)@.sched;
        let ghost k = v0.fetch_len(request.count as u32);
        let ghost fetched = v0.ready.take(k as int);
        let ghost rest = v0.fetched(request.count as u32);
        proof {
            assert forall|i: int| 0 <= i < tasks@.len() implies entry_of(#[trigger] tasks@[i]) == fetched[i]
                && tasks@[i].message_id@.len() == 8 by {
                lemma_be_round_trip(v0.ready[i].id);
            }
        }
        if request.lease_duration > 0 {
            let ghost due = sat_add(now, request.lease_duration as u64);
            let mut i: usize = 0;
            while i < tasks.len()
                invariant
                    self.inv(),
                    self@.msgs == old(self)@.msgs,
                    self@.index == old(self)@.index,
                    self@.seq_no == old(self)@.seq_no,
                    self@.node_id == old(self)@.node_id,
                    self@.topic == old(self)@.topic,
                    request.lease_duration > 0,
                    due == sat_add(now, request.lease_duration as u64),
                    tasks@.len() == fetched.len(),
                    i <= tasks@.len(),
                    forall|j: int| 0 <= j < tasks@.len() ==> entry_of(#[trigger] tasks@[j]) == fetched[j]
                        && tasks@[j].message_id@.len() == 8,
                    self@.sched == leased(rest, fetched.take(i as int), due, now),
                decreases tasks@.len() - i,
            {
                let retry = tasks[i].delayed_copy(request.lease_duration, now);
                proof {
                    assert(fetched.take(i + 1).drop_last() =~= fetched.take(i as int));
                    assert(fetched.take(i + 1).last() == fetched[i as int]);
                    assert(entry_of(tasks@[i as int]) == fetched[i as int]);
                    assert(entry_of(retry) == task(fetched[i as int].priority, due, fetched[i as int].id));
                    assert(leased(rest, fetched.take(i + 1), due, now) == leased(
                        rest,
                        fetched.take(i as int),
                        due,
                        now,
                    ).added(task(fetched[i as int].priority, due, fetched[i as int].id), now));
                }
                self.worker.add_task(retry, now);
                i = i + 1;
            }
            proof {
                assert(fetched.take(tasks@.len() as int) =~= fetched);
            }
        }
        assert(self@.msgs == old(self)@.msgs);
        let items = self.fill_payload(&tasks);
        proof {
            assert(task_entries(tasks@) =~= fetched);
            assert(delivered(items@, fetched, old(self)@.msgs));
        }
        if request.lease_duration <= 0 {
            let ghost mid = self@;
            let ghost keys = delivered_keys(items@);
            assert(mid.msgs == old(self)@.msgs && mid.index == old(self)@.index);
            let mut i: usize = 0;
            while i < items.len()
                invariant
                    self@.sched == mid.sched,
                    self@.seq_no == mid.seq_no,
                    self@.node_id == mid.node_id,
                    self@.topic == mid.topic,
                    i <= items@.len(),
                    keys == delivered_keys(items@),
                    delivered(items@, fetched, old(self)@.msgs),
                    shrunk_at(mid.index, self@.index, keys),
                    shrunk_at(mid.msgs, self@.msgs, keys.remove(be8(mid.seq_no))),
                decreases items@.len() - i,
            {
                match crate::utils::parse_msgid(items[i].message_id.as_str()) {
                    Some(seq) => {
                        let ghost before = self@;
                        let _ = self.remove_msg(seq);
                        proof {
                            let key = be8(seq);
                            assert(keys.contains(key)) by {
                                assert(0 <= i < items@.len() && parses_as(items@[i as int].message_id@, seq) && key == be8(seq));
                            }
                            crate::utils::lemma_be_injective(seq, mid.seq_no);
                            if seq != mid.seq_no {
                                assert(keys.remove(be8(mid.seq_no)).contains(key));
                            }
                            assert(shrunk_at(mid.index, self@.index, keys));
                            assert(shrunk_at(mid.msgs, self@.msgs, keys.remove(be8(mid.seq_no))));
                        }
                    },
                    None => {},
                }
                i = i + 1;
            }
        }
        let reply = DequeueReply { items };
        proof {
            assert(delivered(reply.items@, fetched, old(self)@.msgs));
            assert(k == old(self)@.sched.fetch_len(request.count as u32));
            assert(fetched == old(self)@.sched.ready.take(k as int));
        }
        Ok(reply)
    }

    /// Reads the stored message of every task and hands out, in order, those
    /// whose read gave a stored record.
    fn fill_payload(&self, tasks: &Vec<TaskItem>) -> (r: Vec<DataItem>)
        requires
            forall|j: int| 0 <= j < tasks@.len() ==> (#[trigger] tasks@[j]).message_id@.len() == 8,
        ensures
            delivered(r@, task_entries(tasks@), self@.msgs),
    {
        let ghost es = task_entries(tasks@);
        let mut reads: Vec<Result<Vec<u8>, KvError>> = Vec::new();
        let mut i: usize = 0;
        while i < tasks.len()
            invariant
                forall|j: int| 0 <= j < tasks@.len() ==> (#[trigger] tasks@[j]).message_id@.len() == 8,
                es == task_entries(tasks@),
                i <= tasks@.len(),
                reads@.len() == i,
                forall|j: int|
                    0 <= j < i ==> (#[trigger] read_view(reads@[j]) matches Some(v) ==> self@.msgs.contains_key(
                        tasks@[j].message_id@,
                    ) && self@.msgs[tasks@[j].message_id@] == v) && (!self@.msgs.contains_key(
                        tasks@[j].message_id@,
                    ) ==> read_view(reads@[j]) is None),
            decreases tasks@.len() - i,
        {
            reads.push(self.msg_store.get(&tasks[i].message_id));
            i = i + 1;
        }
        let items = hydrate_all(tasks, &reads);
        proof {
            let rv = reads@.map_values(|x: Result<Vec<u8>, KvError>| read_view(x));
            assert forall|j: int| 0 <= j < rv.len() implies (#[trigger] rv[j] matches Some(v) ==> self@.msgs.contains_key(
                be8(es[j].id),
            ) && self@.msgs[be8(es[j].id)] == v) && (!self@.msgs.contains_key(be8(es[j].id)) ==> rv[j] is None) by {
                crate::codec::lemma_be_injective_on(tasks@[j].message_id@);
                assert(be8(es[j].id) == tasks@[j].message_id@);
                assert(rv[j] == read_view(reads@[j]));
            }
            assert(reads_agree(rv, es, self@.msgs));
            assert(hydrated_seq(items@, es, rv));
        }
        items
    }

    /// Returns a leased message to the queue with a new delay, and new meta
    /// when one is given; payload and priority are kept and so is its sequence
    /// number.
    pub fn nack(&mut self, request: &NackRequest, now: u64) -> (r: Result<(), QueueError>)
        requires
            old(self).inv(),
        ensures
            final(self).inv(),
            final(self)@.seq_no == old(self)@.seq_no,
            final(self)@.node_id == old(self)@.node_id,
            final(self)@.topic == old(self)@.topic,
            nack_post(old(self)@, final(self)@, request.message_id@, request.meta@, request.deliver_after, now, r),
    {
        let seq = match crate::utils::parse_msgid(request.message_id.as_str()) {
            Some(n) => n,
            None => {
                return Err(QueueError::NotFound(String::from_str("no lease found")));
            },
        };
        proof {
            lemma_parse_unique(request.message_id@, seq);
            lemma_be_round_trip(seq);
        }
        let message_id = msgid_from_u64(seq);
        let _ = self.worker.cancel_task(&message_id);
        let again = match nack_record(self.msg_store.get(&message_id), &request.meta, request.deliver_after) {
            Ok(x) => x,
            Err(e) => {
                return Err(e);
            },
        };
        self.store_and_schedule(seq, &again, now)
    }

    /// The topic's name with how many messages are ready and how many delayed.
    pub fn get_stats(&self) -> (r: TopicStats)
        ensures
            r.topic@ == self@.topic,
            r.ready_size == self@.sched.ready.len(),
            r.delayed_size == self@.sched.wheel.len(),
    {
        let st: QueueStats = self.worker.stats();
        TopicStats { topic: copy_string(&self.topic), ready_size: st.ready_size, delayed_size: st.delayed_size }
    }

    /// Stops the scheduler: later ticks do nothing.
    pub fn stop(&mut self)
        ensures
            final(self)@ == (QueueView {
                sched: SchedulerView { stopped: true, ..old(self)@.sched },
                ..old(self)@
            }),
    {
        self.worker.stop();
    }

    /// One turn of the scheduler's promotion loop; false once stopped.
    pub fn tick(&mut self, now: u64) -> (r: bool)
        requires
            old(self).inv(),
        ensures
            final(self).inv(),
            r == !old(self)@.sched.stopped,
            old(self)@.sched.stopped ==> final(self)@ == old(self)@,
            !old(self)@.sched.stopped ==> final(self)@ == (QueueView {
                sched: old(self)@.sched.ticked(now),
                ..old(self)@
            }),
    {
        self.worker.tick(now)
    }
}

/// The item handed out for the message stored under `key`, given what reading
/// it gave: none when the read failed or the bytes are not a stored record.
pub fn hydrate(key: &Vec<u8>, stored: &Result<Vec<u8>, KvError>) -> (r: Option<DataItem>)
    requires
        key@.len() == 8,
    ensures
        *stored is Err ==> r is None,
        *stored matches Ok(v) ==> (r is Some <==> exists|q: RequestView| #[trigger] request_bytes(q) == v@),
        r matches Some(item) ==> (*stored matches Ok(v) && item.message_id@ == decimal(
            be_value(key@) as nat,
        ) && exists|q: RequestView|
            #[trigger] request_bytes(q) == v@ && q.payload == item.payload@ && q.meta == item.meta@
                && q.priority == item.priority),
{
    match stored {
        Ok(value) => match decode_request(value.as_slice()) {
            Some(q) => Some(
                DataItem {
                    message_id: msgid_to_str(key),
                    payload: q.payload,
                    meta: q.meta,
                    priority: q.priority,
                },
            ),
            None => None,
        },
        Err(_) => None,
    }
}

/// The record a nack stores again, given what reading the stored message
/// gave: a missing message is not found, a failed read or bytes that are not
/// a stored record are unknown errors.
pub fn nack_record(stored: Result<Vec<u8>, KvError>, meta: &String, deliver_after: u32) -> (r: Result<
    EnqueueRequest,
    QueueError,
>)
    ensures
        stored matches Err(KvError::NotFound(_)) ==> r matches Err(QueueError::NotFound(_)),
        stored matches Err(KvError::IoError(_)) ==> r matches Err(QueueError::Unknown(_)),
        stored matches Ok(v) ==> ((exists|q: RequestView| #[trigger] request_bytes(q) == v@) <==> r is Ok),
        stored matches Ok(v) && r is Err ==> r matches Err(QueueError::Unknown(_)),
        r matches Ok(x) ==> (stored matches Ok(v) && exists|q: RequestView|
            #[trigger] request_bytes(q) == v@ && x@ == nacked(q, meta@, deliver_after)),
{
    let stored = match stored {
        Ok(v) => v,
        Err(KvError::NotFound(_)) => {
            return Err(QueueError::NotFound(String::from_str("message not found")));
        },
        Err(KvError::IoError(s)) => {
            return Err(QueueError::Unknown(s));
        },
    };
    let prev = match decode_request(stored.as_slice()) {
        Some(q) => q,
        None => {
            return Err(QueueError::Unknown(String::from_str("unreadable message record")));
        },
    };
    let ghost q0 = prev@;
    let meta = if meta.as_str().is_empty() {
        prev.meta
    } else {
        copy_string(meta)
    };
    let again = EnqueueRequest {
        topic: prev.topic,
        payload: prev.payload,
        meta,
        priority: prev.priority,
        deliver_after,
    };
    assert(again@ == nacked(q0, meta@, deliver_after));
    Ok(again)
}

/// The messages of the tasks, in order, from the results of reading them: a
/// task whose read failed, or gave bytes that are not a stored record, is left
/// out.
pub fn hydrate_all(tasks: &Vec<TaskItem>, reads: &Vec<Result<Vec<u8>, KvError>>) -> (r: Vec<DataItem>)
    requires
        reads@.len() == tasks@.len(),
        forall|j: int| 0 <= j < tasks@.len() ==> (#[trigger] tasks@[j]).message_id@.len() == 8,
    ensures
        hydrated_seq(
            r@,
            task_entries(tasks@),
            reads@.map_values(|x: Result<Vec<u8>, KvError>| read_view(x)),
        ),
{
    let ghost es = task_entries(tasks@);
    let ghost rv = reads@.map_values(|x: Result<Vec<u8>, KvError>| read_view(x));
    let mut items: Vec<DataItem> = Vec::new();
    let mut i: usize = 0;
    assert(es.take(0).len() == 0);
    while i < tasks.len()
        invariant
            reads@.len() == tasks@.len(),
            forall|j: int| 0 <= j < tasks@.len() ==> (#[trigger] tasks@[j]).message_id@.len() == 8,
            es == task_entries(tasks@),
            rv == reads@.map_values(|x: Result<Vec<u8>, KvError>| read_view(x)),
            i <= tasks@.len(),
            hydrated_seq(items@, es.take(i as int), rv.take(i as int)),
        decreases tasks@.len() - i,
    {
        let ghost before = items@;
        let key = &tasks[i].message_id;
        let item = hydrate(key, &reads[i]);
        proof {
            assert(es.take(i + 1).drop_last() =~= es.take(i as int));
            assert(rv.take(i + 1).drop_last() =~= rv.take(i as int));
            assert(es.take(i + 1).last() == es[i as int]);
            assert(rv.take(i + 1)[i as int] == rv[i as int]);
            assert(rv[i as int] == read_view(reads@[i as int]));
            crate::codec::lemma_be_injective_on(key@);
        }
        match item {
            Some(it) => {
                items.push(it);
                proof {
                    assert(items@.drop_last() =~= before);
                    assert(items@.last() == it);
                }
            },
            None => {},
        }
        i = i + 1;
    }
    assert(es.take(tasks@.len() as int) =~= es);
    assert(rv.take(tasks@.len() as int) =~= rv);
    items
}

/// A store failure as a request error.
fn unknown(e: KvError) -> (r: QueueError)
    ensures
        r is Unknown,
{
    match e {
        KvError::NotFound(s) => QueueError::Unknown(s),
        KvError::IoError(s) => QueueError::Unknown(s),
    }
}

/// A scheduler holding nothing, running.
pub open spec fn empty_scheduler() -> SchedulerView {
    SchedulerView { ready: Seq::empty(), wheel: Seq::empty(), stopped: false }
}

/// The keys that recovery reads: from `[0]` (included) to eight `0xFF` bytes
/// (excluded).
pub open spec fn index_range(k: Seq<u8>) -> bool {
    in_range(k, seq![0u8], index_end())
}

/// A key sorting before `a` followed by a zero byte is `a` or sorts before it.
proof fn lemma_lex_below_successor(k: Seq<u8>, a: Seq<u8>)
    requires
        lex_lt(k, a.push(0u8)),
    ensures
        k == a || lex_lt(k, a),
    decreases a.len(),
{
    if a.len() == 0 {
        if k.len() > 0 {
            assert(a.push(0u8) =~= seq![0u8]);
            assert(lex_lt(k.drop_first(), a.push(0u8).drop_first()));
            assert(a.push(0u8).drop_first().len() == 0);
        } else {
            assert(k =~= a);
        }
    } else if k.len() > 0 {
        if k[0] == a[0] {
            assert(a.push(0u8).drop_first() =~= a.drop_first().push(0u8));
            lemma_lex_below_successor(k.drop_first(), a.drop_first());
            if k.drop_first() == a.drop_first() {
                assert(k.len() == a.len());
                assert forall|i: int| 0 <= i < k.len() implies k[i] == a[i] by {
                    if i > 0 {
                        assert(k[i] == k.drop_first()[i - 1]);
                        assert(a[i] == a.drop_first()[i - 1]);
                    }
                }
                assert(k =~= a);
            }
        }
    }
}

/// The task an index record's bytes describe.
pub open spec fn index_entry(b: Seq<u8>) -> Entry {
    task(index_fields(b).0, index_fields(b).1, index_fields(b).2)
}

/// The scheduler after adding, at `now`, the task of each index record of
/// `s` in turn.
pub open spec fn rebuilt(v: SchedulerView, s: Seq<(Seq<u8>, Seq<u8>)>, now: u64) -> SchedulerView
    decreases s.len(),
{
    if s.len() == 0 {
        v
    } else {
        rebuilt(v, s.drop_last(), now).added(index_entry(s.last().1), now)
    }
}

/// The first key after the index range: eight `0xFF` bytes.
pub open spec fn index_end() -> Seq<u8> {
    seq![255u8, 255u8, 255u8, 255u8, 255u8, 255u8, 255u8, 255u8]
}

/// Reads every index record back into the scheduler, a page of 100 keys at a
/// time, in ascending key order; an unreadable page or record fails the whole
/// rebuild.
#[verifier::rlimit(60)]
fn rebuild_index(index_store: &KvStore, worker: &mut Worker, now: u64) -> (r: Result<(), KvError>)
    requires
        old(worker)@.wf(),
    ensures
        final(worker)@.wf(),
        final(worker)@.stopped == old(worker)@.stopped,
        r is Ok ==> exists|s: Seq<(Seq<u8>, Seq<u8>)>|
            range_listing(s, index_store@, seq![0u8], index_end()) && final(worker)@ == rebuilt(
                old(worker)@,
                s,
                now,
            ),
        r is Ok ==> forall|k: Seq<u8>|
            #[trigger] index_store@.contains_key(k) && index_range(k) ==> is_index_record(
                index_store@[k],
            ),
{
    let mut start: Vec<u8> = vec![0u8];
    let end: Vec<u8> = vec![255u8, 255u8, 255u8, 255u8, 255u8, 255u8, 255u8, 255u8];
    let ghost m = index_store@;
    let ghost w_start = worker@;
    let ghost mut done: Seq<(Seq<u8>, Seq<u8>)> = Seq::empty();
    assert(end@ =~= index_end());
    assert(start@ =~= seq![0u8]);
    let mut pages: u64 = 0;
    while pages < u64::MAX
        invariant
            worker@.wf(),
            worker@.stopped == old(worker)@.stopped,
            w_start == old(worker)@,
            worker@ == rebuilt(w_start, done, now),
            m == index_store@,
            end@ == index_end(),
            start@.len() > 0,
            ordered_entries_of(done, m, seq![0u8], index_end()),
            forall|i: int| 0 <= i < done.len() ==> is_index_record(#[trigger] done[i].1),
            forall|i: int| 0 <= i < done.len() ==> lex_lt(#[trigger] done[i].0, start@),
            forall|k: Seq<u8>|
                #[trigger] m.contains_key(k) && index_range(k) && lex_lt(k, start@) ==> exists|i: int|
                    0 <= i < done.len() && done[i].0 == k,
        decreases u64::MAX - pages,
    {
        let mut buffer: Vec<(Vec<u8>, Vec<u8>)> = Vec::new();
        match index_store.scan(&start, &end, 100, &mut buffer) {
            Ok(_) => {},
            Err(e) => {
                return Err(e);
            },
        }
        let ghost page = pairs_view(buffer@);
        proof {
            assert(buffer@.skip(0) =~= buffer@);
        }
        if buffer.len() == 0 {
            proof {
                assert forall|k: Seq<u8>| #[trigger] m.contains_key(k) && in_range(k, seq![0u8], index_end()) implies exists|i: int|
                    0 <= i < done.len() && done[i].0 == k by {
                    if !lex_lt(k, start@) {
                        assert(in_range(k, start@, end@));
                    }
                }
                assert(range_listing(done, m, seq![0u8], index_end()));
                assert forall|k: Seq<u8>| #[trigger] m.contains_key(k) && index_range(k) implies is_index_record(m[k]) by {
                    let j = choose|j: int| 0 <= j < done.len() && done[j].0 == k;
                    assert(is_index_record(done[j].1));
                }
            }
            return Ok(());
        }
        let ghost done0 = done;
        let ghost old_start = start@;
        let mut i: usize = 0;
        while i < buffer.len()
            invariant
                worker@.wf(),
                worker@.stopped == old(worker)@.stopped,
                worker@ == rebuilt(w_start, done, now),
                done == done0 + page.take(i as int),
                forall|j: int| 0 <= j < done.len() ==> is_index_record(#[trigger] done[j].1),
                m == index_store@,
                page == pairs_view(buffer@),
                first_page(page, m, old_start, index_end(), 100),
                i <= buffer@.len(),
            decreases buffer@.len() - i,
        {
            match decode_index(buffer[i].1.as_slice()) {
                None => {
                    return Err(KvError::IoError(String::from_str("unreadable index record")));
                },
                Some(rec) => {
                    let ghost id = be_value(rec.message_id@);
                    let ghost x = page[i as int];
                    proof {
                        assert(x == (buffer@[i as int].0@, buffer@[i as int].1@));
                        let w = (rec.priority, rec.timestamp, id);
                        assert(index_bytes(w.0, w.1, w.2) == x.1);
                        let f = index_fields(x.1);
                        assert(index_bytes(f.0, f.1, f.2) == x.1);
                        lemma_be_round_trip(f.2);
                        assert(entry_of(TaskItem { priority: rec.priority, timestamp: rec.timestamp, message_id: rec.message_id }) == index_entry(x.1));
                        assert((done.push(x)).drop_last() =~= done);
                        assert(done0 + page.take(i + 1) =~= done.push(x));
                    }
                    worker.add_task(TaskItem { priority: rec.priority, timestamp: rec.timestamp, message_id: rec.message_id }, now);
                    proof {
                        assert(is_index_record(x.1));
                        let d0 = done;
                        done = done.push(x);
                        assert forall|j: int| 0 <= j < done.len() implies is_index_record(#[trigger] done[j].1) by {
                            if j < d0.len() {
                                assert(done[j] == d0[j]);
                            }
                        }
                    }
                },
            }
            i = i + 1;
        }
        let last = crate::worker::clone_bytes(&buffer[buffer.len() - 1].0);
        start = last;
        start.push(0u8);
        proof {
            let l = page.len() - 1;
            let lk = page[l].0;
            assert(page[l] == (buffer@[l].0@, buffer@[l].1@));
            assert(page.take(page.len() as int) =~= page);
            assert(done == done0 + page);
            assert(start@ == lk.push(0u8));
            lemma_lex_below_push_zero(lk);
            // page keys lie at or after the old start, hence are not empty
            assert forall|j: int| 0 <= j < page.len() implies (#[trigger] page[j].0).len() > 0 && !lex_lt(page[j].0, seq![0u8]) by {
                assert(in_range(page[j].0, old_start, index_end()));
                if page[j].0.len() == 0 {
                    assert(lex_lt(page[j].0, old_start));
                }
                lemma_nonempty_not_below_zero(page[j].0);
            }
            // every key read so far sorts before the last key of the page, or is it
            assert forall|j: int| 0 <= j < done.len() implies lex_lt(#[trigger] done[j].0, start@) by {
                if j < done0.len() {
                    assert(done[j] == done0[j]);
                    assert(!lex_lt(lk, old_start));
                    if lk != old_start {
                        lemma_lex_total(lk, old_start);
                        lemma_lex_trans(done0[j].0, old_start, lk);
                    }
                    lemma_lex_trans(done0[j].0, lk, start@);
                } else {
                    let pj = j - done0.len();
                    assert(done[j] == page[pj]);
                    if pj < l {
                        lemma_lex_trans(page[pj].0, lk, start@);
                    }
                }
            }
            assert(ordered_entries_of(done, m, seq![0u8], index_end())) by {
                assert forall|a: int, b: int| 0 <= a < b < done.len() implies lex_lt(#[trigger] done[a].0, #[trigger] done[b].0) by {
                    if b < done0.len() {
                        assert(done[a] == done0[a] && done[b] == done0[b]);
                    } else if a >= done0.len() {
                        assert(done[a] == page[a - done0.len()] && done[b] == page[b - done0.len()]);
                    } else {
                        let pb = b - done0.len();
                        assert(done[a] == done0[a] && done[b] == page[pb]);
                        assert(in_range(page[pb].0, old_start, index_end()));
                        if page[pb].0 != old_start {
                            lemma_lex_total(page[pb].0, old_start);
                            lemma_lex_trans(done0[a].0, old_start, page[pb].0);
                        }
                    }
                }
                assert forall|a: int| 0 <= a < done.len() implies m.contains_key(#[trigger] done[a].0)
                    && m[done[a].0] == done[a].1 && in_range(done[a].0, seq![0u8], index_end()) by {
                    if a < done0.len() {
                        assert(done[a] == done0[a]);
                    } else {
                        assert(done[a] == page[a - done0.len()]);
                        assert(in_range(page[a - done0.len()].0, old_start, index_end()));
                    }
                }
            }
            assert forall|k: Seq<u8>| #[trigger] m.contains_key(k) && index_range(k) && lex_lt(k, start@) implies exists|j: int|
                0 <= j < done.len() && done[j].0 == k by {
                if lex_lt(k, old_start) {
                    let j = choose|j: int| 0 <= j < done0.len() && done0[j].0 == k;
                    assert(done[j] == done0[j]);
                } else {
                    lemma_lex_below_successor(k, lk);
                    assert(in_range(k, old_start, end@));
                    if k == lk {
                        assert(done[done0.len() + l] == page[l]);
                    } else {
                        let j = choose|j: int| 0 <= j < page.len() && page[j].0 == k;
                        assert(done[done0.len() + j] == page[j]);
                    }
                }
            }
        }
        pages = pages + 1;
    }
    Err(KvError::IoError(String::from_str("too many index pages")))
}

/// A decimal id names one number.
pub proof fn lemma_parse_unique(s: Seq<char>, n: u64)
    requires
        parses_as(s, n),
    ensures
        forall|m: u64| parses_as(s, m) ==> m == n,
{
}

} // verus!
