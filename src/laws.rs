//! Properties of the broker that span several operations, proved from the
//! contracts of the scheduler, the queue and the stored-record format.
use crate::codec::{lemma_request_round_trip, request_bytes, storable, RequestView};
use crate::kv::lex_lt;
use crate::priority_queue::{
    counter_of, delivered, dequeue_post, is_record, item_from, lemma_hydrated_seq_all, hydrated_seq, lemma_hydrated_seq_from, reads_agree, due_at, enqueue_post, hydrated, hydrated_from, hydration_index, leased, nacked, task, DataItem, DequeueReply,
    EnqueueReply, QueueError, QueueView,
};
use crate::utils::{be8, be_value, lemma_be_round_trip};
use crate::worker::{
    sat_add, before, has_id, index_of, lemma_added_wf, lemma_has_id_contains, lemma_has_id_index,
    lemma_insert_due_contains, lemma_remove_props, lemma_skip_props, lemma_ticked, sorted_by_key,
    unique_ids, without_id, Entry, SchedulerView,
};
use vstd::prelude::*;

verus! {

/// A dequeue hands out ready messages in ascending (priority, due time,
/// sequence) order, each before every message it leaves ready.
pub proof fn law_dequeue_order(v: SchedulerView, count: u32)
    requires
        v.wf(),
    ensures
        sorted_by_key(v.ready.take(v.fetch_len(count) as int)),
        forall|i: int, j: int|
            0 <= i < v.fetch_len(count) <= j < v.ready.len() ==> before(
                #[trigger] v.ready[i],
                #[trigger] v.ready[j],
            ),
{
    let t = v.ready.take(v.fetch_len(count) as int);
    assert forall|i: int, j: int| 0 <= i < j < t.len() implies before(
        #[trigger] t[i],
        #[trigger] t[j],
    ) by {
        assert(t[i] == v.ready[i] && t[j] == v.ready[j]);
    }
}

/// Two entries of a list with unique ids that carry the same id are the same.
proof fn lemma_same_id_same_entry(s: Seq<Entry>, x: Entry, y: Entry)
    requires
        unique_ids(s),
        s.contains(x),
        s.contains(y),
        x.id == y.id,
    ensures
        x == y,
{
    let i = choose|i: int| 0 <= i < s.len() && s[i] == x;
    let j = choose|j: int| 0 <= j < s.len() && s[j] == y;
    assert(i == j);
}

/// A message scheduled for a later time is not ready before that time, and is
/// ready once a tick comes at or after it.
pub proof fn law_delay(v: SchedulerView, e: Entry, now: u64, t: u64)
    requires
        v.wf(),
        e.due > now,
        !v.in_wheel(e.id),
    ensures
        v.added(e, now).wf(),
        !v.added(e, now).in_ready(e.id),
        v.added(e, now).wheel.contains(e),
        t < e.due ==> !v.added(e, now).ticked(t).in_ready(e.id),
        t >= e.due ==> v.added(e, now).ticked(t).ready.contains(e),
{
    let w = v.added(e, now);
    lemma_added_wf(v, e, now);
    lemma_insert_due_contains(v.wheel, e);
    if has_id(v.ready, e.id) {
        let i = index_of(v.ready, e.id);
        assert(0 <= i < v.ready.len() && v.ready[i].id == e.id);
        lemma_remove_props(v.ready, i);
    }
    lemma_ticked(w, t);
    let z = w.ticked(t);
    if t < e.due {
        lemma_has_id_contains(z.ready, e.id);
        lemma_has_id_contains(w.ready, e.id);
        if has_id(z.ready, e.id) {
            let x = choose|x: Entry| #[trigger] z.ready.contains(x) && x.id == e.id;
            if w.wheel.contains(x) {
                lemma_same_id_same_entry(w.wheel, x, e);
            }
        }
    }
}

/// What a fetch hands out is no longer tracked by the scheduler.
pub proof fn law_fetched_untracked(v: SchedulerView, count: u32)
    requires
        v.wf(),
    ensures
        v.fetched(count).wf(),
        forall|i: int|
            0 <= i < v.fetch_len(count) ==> !v.fetched(count).tracks(#[trigger] v.ready[i].id),
        unique_ids(v.ready.take(v.fetch_len(count) as int)),
{
    let k = v.fetch_len(count) as int;
    lemma_skip_props(v.ready, k);
    assert forall|i: int| 0 <= i < k implies !v.fetched(count).tracks(#[trigger] v.ready[i].id) by {
        lemma_has_id_index(v.ready, i);
        let r = v.ready.skip(k);
        if has_id(r, v.ready[i].id) {
            let j = choose|j: int| 0 <= j < r.len() && (#[trigger] r[j]).id == v.ready[i].id;
            assert(r[j] == v.ready[j + k]);
        }
    }
    let t = v.ready.take(k);
    assert forall|a: int, b: int|
        0 <= a < t.len() && 0 <= b < t.len() && a != b implies (#[trigger] t[a]).id != (
        #[trigger] t[b]).id by {
        assert(t[a] == v.ready[a] && t[b] == v.ready[b]);
    }
}

/// Leasing untracked messages puts each of them in the wheel until the lease
/// ends, out of the ready list.
#[verifier::rlimit(50)]
pub proof fn lemma_leased(v: SchedulerView, s: Seq<Entry>, due: u64, now: u64)
    requires
        v.wf(),
        due > now,
        unique_ids(s),
        forall|i: int| 0 <= i < s.len() ==> !v.tracks(#[trigger] s[i].id),
    ensures
        leased(v, s, due, now).wf(),
        forall|i: int|
            0 <= i < s.len() ==> leased(v, s, due, now).wheel.contains(
                task(#[trigger] s[i].priority, due, s[i].id),
            ) && !leased(v, s, due, now).in_ready(s[i].id),
        forall|id: u64|
            #[trigger] leased(v, s, due, now).in_wheel(id) ==> v.in_wheel(id) || exists|i: int|
                0 <= i < s.len() && s[i].id == id,
    decreases s.len(),
{
    if s.len() > 0 {
        let t = s.drop_last();
        assert(unique_ids(t)) by {
            assert forall|a: int, b: int|
                0 <= a < t.len() && 0 <= b < t.len() && a != b implies (#[trigger] t[a]).id != (
                #[trigger] t[b]).id by {
                assert(t[a] == s[a] && t[b] == s[b]);
            }
        }
        assert forall|i: int| 0 <= i < t.len() implies !v.tracks(#[trigger] t[i].id) by {
            assert(t[i] == s[i]);
        }
        lemma_leased(v, t, due, now);
        let w = leased(v, t, due, now);
        let l = s.last();
        let e = task(l.priority, due, l.id);
        assert(!w.in_wheel(l.id)) by {
            if w.in_wheel(l.id) {
                assert(!v.tracks(s[s.len() - 1].id));
                if exists|i: int| 0 <= i < t.len() && t[i].id == l.id {
                    let i = choose|i: int| 0 <= i < t.len() && t[i].id == l.id;
                    assert(t[i] == s[i]);
                }
            }
        }
        lemma_added_wf(w, e, now);
        lemma_insert_due_contains(w.wheel, e);
        if has_id(w.ready, e.id) {
            let i = index_of(w.ready, e.id);
            assert(0 <= i < w.ready.len() && w.ready[i].id == e.id);
            lemma_remove_props(w.ready, i);
        }
        let z = w.added(e, now);
        assert(leased(v, s, due, now) == z);
        assert forall|i: int|
            0 <= i < s.len() implies z.wheel.contains(task(#[trigger] s[i].priority, due, s[i].id))
            && !z.in_ready(s[i].id) by {
            if i < s.len() - 1 {
                assert(s[i] == t[i]);
                assert(w.wheel.contains(task(t[i].priority, due, t[i].id)));
                lemma_has_id_index(s, i);
                lemma_has_id_index(s, s.len() - 1);
            }
        }
        assert forall|id: u64| #[trigger] z.in_wheel(id) implies v.in_wheel(id) || exists|i: int|
            0 <= i < s.len() && s[i].id == id by {
            if w.in_wheel(id) {
                if !v.in_wheel(id) {
                    let i = choose|i: int| 0 <= i < t.len() && t[i].id == id;
                    assert(s[i] == t[i]);
                }
            } else {
                assert(s[s.len() - 1].id == id);
            }
        }
    }
}

/// A message dequeued under a lease and not acknowledged is ready again, with
/// its id and priority, once a tick comes at or after the lease's end.
pub proof fn law_lease_round_trip(v: SchedulerView, count: u32, due: u64, now: u64, t: u64, i: int)
    requires
        v.wf(),
        due > now,
        t >= due,
        0 <= i < v.fetch_len(count),
    ensures
        leased(v.fetched(count), v.ready.take(v.fetch_len(count) as int), due, now).ticked(
            t,
        ).ready.contains(task(v.ready[i].priority, due, v.ready[i].id)),
{
    let k = v.fetch_len(count) as int;
    let f = v.ready.take(k);
    law_fetched_untracked(v, count);
    assert forall|j: int| 0 <= j < f.len() implies !v.fetched(count).tracks(#[trigger] f[j].id) by {
        assert(f[j] == v.ready[j]);
    }
    lemma_leased(v.fetched(count), f, due, now);
    assert(f[i] == v.ready[i]);
    let w = leased(v.fetched(count), f, due, now);
    lemma_ticked(w, t);
}

/// After an ack of a leased id, the scheduler no longer tracks it, no tick
/// brings it back, and a second ack finds no lease.
pub proof fn law_ack_final(v: SchedulerView, id: u64, t: u64)
    requires
        v.wf(),
        v.in_wheel(id),
    ensures
        v.cancelled(id).wf(),
        !v.cancelled(id).in_wheel(id),
        !v.cancelled(id).tracks(id),
        !v.cancelled(id).ticked(t).tracks(id),
{
    let i = index_of(v.wheel, id);
    assert(0 <= i < v.wheel.len() && v.wheel[i].id == id);
    lemma_remove_props(v.wheel, i);
    let w = v.cancelled(id);
    assert forall|x: u64| !(has_id(w.ready, x) && has_id(w.wheel, x)) by {
        if has_id(w.wheel, x) {
            assert(has_id(v.wheel, x));
        }
    }
    lemma_ticked(w, t);
    let z = w.ticked(t);
    lemma_has_id_contains(z.ready, id);
    lemma_has_id_contains(z.wheel, id);
    lemma_has_id_contains(w.ready, id);
    lemma_has_id_contains(w.wheel, id);
}

/// A nack keeps the payload and priority of the stored record, and takes the
/// new meta when one is given, else the old one.
pub proof fn law_nack_keeps_payload(q: RequestView, meta: Seq<char>, deliver_after: u32, r: RequestView)
    requires
        storable(q),
        storable(r),
        storable(nacked(q, meta, deliver_after)),
        request_bytes(r) == request_bytes(nacked(q, meta, deliver_after)),
    ensures
        r.payload == q.payload,
        r.priority == q.priority,
        r.meta == (if meta.len() > 0 {
            meta
        } else {
            q.meta
        }),
        r.deliver_after == deliver_after,
{
    lemma_request_round_trip(r, nacked(q, meta, deliver_after));
}

/// A nacked message with a positive delay is not ready before its new due time.
pub proof fn law_nack_not_early(v: SchedulerView, id: u64, priority: i32, due: u64, now: u64, t: u64)
    requires
        v.wf(),
        due > now,
        t < due,
    ensures
        !v.cancelled(id).added(task(priority, due, id), now).in_ready(id),
        !v.cancelled(id).added(task(priority, due, id), now).ticked(t).in_ready(id),
{
    let w = v.cancelled(id);
    if has_id(v.wheel, id) {
        let i = index_of(v.wheel, id);
        assert(0 <= i < v.wheel.len() && v.wheel[i].id == id);
        lemma_remove_props(v.wheel, i);
    }
    assert forall|x: u64| !(has_id(w.ready, x) && has_id(w.wheel, x)) by {
        if has_id(w.wheel, x) {
            assert(has_id(v.wheel, x));
        }
    }
    law_delay(w, task(priority, due, id), now, t);
}

/// Cancelling the entries of `ids` one after another.
pub open spec fn cancel_all(v: SchedulerView, ids: Seq<u64>) -> SchedulerView
    decreases ids.len(),
{
    if ids.len() == 0 {
        v
    } else {
        cancel_all(v, ids.drop_last()).cancelled(ids.last())
    }
}

/// Once every lease granted from an emptied ready list is acknowledged, the
/// scheduler holds nothing: no ready entry and no delayed one.
pub proof fn law_leases_acked_leave_nothing(v: SchedulerView, ids: Seq<u64>)
    requires
        v.wf(),
        v.ready.len() == 0,
        forall|i: int| 0 <= i < v.wheel.len() ==> ids.contains(#[trigger] v.wheel[i].id),
    ensures
        cancel_all(v, ids).ready.len() == 0,
        cancel_all(v, ids).wheel.len() == 0,
{
    lemma_cancel_all(v, ids);
    let w = cancel_all(v, ids).wheel;
    if w.len() > 0 {
        assert(w.contains(w[0]));
        assert(v.wheel.contains(w[0]));
        let i = choose|i: int| 0 <= i < v.wheel.len() && v.wheel[i] == w[0];
        assert(ids.contains(v.wheel[i].id));
    }
}

proof fn lemma_cancel_all(v: SchedulerView, ids: Seq<u64>)
    requires
        v.wf(),
    ensures
        cancel_all(v, ids).ready == v.ready,
        unique_ids(cancel_all(v, ids).wheel),
        forall|x: Entry| #[trigger] cancel_all(v, ids).wheel.contains(x) ==> v.wheel.contains(x) && !ids.contains(x.id),
    decreases ids.len(),
{
    if ids.len() > 0 {
        lemma_cancel_all(v, ids.drop_last());
        let u = cancel_all(v, ids.drop_last());
        let id = ids.last();
        let w = without_id(u.wheel, id);
        if has_id(u.wheel, id) {
            let i = index_of(u.wheel, id);
            assert(0 <= i < u.wheel.len() && u.wheel[i].id == id);
            lemma_remove_props(u.wheel, i);
            assert forall|x: Entry| #[trigger] w.contains(x) implies v.wheel.contains(x) && !ids.contains(x.id) by {
                let k = choose|k: int| 0 <= k < w.len() && w[k] == x;
                let k2 = if k < i { k } else { k + 1 };
                assert(w[k] == u.wheel[k2]);
                assert(u.wheel.contains(x));
                lemma_has_id_index(w, k);
                if ids.contains(x.id) {
                    let j = choose|j: int| 0 <= j < ids.len() && ids[j] == x.id;
                    if j < ids.len() - 1 {
                        assert(ids.drop_last()[j] == x.id);
                    }
                }
            }
        } else {
            assert forall|x: Entry| #[trigger] w.contains(x) implies v.wheel.contains(x) && !ids.contains(x.id) by {
                let k = choose|k: int| 0 <= k < w.len() && w[k] == x;
                lemma_has_id_index(w, k);
                if ids.contains(x.id) {
                    let j = choose|j: int| 0 <= j < ids.len() && ids[j] == x.id;
                    if j < ids.len() - 1 {
                        assert(ids.drop_last()[j] == x.id);
                    }
                }
            }
        }
    }
}

/// Byte strings of one length that sort one before the other first differ at
/// an index where the first has the smaller byte.
proof fn lemma_lex_first_diff(a: Seq<u8>, b: Seq<u8>) -> (i: int)
    requires
        a.len() == b.len(),
        lex_lt(a, b),
    ensures
        0 <= i < a.len(),
        forall|j: int| 0 <= j < i ==> a[j] == b[j],
        a[i] < b[i],
    decreases a.len(),
{
    if a[0] != b[0] {
        0
    } else {
        let k = lemma_lex_first_diff(a.drop_first(), b.drop_first());
        assert forall|j: int| 0 <= j < k + 1 implies a[j] == b[j] by {
            if j > 0 {
                assert(a[j] == a.drop_first()[j - 1] && b[j] == b.drop_first()[j - 1]);
            }
        }
        assert(a[k + 1] == a.drop_first()[k] && b[k + 1] == b.drop_first()[k]);
        k + 1
    }
}

/// Distinct byte strings of one length are ordered one way or the other.
proof fn lemma_lex_total(a: Seq<u8>, b: Seq<u8>)
    requires
        a.len() == b.len(),
        a != b,
    ensures
        lex_lt(a, b) || lex_lt(b, a),
    decreases a.len(),
{
    if a.len() == 0 {
        assert(a =~= b);
    } else if a[0] == b[0] {
        if a.drop_first() == b.drop_first() {
            assert forall|j: int| 0 <= j < a.len() implies a[j] == b[j] by {
                if j > 0 {
                    assert(a[j] == a.drop_first()[j - 1] && b[j] == b.drop_first()[j - 1]);
                }
            }
            assert(a =~= b);
        }
        lemma_lex_total(a.drop_first(), b.drop_first());
    }
}

/// A key whose first `n` bytes sort before an `n`-byte key sorts before it too.
proof fn lemma_lex_prefix(a: Seq<u8>, b: Seq<u8>, n: int)
    requires
        0 <= n <= a.len(),
        b.len() == n,
        lex_lt(a.take(n), b),
    ensures
        lex_lt(a, b),
    decreases n,
{
    if n > 0 && a[0] == b[0] {
        assert(a.take(n)[0] == a[0]);
        assert(a.take(n).drop_first() =~= a.drop_first().take(n - 1));
        lemma_lex_prefix(a.drop_first(), b.drop_first(), n - 1);
    } else if n > 0 {
        assert(a.take(n)[0] == a[0]);
    }
}

/// On eight-byte keys the byte order is the order of the numbers they denote.
pub proof fn lemma_be_order(a: Seq<u8>, b: Seq<u8>)
    requires
        a.len() == 8,
        b.len() == 8,
        lex_lt(a, b),
    ensures
        be_value(a) < be_value(b),
{
    let i = lemma_lex_first_diff(a, b);
    let (a0, a1, a2, a3, a4, a5, a6, a7) = (a[0], a[1], a[2], a[3], a[4], a[5], a[6], a[7]);
    let (b0, b1, b2, b3, b4, b5, b6, b7) = (b[0], b[1], b[2], b[3], b[4], b[5], b[6], b[7]);
    let va = be_value(a);
    let vb = be_value(b);
    if i == 0 {
        assert(va < vb) by (bit_vector)
            requires
                va == ((a0 as u64) << 56u64) | ((a1 as u64) << 48u64) | ((a2 as u64) << 40u64) | ((a3 as u64) << 32u64) | ((a4 as u64) << 24u64) | ((a5 as u64) << 16u64) | ((a6 as u64) << 8u64) | (a7 as u64),
                vb == ((b0 as u64) << 56u64) | ((b1 as u64) << 48u64) | ((b2 as u64) << 40u64) | ((b3 as u64) << 32u64) | ((b4 as u64) << 24u64) | ((b5 as u64) << 16u64) | ((b6 as u64) << 8u64) | (b7 as u64),
                a0 < b0,
        ;
    }
    if i == 1 {
        assert(va < vb) by (bit_vector)
            requires
                va == ((a0 as u64) << 56u64) | ((a1 as u64) << 48u64) | ((a2 as u64) << 40u64) | ((a3 as u64) << 32u64) | ((a4 as u64) << 24u64) | ((a5 as u64) << 16u64) | ((a6 as u64) << 8u64) | (a7 as u64),
                vb == ((b0 as u64) << 56u64) | ((b1 as u64) << 48u64) | ((b2 as u64) << 40u64) | ((b3 as u64) << 32u64) | ((b4 as u64) << 24u64) | ((b5 as u64) << 16u64) | ((b6 as u64) << 8u64) | (b7 as u64),
                a0 == b0 && a1 < b1,
        ;
    }
    if i == 2 {
        assert(va < vb) by (bit_vector)
            requires
                va == ((a0 as u64) << 56u64) | ((a1 as u64) << 48u64) | ((a2 as u64) << 40u64) | ((a3 as u64) << 32u64) | ((a4 as u64) << 24u64) | ((a5 as u64) << 16u64) | ((a6 as u64) << 8u64) | (a7 as u64),
                vb == ((b0 as u64) << 56u64) | ((b1 as u64) << 48u64) | ((b2 as u64) << 40u64) | ((b3 as u64) << 32u64) | ((b4 as u64) << 24u64) | ((b5 as u64) << 16u64) | ((b6 as u64) << 8u64) | (b7 as u64),
                a0 == b0 && a1 == b1 && a2 < b2,
        ;
    }
    if i == 3 {
        assert(va < vb) by (bit_vector)
            requires
                va == ((a0 as u64) << 56u64) | ((a1 as u64) << 48u64) | ((a2 as u64) << 40u64) | ((a3 as u64) << 32u64) | ((a4 as u64) << 24u64) | ((a5 as u64) << 16u64) | ((a6 as u64) << 8u64) | (a7 as u64),
                vb == ((b0 as u64) << 56u64) | ((b1 as u64) << 48u64) | ((b2 as u64) << 40u64) | ((b3 as u64) << 32u64) | ((b4 as u64) << 24u64) | ((b5 as u64) << 16u64) | ((b6 as u64) << 8u64) | (b7 as u64),
                a0 == b0 && a1 == b1 && a2 == b2 && a3 < b3,
        ;
    }
    if i == 4 {
        assert(va < vb) by (bit_vector)
            requires
                va == ((a0 as u64) << 56u64) | ((a1 as u64) << 48u64) | ((a2 as u64) << 40u64) | ((a3 as u64) << 32u64) | ((a4 as u64) << 24u64) | ((a5 as u64) << 16u64) | ((a6 as u64) << 8u64) | (a7 as u64),
                vb == ((b0 as u64) << 56u64) | ((b1 as u64) << 48u64) | ((b2 as u64) << 40u64) | ((b3 as u64) << 32u64) | ((b4 as u64) << 24u64) | ((b5 as u64) << 16u64) | ((b6 as u64) << 8u64) | (b7 as u64),
                a0 == b0 && a1 == b1 && a2 == b2 && a3 == b3 && a4 < b4,
        ;
    }
    if i == 5 {
        assert(va < vb) by (bit_vector)
            requires
                va == ((a0 as u64) << 56u64) | ((a1 as u64) << 48u64) | ((a2 as u64) << 40u64) | ((a3 as u64) << 32u64) | ((a4 as u64) << 24u64) | ((a5 as u64) << 16u64) | ((a6 as u64) << 8u64) | (a7 as u64),
                vb == ((b0 as u64) << 56u64) | ((b1 as u64) << 48u64) | ((b2 as u64) << 40u64) | ((b3 as u64) << 32u64) | ((b4 as u64) << 24u64) | ((b5 as u64) << 16u64) | ((b6 as u64) << 8u64) | (b7 as u64),
                a0 == b0 && a1 == b1 && a2 == b2 && a3 == b3 && a4 == b4 && a5 < b5,
        ;
    }
    if i == 6 {
        assert(va < vb) by (bit_vector)
            requires
                va == ((a0 as u64) << 56u64) | ((a1 as u64) << 48u64) | ((a2 as u64) << 40u64) | ((a3 as u64) << 32u64) | ((a4 as u64) << 24u64) | ((a5 as u64) << 16u64) | ((a6 as u64) << 8u64) | (a7 as u64),
                vb == ((b0 as u64) << 56u64) | ((b1 as u64) << 48u64) | ((b2 as u64) << 40u64) | ((b3 as u64) << 32u64) | ((b4 as u64) << 24u64) | ((b5 as u64) << 16u64) | ((b6 as u64) << 8u64) | (b7 as u64),
                a0 == b0 && a1 == b1 && a2 == b2 && a3 == b3 && a4 == b4 && a5 == b5 && a6 < b6,
        ;
    }
    if i == 7 {
        assert(va < vb) by (bit_vector)
            requires
                va == ((a0 as u64) << 56u64) | ((a1 as u64) << 48u64) | ((a2 as u64) << 40u64) | ((a3 as u64) << 32u64) | ((a4 as u64) << 24u64) | ((a5 as u64) << 16u64) | ((a6 as u64) << 8u64) | (a7 as u64),
                vb == ((b0 as u64) << 56u64) | ((b1 as u64) << 48u64) | ((b2 as u64) << 40u64) | ((b3 as u64) << 32u64) | ((b4 as u64) << 24u64) | ((b5 as u64) << 16u64) | ((b6 as u64) << 8u64) | (b7 as u64),
                a0 == b0 && a1 == b1 && a2 == b2 && a3 == b3 && a4 == b4 && a5 == b5 && a6 == b6 && a7 < b7,
        ;
    }
}

/// After a restart the counter is at least every sequence number whose
/// message record is still stored, so the next enqueue gets a greater one.
pub proof fn law_counter_survives_restart(msgs: Map<Seq<u8>, Seq<u8>>, seq_no: u64, s: u64)
    requires
        counter_of(msgs, seq_no),
        msgs.contains_key(be8(s)),
    ensures
        seq_no >= s,
{
    assert(msgs.dom().contains(be8(s)));
    assert(msgs.dom() != Set::<Seq<u8>>::empty());
    let k = choose|k: Seq<u8>|
        #[trigger] msgs.contains_key(k) && k.len() >= 8 && seq_no == be_value(k) && forall|k2: Seq<u8>|
            #[trigger] msgs.contains_key(k2) ==> !lex_lt(k, k2);
    lemma_be_round_trip(s);
    let a = k.take(8);
    assert(be_value(a) == be_value(k));
    if seq_no < s {
        if a == be8(s) {
        } else {
            lemma_lex_total(a, be8(s));
            if lex_lt(be8(s), a) {
                lemma_be_order(be8(s), a);
            } else {
                lemma_lex_prefix(k, be8(s), 8);
                assert(!lex_lt(k, be8(s)));
            }
        }
    }
}

/// Two deliveries of one message from an unchanged message store carry the same
/// id, payload, meta and priority.
pub proof fn law_redelivery_is_identical(
    a: DataItem,
    b: DataItem,
    ea: Entry,
    eb: Entry,
    msgs: Map<Seq<u8>, Seq<u8>>,
)
    requires
        hydrated(a, ea, msgs),
        hydrated(b, eb, msgs),
        ea.id == eb.id,
        msgs[be8(ea.id)].len() <= u64::MAX,
    ensures
        a.message_id@ == b.message_id@,
        a.payload@ == b.payload@,
        a.meta@ == b.meta@,
        a.priority == b.priority,
{
    let stored = msgs[be8(ea.id)];
    let qa = choose|q: RequestView|
        request_bytes(q) == stored && q.payload == a.payload@ && q.meta == a.meta@ && q.priority
            == a.priority;
    let qb = choose|q: RequestView|
        request_bytes(q) == stored && q.payload == b.payload@ && q.meta == b.meta@ && q.priority
            == b.priority;
    lemma_request_round_trip(qa, qb);
}

/// The items of a dequeue come from ready tasks in ascending (priority, due
/// time, sequence) order, one task each, with the stored payload and meta.
pub proof fn law_queue_dequeue_order(
    q0: QueueView,
    q1: QueueView,
    count: i32,
    lease: i32,
    now: u64,
    r: Result<DequeueReply, QueueError>,
)
    requires
        q0.sched.wf(),
        dequeue_post(q0, q1, count, lease, now, r),
    ensures
        r matches Ok(reply) && exists|es: Seq<Entry>|
            es.len() == reply.items@.len() && sorted_by_key(es) && forall|i: int|
                0 <= i < es.len() ==> hydrated(reply.items@[i], #[trigger] es[i], q0.msgs),
{
    let reply = r->Ok_0;
    let k = q0.sched.fetch_len(count as u32);
    let fetched = q0.sched.ready.take(k as int);
    law_dequeue_order(q0.sched, count as u32);
    assert(delivered(reply.items@, fetched, q0.msgs));
    let reads = choose|reads: Seq<Option<Seq<u8>>>|
        reads_agree(reads, fetched, q0.msgs) && #[trigger] hydrated_seq(reply.items@, fetched, reads);
    lemma_hydrated_seq_from(reply.items@, fetched, reads, q0.msgs);
    let idx = choose|idx: Seq<int>| #[trigger] hydration_index(reply.items@, fetched, q0.msgs, idx);
    let es = Seq::new(idx.len(), |i: int| fetched[idx[i]]);
    assert forall|i: int, j: int| 0 <= i < j < es.len() implies before(
        #[trigger] es[i],
        #[trigger] es[j],
    ) by {
        assert(idx[i] < idx[j]);
        assert(0 <= idx[i] < fetched.len() && 0 <= idx[j] < fetched.len());
        assert(es[i] == fetched[idx[i]] && es[j] == fetched[idx[j]]);
    }
    assert forall|i: int| 0 <= i < es.len() implies hydrated(reply.items@[i], #[trigger] es[i], q0.msgs) by {
        assert(0 <= idx[i] < fetched.len());
        assert(es[i] == fetched[idx[i]]);
    }
    assert(es.len() == reply.items@.len() && sorted_by_key(es));
}

/// Each item dequeued under a lease is ready again, as the same task id with
/// the same priority, once a tick comes at or after the lease's end; the
/// message store it is read from is unchanged.
pub proof fn law_queue_lease_redelivery(
    q0: QueueView,
    q1: QueueView,
    count: i32,
    lease: i32,
    now: u64,
    r: Result<DequeueReply, QueueError>,
    t: u64,
    i: int,
)
    requires
        q0.sched.wf(),
        dequeue_post(q0, q1, count, lease, now, r),
        lease > 0,
        now + lease <= u64::MAX,
        t >= now + lease,
        r is Ok ==> 0 <= i < r->Ok_0.items@.len(),
    ensures
        q1.msgs == q0.msgs,
        r is Ok,
        exists|e: Entry|
            #![trigger hydrated(r->Ok_0.items@[i], e, q0.msgs)]
            hydrated(r->Ok_0.items@[i], e, q0.msgs) && q1.sched.ticked(t).ready.contains(
                task(e.priority, (now + lease) as u64, e.id),
            ),
{
    let reply = r->Ok_0;
    let c = count as u32;
    let k = q0.sched.fetch_len(c);
    let fetched = q0.sched.ready.take(k as int);
    let due = (now + lease) as u64;
    assert(sat_add(now, lease as u64) == due);
    assert(delivered(reply.items@, fetched, q0.msgs));
    let reads = choose|reads: Seq<Option<Seq<u8>>>|
        reads_agree(reads, fetched, q0.msgs) && #[trigger] hydrated_seq(reply.items@, fetched, reads);
    lemma_hydrated_seq_from(reply.items@, fetched, reads, q0.msgs);
    let idx = choose|idx: Seq<int>| #[trigger] hydration_index(reply.items@, fetched, q0.msgs, idx);
    let j = idx[i];
    assert(0 <= j < fetched.len());
    assert(fetched[j] == q0.sched.ready[j]);
    law_lease_round_trip(q0.sched, c, due, now, t, j);
    assert(q1.sched == leased(q0.sched.fetched(c), fetched, due, now));
    let e = fetched[j];
    assert(hydrated(reply.items@[i], e, q0.msgs));
    assert(q1.sched.ticked(t).ready.contains(task(e.priority, due, e.id)));
}

/// A message enqueued with a positive delay is not ready at a tick before its
/// due time, and is ready at a tick at or after it (its new sequence number
/// being one the scheduler did not hold delayed).
pub proof fn law_queue_delay(
    q0: QueueView,
    q1: QueueView,
    request: RequestView,
    now: u64,
    r: Result<EnqueueReply, QueueError>,
    t: u64,
)
    requires
        q0.sched.wf(),
        enqueue_post(q0, q1, request, now, r),
        r is Ok,
        request.deliver_after > 0,
        now + request.deliver_after <= u64::MAX,
        !q0.sched.in_wheel((q0.seq_no + 1) as u64),
    ensures
        t < now + request.deliver_after ==> !q1.sched.ticked(t).in_ready((q0.seq_no + 1) as u64),
        t >= now + request.deliver_after ==> q1.sched.ticked(t).ready.contains(
            task(request.priority, (now + request.deliver_after) as u64, (q0.seq_no + 1) as u64),
        ),
{
    let seq = (q0.seq_no + 1) as u64;
    let due = (now + request.deliver_after) as u64;
    assert(due_at(now, request.deliver_after as u64) == due);
    law_delay(q0.sched, task(request.priority, due, seq), now, t);
}

/// When every read a dequeue made gave the bytes of a stored record, it hands
/// out one item per fetched task: the first of the ready tasks, as many as
/// asked for or as are ready, in (priority, due time, sequence) order, each
/// with its stored payload, meta and priority.
pub proof fn law_queue_dequeue_complete(
    q0: QueueView,
    q1: QueueView,
    count: i32,
    lease: i32,
    now: u64,
    r: Result<DequeueReply, QueueError>,
    reads: Seq<Option<Seq<u8>>>,
)
    requires
        q0.sched.wf(),
        dequeue_post(q0, q1, count, lease, now, r),
        reads_agree(reads, q0.sched.ready.take(q0.sched.fetch_len(count as u32) as int), q0.msgs),
        hydrated_seq(r->Ok_0.items@, q0.sched.ready.take(q0.sched.fetch_len(count as u32) as int), reads),
        forall|i: int| 0 <= i < reads.len() ==> #[trigger] reads[i] is Some && is_record(reads[i]->Some_0),
    ensures
        r is Ok,
        r->Ok_0.items@.len() == q0.sched.fetch_len(count as u32),
        sorted_by_key(q0.sched.ready.take(q0.sched.fetch_len(count as u32) as int)),
        forall|i: int|
            0 <= i < r->Ok_0.items@.len() ==> hydrated(#[trigger] r->Ok_0.items@[i], q0.sched.ready[i], q0.msgs),
{
    let k = q0.sched.fetch_len(count as u32);
    let fetched = q0.sched.ready.take(k as int);
    let items = r->Ok_0.items@;
    law_dequeue_order(q0.sched, count as u32);
    lemma_hydrated_seq_all(items, fetched, reads);
    assert forall|i: int| 0 <= i < items.len() implies hydrated(#[trigger] items[i], q0.sched.ready[i], q0.msgs) by {
        assert(fetched[i] == q0.sched.ready[i]);
        assert(item_from(items[i], fetched[i], reads[i]->Some_0));
        assert(reads[i] is Some);
    }
}

} // verus!
