//! The per-topic scheduler: a ready list ordered by (priority, due time, id)
//! and a delay wheel ordered by due time.
//!
//! Each id is tracked at most once, either as ready or as delayed.  Cancelling
//! a delayed id, or moving an id from one side to the other, removes its entry
//! at once, so neither side ever holds a stale copy.
use crate::utils::{be8, be_value, msgid_from_u64, msgid_to_u64};
use vstd::prelude::*;

verus! {

/// A task as the scheduler keeps it: the id is the sequence number itself.
#[derive(Clone, Copy, Debug, PartialEq, Eq, Structural)]
pub struct Entry {
    pub priority: i32,
    pub due: u64,
    pub id: u64,
}

/// A task as it is handed in and out: the id is the eight-byte key.
#[derive(Debug, Clone, PartialEq, Eq, PartialOrd, Ord, Default)]
pub struct TaskItem {
    pub priority: i32,
    pub timestamp: u64,
    pub message_id: Vec<u8>,
}

/// How many tasks wait as ready and how many as delayed.
pub struct QueueStats {
    pub ready_size: u64,
    pub delayed_size: u64,
}

/// `a` is handed out before `b`: lower priority first, then earlier due time,
/// then lower id.
pub open spec fn before(a: Entry, b: Entry) -> bool {
    a.priority < b.priority || (a.priority == b.priority && a.due < b.due) || (a.priority
        == b.priority && a.due == b.due && a.id < b.id)
}

pub open spec fn sorted_by_key(s: Seq<Entry>) -> bool {
    forall|i: int, j: int| 0 <= i < j < s.len() ==> before(#[trigger] s[i], #[trigger] s[j])
}

pub open spec fn sorted_by_due(s: Seq<Entry>) -> bool {
    forall|i: int, j: int| 0 <= i < j < s.len() ==> (#[trigger] s[i]).due <= (#[trigger] s[j]).due
}

pub open spec fn has_id(s: Seq<Entry>, id: u64) -> bool {
    exists|i: int| 0 <= i < s.len() && (#[trigger] s[i]).id == id
}

pub open spec fn unique_ids(s: Seq<Entry>) -> bool {
    forall|i: int, j: int|
        0 <= i < s.len() && 0 <= j < s.len() && i != j ==> (#[trigger] s[i]).id != (
        #[trigger] s[j]).id
}

pub open spec fn index_of(s: Seq<Entry>, id: u64) -> int {
    choose|i: int| 0 <= i < s.len() && (#[trigger] s[i]).id == id
}

/// `s` without the entry of `id`.
pub open spec fn without_id(s: Seq<Entry>, id: u64) -> Seq<Entry> {
    if has_id(s, id) {
        s.remove(index_of(s, id))
    } else {
        s
    }
}

/// `e` placed into a list ordered by key.
pub open spec fn insert_by_key(s: Seq<Entry>, e: Entry) -> Seq<Entry>
    decreases s.len(),
{
    if s.len() == 0 {
        seq![e]
    } else if before(e, s[0]) {
        seq![e] + s
    } else {
        seq![s[0]] + insert_by_key(s.drop_first(), e)
    }
}

/// `e` placed into a list ordered by due time, after every entry due no later.
pub open spec fn insert_by_due(s: Seq<Entry>, e: Entry) -> Seq<Entry>
    decreases s.len(),
{
    if s.len() == 0 {
        seq![e]
    } else if e.due < s[0].due {
        seq![e] + s
    } else {
        seq![s[0]] + insert_by_due(s.drop_first(), e)
    }
}

/// Every entry of `s`, in turn, placed into `r` by key.
pub open spec fn insert_all(r: Seq<Entry>, s: Seq<Entry>) -> Seq<Entry>
    decreases s.len(),
{
    if s.len() == 0 {
        r
    } else {
        insert_by_key(insert_all(r, s.drop_last()), s.last())
    }
}

/// How many leading entries of `s` are due at `now`.
pub open spec fn due_count(s: Seq<Entry>, now: u64) -> nat
    decreases s.len(),
{
    if s.len() == 0 || s[0].due > now {
        0
    } else {
        1 + due_count(s.drop_first(), now)
    }
}

/// The entry that a task item stands for.
pub open spec fn entry_of(t: TaskItem) -> Entry {
    Entry { priority: t.priority, due: t.timestamp, id: be_value(t.message_id@) }
}

/// The task item handed out for an entry.
pub open spec fn item_of(t: TaskItem, e: Entry) -> bool {
    t.priority == e.priority && t.timestamp == e.due && t.message_id@ == be8(e.id)
}

pub open spec fn sat_add(a: u64, b: u64) -> u64 {
    if a + b > u64::MAX {
        u64::MAX
    } else {
        (a + b) as u64
    }
}

/// What a scheduler holds: the ready entries in hand-out order, the delayed
/// entries in due order, and whether it was stopped.
pub struct SchedulerView {
    pub ready: Seq<Entry>,
    pub wheel: Seq<Entry>,
    pub stopped: bool,
}

impl SchedulerView {
    pub open spec fn wf(self) -> bool {
        &&& sorted_by_key(self.ready)
        &&& unique_ids(self.ready)
        &&& sorted_by_due(self.wheel)
        &&& unique_ids(self.wheel)
        &&& forall|id: u64| !(has_id(self.ready, id) && has_id(self.wheel, id))
    }

    /// Ids that wait to be handed out.
    pub open spec fn in_ready(self, id: u64) -> bool {
        has_id(self.ready, id)
    }

    /// Ids that wait for their due time (a pending delivery or a lease).
    pub open spec fn in_wheel(self, id: u64) -> bool {
        has_id(self.wheel, id)
    }

    /// The state after adding `e` at time `now`.
    pub open spec fn added(self, e: Entry, now: u64) -> SchedulerView {
        if e.due <= now {
            if has_id(self.ready, e.id) {
                self
            } else {
                SchedulerView {
                    ready: insert_by_key(self.ready, e),
                    wheel: without_id(self.wheel, e.id),
                    stopped: self.stopped,
                }
            }
        } else {
            if has_id(self.wheel, e.id) {
                self
            } else {
                SchedulerView {
                    ready: without_id(self.ready, e.id),
                    wheel: insert_by_due(self.wheel, e),
                    stopped: self.stopped,
                }
            }
        }
    }

    /// The state after cancelling the delayed entry of `id`.
    pub open spec fn cancelled(self, id: u64) -> SchedulerView {
        SchedulerView { ready: self.ready, wheel: without_id(self.wheel, id), stopped: self.stopped }
    }

    /// How many entries a fetch of `count` hands out.
    pub open spec fn fetch_len(self, count: u32) -> nat {
        if (count as nat) < self.ready.len() {
            count as nat
        } else {
            self.ready.len()
        }
    }

    /// The state after a fetch of `count`.
    pub open spec fn fetched(self, count: u32) -> SchedulerView {
        SchedulerView {
            ready: self.ready.skip(self.fetch_len(count) as int),
            wheel: self.wheel,
            stopped: self.stopped,
        }
    }

    /// The state after a tick at `now`: every delayed entry that is due becomes ready.
    pub open spec fn ticked(self, now: u64) -> SchedulerView {
        let p = due_count(self.wheel, now) as int;
        SchedulerView {
            ready: insert_all(self.ready, self.wheel.take(p)),
            wheel: self.wheel.skip(p),
            stopped: self.stopped,
        }
    }
}

/// The id at an index is present.
pub proof fn lemma_has_id_index(s: Seq<Entry>, i: int)
    requires
        0 <= i < s.len(),
    ensures
        has_id(s, s[i].id),
{
}

/// With unique ids, the entry of an id is found at its one index.
proof fn lemma_index_of_unique(s: Seq<Entry>, i: int)
    requires
        unique_ids(s),
        0 <= i < s.len(),
    ensures
        index_of(s, s[i].id) == i,
        has_id(s, s[i].id),
{
    assert(has_id(s, s[i].id));
}

/// Removing an entry keeps the other ids and the orders.
pub proof fn lemma_remove_props(s: Seq<Entry>, i: int)
    requires
        0 <= i < s.len(),
    ensures
        forall|id: u64| has_id(s.remove(i), id) ==> has_id(s, id),
        unique_ids(s) ==> unique_ids(s.remove(i)),
        unique_ids(s) ==> !has_id(s.remove(i), s[i].id),
        unique_ids(s) ==> forall|id: u64| id != s[i].id && has_id(s, id) ==> has_id(s.remove(i), id),
        sorted_by_key(s) ==> sorted_by_key(s.remove(i)),
        sorted_by_due(s) ==> sorted_by_due(s.remove(i)),
{
    let r = s.remove(i);
    assert forall|id: u64| has_id(r, id) implies has_id(s, id) by {
        let k = choose|k: int| 0 <= k < r.len() && (#[trigger] r[k]).id == id;
        if k < i {
            assert(s[k] == r[k]);
        } else {
            assert(s[k + 1] == r[k]);
        }
    }
    if unique_ids(s) {
        assert forall|id: u64| id != s[i].id && has_id(s, id) implies has_id(r, id) by {
            let k = choose|k: int| 0 <= k < s.len() && (#[trigger] s[k]).id == id;
            if k < i {
                assert(r[k] == s[k]);
            } else {
                assert(k != i);
                assert(r[k - 1] == s[k]);
            }
        }
    }
}

/// Placing `e` by key adds exactly `e`.
pub proof fn lemma_insert_contains(s: Seq<Entry>, e: Entry)
    ensures
        insert_by_key(s, e).len() == s.len() + 1,
        forall|x: Entry| #[trigger] insert_by_key(s, e).contains(x) <==> (s.contains(x) || x == e),
    decreases s.len(),
{
    let r = insert_by_key(s, e);
    if s.len() == 0 {
        assert(r =~= seq![e]);
        assert(r[0] == e);
    } else if before(e, s[0]) {
        assert(r =~= seq![e] + s);
        assert forall|x: Entry| r.contains(x) <==> (s.contains(x) || x == e) by {
            if r.contains(x) {
                let k = choose|k: int| 0 <= k < r.len() && r[k] == x;
                if k > 0 {
                    assert(s[k - 1] == x);
                }
            }
            if s.contains(x) {
                let k = choose|k: int| 0 <= k < s.len() && s[k] == x;
                assert(r[k + 1] == x);
            }
            if x == e {
                assert(r[0] == x);
            }
        }
    } else {
        let t = s.drop_first();
        lemma_insert_contains(t, e);
        let u = insert_by_key(t, e);
        assert(r =~= seq![s[0]] + u);
        assert forall|x: Entry| r.contains(x) <==> (s.contains(x) || x == e) by {
            if r.contains(x) {
                let k = choose|k: int| 0 <= k < r.len() && r[k] == x;
                if k > 0 {
                    assert(u[k - 1] == x);
                    assert(u.contains(x));
                    if t.contains(x) {
                        let m = choose|m: int| 0 <= m < t.len() && t[m] == x;
                        assert(s[m + 1] == x);
                    }
                } else {
                    assert(s[0] == x);
                }
            }
            if s.contains(x) {
                let k = choose|k: int| 0 <= k < s.len() && s[k] == x;
                if k == 0 {
                    assert(r[0] == x);
                } else {
                    assert(t[k - 1] == x);
                    assert(t.contains(x));
                    assert(u.contains(x));
                    let m = choose|m: int| 0 <= m < u.len() && u[m] == x;
                    assert(r[m + 1] == x);
                }
            }
            if x == e {
                assert(u.contains(x));
                let m = choose|m: int| 0 <= m < u.len() && u[m] == x;
                assert(r[m + 1] == x);
            }
        }
    }
}

/// An id is present exactly when an entry carrying it is.
pub proof fn lemma_has_id_contains(s: Seq<Entry>, id: u64)
    ensures
        has_id(s, id) <==> exists|x: Entry| #[trigger] s.contains(x) && x.id == id,
{
    if has_id(s, id) {
        let k = choose|k: int| 0 <= k < s.len() && (#[trigger] s[k]).id == id;
        assert(s.contains(s[k]));
    }
    if exists|x: Entry| #[trigger] s.contains(x) && x.id == id {
        let x = choose|x: Entry| #[trigger] s.contains(x) && x.id == id;
        let k = choose|k: int| 0 <= k < s.len() && s[k] == x;
        lemma_has_id_index(s, k);
    }
}

/// Putting `a` in front of an ordered list of other ids, all after `a`, keeps it
/// ordered with unique ids.
proof fn lemma_cons_sorted(a: Entry, u: Seq<Entry>)
    requires
        sorted_by_key(u),
        unique_ids(u),
        forall|k: int| 0 <= k < u.len() ==> before(a, #[trigger] u[k]) && u[k].id != a.id,
    ensures
        sorted_by_key(seq![a] + u),
        unique_ids(seq![a] + u),
{
    let r = seq![a] + u;
    assert forall|i: int, j: int| 0 <= i < j < r.len() implies before(
        #[trigger] r[i],
        #[trigger] r[j],
    ) by {
        if i == 0 {
            assert(r[j] == u[j - 1]);
        } else {
            assert(r[i] == u[i - 1] && r[j] == u[j - 1]);
        }
    }
    assert forall|i: int, j: int|
        0 <= i < r.len() && 0 <= j < r.len() && i != j implies (#[trigger] r[i]).id != (
        #[trigger] r[j]).id by {
        if i == 0 {
            assert(r[j] == u[j - 1]);
        } else if j == 0 {
            assert(r[i] == u[i - 1]);
        } else {
            assert(r[i] == u[i - 1] && r[j] == u[j - 1]);
        }
    }
}

/// Placing `e` by key keeps the list ordered and adds exactly `e`.
pub proof fn lemma_insert_by_key(s: Seq<Entry>, e: Entry)
    requires
        sorted_by_key(s),
        unique_ids(s),
        !has_id(s, e.id),
    ensures
        sorted_by_key(insert_by_key(s, e)),
        unique_ids(insert_by_key(s, e)),
        insert_by_key(s, e).len() == s.len() + 1,
        forall|x: Entry| #[trigger] insert_by_key(s, e).contains(x) <==> (s.contains(x) || x == e),
        forall|id: u64| has_id(insert_by_key(s, e), id) <==> (has_id(s, id) || id == e.id),
    decreases s.len(),
{
    lemma_insert_contains(s, e);
    let r = insert_by_key(s, e);
    assert forall|id: u64| has_id(r, id) <==> (has_id(s, id) || id == e.id) by {
        lemma_has_id_contains(r, id);
        lemma_has_id_contains(s, id);
        if has_id(r, id) {
            let x = choose|x: Entry| #[trigger] r.contains(x) && x.id == id;
            if x != e {
                assert(s.contains(x));
            }
        }
        if has_id(s, id) {
            let x = choose|x: Entry| #[trigger] s.contains(x) && x.id == id;
            assert(r.contains(x));
        }
        if id == e.id {
            assert(r.contains(e));
        }
    }
    if s.len() == 0 {
        assert(r =~= seq![e]);
    } else if before(e, s[0]) {
        assert(r =~= seq![e] + s);
        assert forall|k: int| 0 <= k < s.len() implies before(e, #[trigger] s[k]) && s[k].id
            != e.id by {
            if k > 0 {
                assert(before(s[0], s[k]));
            }
            lemma_has_id_index(s, k);
        }
        lemma_cons_sorted(e, s);
    } else {
        let t = s.drop_first();
        assert(sorted_by_key(t)) by {
            assert forall|i: int, j: int| 0 <= i < j < t.len() implies before(
                #[trigger] t[i],
                #[trigger] t[j],
            ) by {
                assert(t[i] == s[i + 1] && t[j] == s[j + 1]);
            }
        }
        assert(unique_ids(t)) by {
            assert forall|i: int, j: int|
                0 <= i < t.len() && 0 <= j < t.len() && i != j implies (#[trigger] t[i]).id != (
                #[trigger] t[j]).id by {
                assert(t[i] == s[i + 1] && t[j] == s[j + 1]);
            }
        }
        assert(!has_id(t, e.id)) by {
            if has_id(t, e.id) {
                let k = choose|k: int| 0 <= k < t.len() && (#[trigger] t[k]).id == e.id;
                assert(s[k + 1] == t[k]);
            }
        }
        lemma_insert_by_key(t, e);
        let u = insert_by_key(t, e);
        assert(r =~= seq![s[0]] + u);
        assert(s[0].id != e.id) by {
            lemma_has_id_index(s, 0);
        }
        assert forall|k: int| 0 <= k < u.len() implies before(s[0], #[trigger] u[k]) && u[k].id
            != s[0].id by {
            assert(u.contains(u[k]));
            if u[k] != e {
                assert(t.contains(u[k]));
                let m = choose|m: int| 0 <= m < t.len() && t[m] == u[k];
                assert(t[m] == s[m + 1]);
            }
        }
        lemma_cons_sorted(s[0], u);
    }
}

/// Placing `e` by key puts it at the first index whose entry comes after it.
proof fn lemma_insert_by_key_at(s: Seq<Entry>, e: Entry, i: int)
    requires
        0 <= i <= s.len(),
        forall|j: int| 0 <= j < i ==> !before(e, #[trigger] s[j]),
        i == s.len() || before(e, s[i]),
    ensures
        insert_by_key(s, e) == s.insert(i, e),
    decreases s.len(),
{
    if s.len() == 0 {
        assert(s.insert(i, e) =~= seq![e]);
    } else if i == 0 {
        assert(s.insert(i, e) =~= seq![e] + s);
    } else {
        let t = s.drop_first();
        assert forall|j: int| 0 <= j < i - 1 implies !before(e, #[trigger] t[j]) by {
            assert(t[j] == s[j + 1]);
        }
        lemma_insert_by_key_at(t, e, i - 1);
        assert(s.insert(i, e) =~= seq![s[0]] + t.insert(i - 1, e));
    }
}

/// Placing `e` by due time puts it at the first index due strictly later.
proof fn lemma_insert_by_due_at(s: Seq<Entry>, e: Entry, i: int)
    requires
        0 <= i <= s.len(),
        forall|j: int| 0 <= j < i ==> (#[trigger] s[j]).due <= e.due,
        i == s.len() || e.due < s[i].due,
    ensures
        insert_by_due(s, e) == s.insert(i, e),
    decreases s.len(),
{
    if s.len() == 0 {
        assert(s.insert(i, e) =~= seq![e]);
    } else if i == 0 {
        assert(s.insert(i, e) =~= seq![e] + s);
    } else {
        let t = s.drop_first();
        assert forall|j: int| 0 <= j < i - 1 implies (#[trigger] t[j]).due <= e.due by {
            assert(t[j] == s[j + 1]);
        }
        lemma_insert_by_due_at(t, e, i - 1);
        assert(s.insert(i, e) =~= seq![s[0]] + t.insert(i - 1, e));
    }
}

/// Inserting an entry with a new id keeps ids unique and adds that id.
proof fn lemma_seq_insert_ids(s: Seq<Entry>, e: Entry, i: int)
    requires
        0 <= i <= s.len(),
        unique_ids(s),
        !has_id(s, e.id),
    ensures
        unique_ids(s.insert(i, e)),
        forall|id: u64| has_id(s.insert(i, e), id) <==> (has_id(s, id) || id == e.id),
{
    let r = s.insert(i, e);
    assert forall|a: int, b: int|
        0 <= a < r.len() && 0 <= b < r.len() && a != b implies (#[trigger] r[a]).id != (
        #[trigger] r[b]).id by {
        if a < i {
            lemma_has_id_index(s, a);
        } else if a > i {
            lemma_has_id_index(s, a - 1);
        }
        if b < i {
            lemma_has_id_index(s, b);
        } else if b > i {
            lemma_has_id_index(s, b - 1);
        }
        if a != i && b != i {
            let a2 = if a < i { a } else { a - 1 };
            let b2 = if b < i { b } else { b - 1 };
            assert(r[a] == s[a2] && r[b] == s[b2]);
        }
    }
    assert forall|id: u64| has_id(r, id) <==> (has_id(s, id) || id == e.id) by {
        if has_id(r, id) {
            let k = choose|k: int| 0 <= k < r.len() && (#[trigger] r[k]).id == id;
            if k < i {
                assert(r[k] == s[k]);
            } else if k > i {
                assert(r[k] == s[k - 1]);
            }
        }
        if has_id(s, id) {
            let k = choose|k: int| 0 <= k < s.len() && (#[trigger] s[k]).id == id;
            if k < i {
                assert(r[k] == s[k]);
            } else {
                assert(r[k + 1] == s[k]);
            }
        }
        if id == e.id {
            assert(r[i] == e);
        }
    }
}

/// Placing an entry with a new id by due time keeps the wheel ordered.
proof fn lemma_insert_by_due_sorted(s: Seq<Entry>, e: Entry, i: int)
    requires
        0 <= i <= s.len(),
        sorted_by_due(s),
        forall|j: int| 0 <= j < i ==> (#[trigger] s[j]).due <= e.due,
        i == s.len() || e.due < s[i].due,
    ensures
        sorted_by_due(s.insert(i, e)),
{
    let r = s.insert(i, e);
    assert forall|a: int, b: int| 0 <= a < b < r.len() implies (#[trigger] r[a]).due <= (
    #[trigger] r[b]).due by {
        if b < i {
            assert(r[a] == s[a] && r[b] == s[b]);
        } else if b == i {
            assert(r[a] == s[a]);
        } else if a < i {
            assert(r[a] == s[a] && r[b] == s[b - 1]);
            if i < s.len() {
                assert(s[a].due <= s[i].due);
                assert(s[i].due <= s[b - 1].due);
            }
        } else if a == i {
            assert(r[b] == s[b - 1]);
            assert(s[i].due <= s[b - 1].due);
        } else {
            assert(r[a] == s[a - 1] && r[b] == s[b - 1]);
        }
    }
}

/// A wheel whose first `p` entries are due and whose next one is not has `p`
/// due entries.
proof fn lemma_due_count(s: Seq<Entry>, now: u64, p: int)
    requires
        0 <= p <= s.len(),
        forall|j: int| 0 <= j < p ==> (#[trigger] s[j]).due <= now,
        p == s.len() || s[p].due > now,
    ensures
        due_count(s, now) == p,
    decreases p,
{
    if p > 0 {
        let t = s.drop_first();
        assert forall|j: int| 0 <= j < p - 1 implies (#[trigger] t[j]).due <= now by {
            assert(t[j] == s[j + 1]);
        }
        lemma_due_count(t, now, p - 1);
    }
}

/// A suffix of a well-formed list stays well formed.
pub proof fn lemma_skip_props(s: Seq<Entry>, k: int)
    requires
        0 <= k <= s.len(),
    ensures
        sorted_by_key(s) ==> sorted_by_key(s.skip(k)),
        sorted_by_due(s) ==> sorted_by_due(s.skip(k)),
        unique_ids(s) ==> unique_ids(s.skip(k)),
        forall|id: u64| has_id(s.skip(k), id) ==> has_id(s, id),
{
    let t = s.skip(k);
    assert forall|id: u64| has_id(t, id) implies has_id(s, id) by {
        let j = choose|j: int| 0 <= j < t.len() && (#[trigger] t[j]).id == id;
        assert(t[j] == s[j + k]);
    }
    if sorted_by_key(s) {
        assert forall|i: int, j: int| 0 <= i < j < t.len() implies before(
            #[trigger] t[i],
            #[trigger] t[j],
        ) by {
            assert(t[i] == s[i + k] && t[j] == s[j + k]);
        }
    }
    if sorted_by_due(s) {
        assert forall|i: int, j: int| 0 <= i < j < t.len() implies (#[trigger] t[i]).due <= (
        #[trigger] t[j]).due by {
            assert(t[i] == s[i + k] && t[j] == s[j + k]);
        }
    }
    if unique_ids(s) {
        assert forall|i: int, j: int|
            0 <= i < t.len() && 0 <= j < t.len() && i != j implies (#[trigger] t[i]).id != (
            #[trigger] t[j]).id by {
            assert(t[i] == s[i + k] && t[j] == s[j + k]);
        }
    }
}

fn entry_before(a: Entry, b: Entry) -> (r: bool)
    ensures
        r == before(a, b),
{
    a.priority < b.priority || (a.priority == b.priority && a.due < b.due) || (a.priority
        == b.priority && a.due == b.due && a.id < b.id)
}

/// Places `e` into the key-ordered list `v`.
fn insert_ready(v: &mut Vec<Entry>, e: Entry)
    requires
        sorted_by_key(old(v)@),
        unique_ids(old(v)@),
        !has_id(old(v)@, e.id),
    ensures
        final(v)@ == insert_by_key(old(v)@, e),
        sorted_by_key(final(v)@),
        unique_ids(final(v)@),
        forall|id: u64| has_id(final(v)@, id) <==> (has_id(old(v)@, id) || id == e.id),
{
    let mut i: usize = 0;
    while i < v.len() && !entry_before(e, v[i])
        invariant
            i <= v@.len(),
            forall|j: int| 0 <= j < i ==> !before(e, #[trigger] v@[j]),
        decreases v@.len() - i,
    {
        i = i + 1;
    }
    proof {
        lemma_insert_by_key_at(v@, e, i as int);
        lemma_insert_by_key(v@, e);
    }
    v.insert(i, e);
}

/// Places `e` into the due-ordered list `v`, after every entry due no later.
fn insert_wheel(v: &mut Vec<Entry>, e: Entry)
    requires
        sorted_by_due(old(v)@),
        unique_ids(old(v)@),
        !has_id(old(v)@, e.id),
    ensures
        final(v)@ == insert_by_due(old(v)@, e),
        sorted_by_due(final(v)@),
        unique_ids(final(v)@),
        forall|id: u64| has_id(final(v)@, id) <==> (has_id(old(v)@, id) || id == e.id),
{
    let mut i: usize = 0;
    while i < v.len() && v[i].due <= e.due
        invariant
            i <= v@.len(),
            forall|j: int| 0 <= j < i ==> (#[trigger] v@[j]).due <= e.due,
        decreases v@.len() - i,
    {
        i = i + 1;
    }
    proof {
        lemma_insert_by_due_at(v@, e, i as int);
        lemma_seq_insert_ids(v@, e, i as int);
        lemma_insert_by_due_sorted(v@, e, i as int);
    }
    v.insert(i, e);
}

/// Index of the entry of `id` in `v`, if any.
fn find_id(v: &Vec<Entry>, id: u64) -> (r: Option<usize>)
    ensures
        r matches Some(i) ==> i < v@.len() && v@[i as int].id == id,
        r is None ==> !has_id(v@, id),
{
    let mut i: usize = 0;
    while i < v.len()
        invariant
            i <= v@.len(),
            forall|j: int| 0 <= j < i ==> (#[trigger] v@[j]).id != id,
        decreases v@.len() - i,
    {
        if v[i].id == id {
            return Some(i);
        }
        i = i + 1;
    }
    None
}

/// Removes the entry of `id` from `v`; tells whether there was one.
fn remove_id(v: &mut Vec<Entry>, id: u64) -> (r: bool)
    requires
        unique_ids(old(v)@),
    ensures
        r == has_id(old(v)@, id),
        final(v)@ == without_id(old(v)@, id),
        unique_ids(final(v)@),
        !has_id(final(v)@, id),
        forall|x: u64| has_id(final(v)@, x) <==> (has_id(old(v)@, x) && x != id),
        sorted_by_key(old(v)@) ==> sorted_by_key(final(v)@),
        sorted_by_due(old(v)@) ==> sorted_by_due(final(v)@),
{
    match find_id(v, id) {
        Some(i) => {
            proof {
                lemma_index_of_unique(v@, i as int);
                lemma_remove_props(v@, i as int);
            }
            v.remove(i);
            true
        },
        None => false,
    }
}

impl TaskItem {
    /// The same message, due `milli_seconds` after `now` (at `now` for a
    /// delay that is not positive; the due time saturates at the largest time).
    pub fn delayed_copy(&self, milli_seconds: i32, now: u64) -> (r: TaskItem)
        ensures
            r.priority == self.priority,
            r.message_id@ == self.message_id@,
            r.timestamp == if milli_seconds <= 0 {
                now
            } else {
                sat_add(now, milli_seconds as u64)
            },
    {
        let delay: u64 = if milli_seconds <= 0 {
            0
        } else {
            milli_seconds as u64
        };
        TaskItem {
            priority: self.priority,
            message_id: clone_bytes(&self.message_id),
            timestamp: now.saturating_add(delay),
        }
    }
}

/// The same bytes in a new vector.
pub fn clone_bytes(v: &Vec<u8>) -> (r: Vec<u8>)
    ensures
        r@ == v@,
{
    let mut r: Vec<u8> = Vec::new();
    let mut i: usize = 0;
    while i < v.len()
        invariant
            i <= v@.len(),
            r@ == v@.take(i as int),
        decreases v@.len() - i,
    {
        r.push(v[i]);
        i = i + 1;
        assert(r@ =~= v@.take(i as int));
    }
    assert(v@.take(v@.len() as int) =~= v@);
    r
}

/// The scheduler of one topic.  Time is handed in by the caller: `add_task`
/// compares due times with `now`, and `tick` promotes what is due at `now`.
pub struct Worker {
    ready: Vec<Entry>,
    wheel: Vec<Entry>,
    stopped: bool,
}

impl View for Worker {
    type V = SchedulerView;

    closed spec fn view(&self) -> SchedulerView {
        SchedulerView { ready: self.ready@, wheel: self.wheel@, stopped: self.stopped }
    }
}

impl Worker {
    /// An empty, running scheduler.
    pub fn new() -> (r: Worker)
        ensures
            r@.wf(),
            r@.ready == Seq::<Entry>::empty(),
            r@.wheel == Seq::<Entry>::empty(),
            !r@.stopped,
    {
        Worker { ready: Vec::new(), wheel: Vec::new(), stopped: false }
    }

    /// Schedules a task: ready now if it is due at `now`, else delayed until its
    /// due time.  An id already waiting on the same side is left as it is.
    pub fn add_task(&mut self, item: TaskItem, now: u64)
        requires
            old(self)@.wf(),
            item.message_id@.len() == 8,
        ensures
            final(self)@.wf(),
            final(self)@ == old(self)@.added(entry_of(item), now),
    {
        let id = msgid_to_u64(item.message_id.as_slice());
        let e = Entry { priority: item.priority, due: item.timestamp, id };
        if e.due <= now {
            if find_id(&self.ready, id).is_some() {
                return ;
            }
            insert_ready(&mut self.ready, e);
            remove_id(&mut self.wheel, id);
        } else {
            if find_id(&self.wheel, id).is_some() {
                return ;
            }
            remove_id(&mut self.ready, id);
            insert_wheel(&mut self.wheel, e);
        }
    }

    /// Hands out up to `count` ready tasks, first in order first.
    pub fn fetch_tasks(&mut self, count: u32) -> (r: Vec<TaskItem>)
        requires
            old(self)@.wf(),
        ensures
            final(self)@.wf(),
            final(self)@ == old(self)@.fetched(count),
            r@.len() == old(self)@.fetch_len(count),
            forall|i: int| 0 <= i < r@.len() ==> item_of(#[trigger] r@[i], old(self)@.ready[i]),
    {
        let k: usize = if (count as usize) < self.ready.len() {
            count as usize
        } else {
            self.ready.len()
        };
        let mut items: Vec<TaskItem> = Vec::new();
        let mut i: usize = 0;
        while i < k
            invariant
                k <= self.ready@.len(),
                i <= k,
                items@.len() == i,
                forall|j: int| 0 <= j < i ==> item_of(#[trigger] items@[j], self.ready@[j]),
            decreases k - i,
        {
            let e = self.ready[i];
            items.push(TaskItem { priority: e.priority, timestamp: e.due, message_id: msgid_from_u64(e.id) });
            i = i + 1;
        }
        let rest = self.ready.split_off(k);
        proof {
            lemma_skip_props(old(self)@.ready, k as int);
            assert(rest@ =~= old(self)@.ready.skip(k as int));
        }
        self.ready = rest;
        items
    }

    /// Withdraws the delayed task of an id; tells whether there was one.
    pub fn cancel_task(&mut self, message_id: &Vec<u8>) -> (r: bool)
        requires
            old(self)@.wf(),
            message_id@.len() == 8,
        ensures
            final(self)@.wf(),
            r == old(self)@.in_wheel(be_value(message_id@)),
            final(self)@ == old(self)@.cancelled(be_value(message_id@)),
    {
        let id = msgid_to_u64(message_id.as_slice());
        remove_id(&mut self.wheel, id)
    }

    /// How many tasks are ready and how many are delayed.
    pub fn stats(&self) -> (r: QueueStats)
        ensures
            r.ready_size == self@.ready.len(),
            r.delayed_size == self@.wheel.len(),
    {
        QueueStats { ready_size: self.ready.len() as u64, delayed_size: self.wheel.len() as u64 }
    }

    /// Marks the scheduler stopped: later ticks do nothing.
    pub fn stop(&mut self)
        ensures
            final(self)@ == (SchedulerView { stopped: true, ..old(self)@ }),
    {
        self.stopped = true;
    }

    /// One turn of the promotion loop at time `now`: every delayed task due by
    /// `now` becomes ready.  Returns whether the loop should go on, which is
    /// false once the scheduler was stopped.
    pub fn tick(&mut self, now: u64) -> (r: bool)
        requires
            old(self)@.wf(),
        ensures
            final(self)@.wf(),
            r == !old(self)@.stopped,
            old(self)@.stopped ==> final(self)@ == old(self)@,
            !old(self)@.stopped ==> final(self)@ == old(self)@.ticked(now),
    {
        if self.stopped {
            return false;
        }
        let ghost r0 = self.ready@;
        let mut p: usize = 0;
        while p < self.wheel.len() && self.wheel[p].due <= now
            invariant
                sorted_by_key(self.ready@),
                unique_ids(self.ready@),
                sorted_by_due(self.wheel@),
                unique_ids(self.wheel@),
                self.wheel@ == old(self).wheel@,
                self.stopped == old(self).stopped,
                r0 == old(self).ready@,
                p <= self.wheel@.len(),
                self.ready@ == insert_all(r0, self.wheel@.take(p as int)),
                forall|j: int| 0 <= j < p ==> (#[trigger] self.wheel@[j]).due <= now,
                forall|q: int| p <= q < self.wheel@.len() ==> !has_id(self.ready@, (#[trigger] self.wheel@[q]).id),
                forall|id: u64| has_id(self.ready@, id) ==> (has_id(r0, id) || has_id(self.wheel@.take(p as int), id)),
            decreases self.wheel@.len() - p,
        {
            let e = self.wheel[p];
            proof {
                let w = self.wheel@;
                assert(w.take(p + 1).drop_last() =~= w.take(p as int));
                assert(w.take(p + 1).last() == e);
            }
            insert_ready(&mut self.ready, e);
            proof {
                let w = self.wheel@;
                assert forall|q: int| p + 1 <= q < w.len() implies !has_id(self.ready@, (#[trigger] w[q]).id) by {
                    lemma_has_id_index(w, q);
                }
                assert forall|id: u64| has_id(self.ready@, id) implies (has_id(r0, id) || has_id(w.take(p + 1), id)) by {
                    if has_id(w.take(p as int), id) {
                        let j = choose|j: int| 0 <= j < w.take(p as int).len() && (#[trigger] w.take(p as int)[j]).id == id;
                        assert(w.take(p + 1)[j] == w[j]);
                    }
                    if id == e.id {
                        assert(w.take(p + 1)[p as int] == e);
                    }
                }
            }
            p = p + 1;
        }
        proof {
            lemma_due_count(self.wheel@, now, p as int);
        }
        let rest = self.wheel.split_off(p);
        proof {
            let w = old(self).wheel@;
            lemma_skip_props(w, p as int);
            assert(rest@ =~= w.skip(p as int));
            assert forall|id: u64| !(has_id(self.ready@, id) && has_id(rest@, id)) by {
                if has_id(self.ready@, id) && has_id(rest@, id) {
                    let q = choose|q: int| 0 <= q < rest@.len() && (#[trigger] rest@[q]).id == id;
                    assert(rest@[q] == w[q + p]);
                    if has_id(r0, id) {
                        lemma_has_id_index(w, q + p);
                    } else {
                        let j = choose|j: int| 0 <= j < w.take(p as int).len() && (#[trigger] w.take(p as int)[j]).id == id;
                        assert(w.take(p as int)[j] == w[j]);
                    }
                }
            }
        }
        self.wheel = rest;
        true
    }
}

impl SchedulerView {
    /// The id waits on one side or the other.
    pub open spec fn tracks(self, id: u64) -> bool {
        self.in_ready(id) || self.in_wheel(id)
    }
}

/// Placing `e` by due time adds exactly `e`.
pub proof fn lemma_insert_due_contains(s: Seq<Entry>, e: Entry)
    ensures
        forall|x: Entry| #[trigger] insert_by_due(s, e).contains(x) <==> (s.contains(x) || x == e),
    decreases s.len(),
{
    let r = insert_by_due(s, e);
    if s.len() == 0 {
        assert(r =~= seq![e]);
        assert(r[0] == e);
    } else if e.due < s[0].due {
        assert(r =~= seq![e] + s);
        assert forall|x: Entry| r.contains(x) <==> (s.contains(x) || x == e) by {
            if r.contains(x) {
                let k = choose|k: int| 0 <= k < r.len() && r[k] == x;
                if k > 0 {
                    assert(s[k - 1] == x);
                }
            }
            if s.contains(x) {
                let k = choose|k: int| 0 <= k < s.len() && s[k] == x;
                assert(r[k + 1] == x);
            }
            if x == e {
                assert(r[0] == x);
            }
        }
    } else {
        let t = s.drop_first();
        lemma_insert_due_contains(t, e);
        let u = insert_by_due(t, e);
        assert(r =~= seq![s[0]] + u);
        assert forall|x: Entry| r.contains(x) <==> (s.contains(x) || x == e) by {
            if r.contains(x) {
                let k = choose|k: int| 0 <= k < r.len() && r[k] == x;
                if k > 0 {
                    assert(u[k - 1] == x);
                    assert(u.contains(x));
                    if t.contains(x) {
                        let m = choose|m: int| 0 <= m < t.len() && t[m] == x;
                        assert(s[m + 1] == x);
                    }
                } else {
                    assert(s[0] == x);
                }
            }
            if s.contains(x) {
                let k = choose|k: int| 0 <= k < s.len() && s[k] == x;
                if k == 0 {
                    assert(r[0] == x);
                } else {
                    assert(t[k - 1] == x);
                    assert(t.contains(x));
                    assert(u.contains(x));
                    let m = choose|m: int| 0 <= m < u.len() && u[m] == x;
                    assert(r[m + 1] == x);
                }
            }
            if x == e {
                assert(u.contains(x));
                let m = choose|m: int| 0 <= m < u.len() && u[m] == x;
                assert(r[m + 1] == x);
            }
        }
    }
}


/// The due entries of a due-ordered wheel are exactly its first `due_count`.
pub proof fn lemma_due_count_props(s: Seq<Entry>, now: u64)
    requires
        sorted_by_due(s),
    ensures
        due_count(s, now) <= s.len(),
        forall|j: int| 0 <= j < due_count(s, now) ==> (#[trigger] s[j]).due <= now,
        forall|j: int| due_count(s, now) <= j < s.len() ==> (#[trigger] s[j]).due > now,
    decreases s.len(),
{
    if s.len() > 0 && s[0].due <= now {
        let t = s.drop_first();
        assert(sorted_by_due(t)) by {
            assert forall|i: int, j: int| 0 <= i < j < t.len() implies (#[trigger] t[i]).due <= (
            #[trigger] t[j]).due by {
                assert(t[i] == s[i + 1] && t[j] == s[j + 1]);
            }
        }
        lemma_due_count_props(t, now);
        assert forall|j: int| 0 <= j < due_count(s, now) implies (#[trigger] s[j]).due <= now by {
            if j > 0 {
                assert(s[j] == t[j - 1]);
            }
        }
        assert forall|j: int| due_count(s, now) <= j < s.len() implies (#[trigger] s[j]).due > now by {
            assert(s[j] == t[j - 1]);
        }
    } else if s.len() > 0 {
        assert forall|j: int| 0 <= j < s.len() implies (#[trigger] s[j]).due > now by {
            if j > 0 {
                assert(s[0].due <= s[j].due);
            }
        }
    }
}

/// Adding a task keeps a scheduler well formed.
pub proof fn lemma_added_wf(v: SchedulerView, e: Entry, now: u64)
    requires
        v.wf(),
    ensures
        v.added(e, now).wf(),
        forall|id: u64|
            #[trigger] v.added(e, now).in_wheel(id) ==> v.in_wheel(id) || id == e.id,
        forall|id: u64|
            #[trigger] v.added(e, now).in_ready(id) ==> v.in_ready(id) || id == e.id,
{
    let w = v.added(e, now);
    if e.due <= now {
        if !has_id(v.ready, e.id) {
            lemma_insert_by_key(v.ready, e);
            if has_id(v.wheel, e.id) {
                let i = index_of(v.wheel, e.id);
                assert(0 <= i < v.wheel.len() && v.wheel[i].id == e.id);
                lemma_remove_props(v.wheel, i);
            }
            assert forall|id: u64| !(has_id(w.ready, id) && has_id(w.wheel, id)) by {
                if has_id(w.wheel, id) {
                    assert(has_id(v.wheel, id));
                }
            }
        }
    } else {
        if !has_id(v.wheel, e.id) {
            if has_id(v.ready, e.id) {
                let i = index_of(v.ready, e.id);
                assert(0 <= i < v.ready.len() && v.ready[i].id == e.id);
                lemma_remove_props(v.ready, i);
            }
            let p = due_count(v.wheel, e.due);
            lemma_due_count_props(v.wheel, e.due);
            lemma_insert_by_due_at(v.wheel, e, p as int);
            lemma_seq_insert_ids(v.wheel, e, p as int);
            lemma_insert_by_due_sorted(v.wheel, e, p as int);
            assert forall|id: u64| !(has_id(w.ready, id) && has_id(w.wheel, id)) by {
                if has_id(w.ready, id) {
                    assert(has_id(v.ready, id));
                }
            }
        }
    }
}

/// Placing every entry of `s` by key adds exactly those entries, keeping the
/// list ordered with unique ids.
pub proof fn lemma_insert_all(r: Seq<Entry>, s: Seq<Entry>)
    requires
        sorted_by_key(r),
        unique_ids(r),
        unique_ids(s),
        forall|id: u64| !(has_id(r, id) && has_id(s, id)),
    ensures
        sorted_by_key(insert_all(r, s)),
        unique_ids(insert_all(r, s)),
        forall|x: Entry| #[trigger] insert_all(r, s).contains(x) <==> (r.contains(x) || s.contains(x)),
        forall|id: u64| has_id(insert_all(r, s), id) <==> (has_id(r, id) || has_id(s, id)),
    decreases s.len(),
{
    if s.len() > 0 {
        let t = s.drop_last();
        assert(unique_ids(t)) by {
            assert forall|i: int, j: int|
                0 <= i < t.len() && 0 <= j < t.len() && i != j implies (#[trigger] t[i]).id != (
                #[trigger] t[j]).id by {
                assert(t[i] == s[i] && t[j] == s[j]);
            }
        }
        assert forall|id: u64| has_id(t, id) implies has_id(s, id) by {
            let k = choose|k: int| 0 <= k < t.len() && (#[trigger] t[k]).id == id;
            assert(s[k] == t[k]);
        }
        lemma_insert_all(r, t);
        let u = insert_all(r, t);
        let l = s.last();
        assert(!has_id(u, l.id)) by {
            lemma_has_id_index(s, s.len() - 1);
            if has_id(t, l.id) {
                let k = choose|k: int| 0 <= k < t.len() && (#[trigger] t[k]).id == l.id;
                assert(s[k] == t[k]);
            }
        }
        lemma_insert_by_key(u, l);
        assert forall|x: Entry| #[trigger] insert_all(r, s).contains(x) <==> (r.contains(x) || s.contains(x)) by {
            if s.contains(x) {
                let k = choose|k: int| 0 <= k < s.len() && s[k] == x;
                if k < s.len() - 1 {
                    assert(t[k] == x);
                    assert(t.contains(x));
                }
            }
            if t.contains(x) {
                let k = choose|k: int| 0 <= k < t.len() && t[k] == x;
                assert(s[k] == x);
            }
        }
        assert forall|id: u64| has_id(insert_all(r, s), id) <==> (has_id(r, id) || has_id(s, id)) by {
            if has_id(s, id) {
                let k = choose|k: int| 0 <= k < s.len() && (#[trigger] s[k]).id == id;
                if k < s.len() - 1 {
                    assert(t[k] == s[k]);
                }
            }
        }
    }
}

/// A tick makes ready exactly the delayed entries that are due, and keeps the
/// scheduler well formed.
pub proof fn lemma_ticked(v: SchedulerView, now: u64)
    requires
        v.wf(),
    ensures
        v.ticked(now).wf(),
        forall|x: Entry|
            #[trigger] v.ticked(now).ready.contains(x) <==> (v.ready.contains(x) || (v.wheel.contains(x)
                && x.due <= now)),
        forall|x: Entry|
            #[trigger] v.ticked(now).wheel.contains(x) <==> (v.wheel.contains(x) && x.due > now),
{
    let p = due_count(v.wheel, now) as int;
    lemma_due_count_props(v.wheel, now);
    let pre = v.wheel.take(p);
    let post = v.wheel.skip(p);
    assert(unique_ids(pre)) by {
        assert forall|i: int, j: int|
            0 <= i < pre.len() && 0 <= j < pre.len() && i != j implies (#[trigger] pre[i]).id != (
            #[trigger] pre[j]).id by {
            assert(pre[i] == v.wheel[i] && pre[j] == v.wheel[j]);
        }
    }
    assert forall|id: u64| has_id(pre, id) implies has_id(v.wheel, id) by {
        let k = choose|k: int| 0 <= k < pre.len() && (#[trigger] pre[k]).id == id;
        assert(v.wheel[k] == pre[k]);
    }
    lemma_insert_all(v.ready, pre);
    lemma_skip_props(v.wheel, p);
    assert forall|x: Entry| #[trigger] pre.contains(x) <==> (v.wheel.contains(x) && x.due <= now) by {
        if pre.contains(x) {
            let k = choose|k: int| 0 <= k < pre.len() && pre[k] == x;
            assert(v.wheel[k] == x);
        }
        if v.wheel.contains(x) && x.due <= now {
            let k = choose|k: int| 0 <= k < v.wheel.len() && v.wheel[k] == x;
            assert(pre[k] == x);
        }
    }
    assert forall|x: Entry| #[trigger] post.contains(x) <==> (v.wheel.contains(x) && x.due > now) by {
        if post.contains(x) {
            let k = choose|k: int| 0 <= k < post.len() && post[k] == x;
            assert(v.wheel[k + p] == x);
        }
        if v.wheel.contains(x) && x.due > now {
            let k = choose|k: int| 0 <= k < v.wheel.len() && v.wheel[k] == x;
            assert(post[k - p] == x);
        }
    }
    let w = v.ticked(now);
    assert forall|id: u64| !(has_id(w.ready, id) && has_id(w.wheel, id)) by {
        if has_id(w.ready, id) && has_id(w.wheel, id) {
            let k = choose|k: int| 0 <= k < post.len() && (#[trigger] post[k]).id == id;
            assert(post[k] == v.wheel[k + p]);
            lemma_has_id_index(v.wheel, k + p);
            if has_id(pre, id) {
                let m = choose|m: int| 0 <= m < pre.len() && (#[trigger] pre[m]).id == id;
                assert(pre[m] == v.wheel[m]);
            }
        }
    }
}

} // verus!
