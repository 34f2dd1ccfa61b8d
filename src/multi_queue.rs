//! Many topics behind one endpoint: topic names map to their queues, and each
//! request goes to the queue of its topic.
use crate::codec::EnqueueRequest;
use crate::kv::{new_kvstore, DbKind, KvError};
use crate::priority_queue::{
    ack_post, dequeue_post, enqueue_post, make_one_queue,
    nack_post, AckRequest, DequeueReply, DequeueRequest, EnqueueReply, NackRequest,
    PriorityQueueSvc, QueueError, QueueView, TopicStats,
};
use vstd::prelude::*;
use vstd::string::{StrSliceExecFns, StringExecFns};

verus! {

/// `p` occurs in `s`.
pub open spec fn contains_sub(s: Seq<char>, p: Seq<char>) -> bool {
    exists|i: int| 0 <= i <= s.len() - p.len() && #[trigger] s.subrange(i, i + p.len()) == p
}

/// `s` ends with `p`.
pub open spec fn ends_with(s: Seq<char>, p: Seq<char>) -> bool {
    p.len() <= s.len() && s.subrange(s.len() - p.len(), s.len() as int) == p
}

/// The suffix of a topic's index directory.
pub open spec fn index_suffix() -> Seq<char> {
    seq!['_', 'i', 'n', 'd', 'e', 'x']
}

/// The suffix of a removed topic's directory.
pub open spec fn gc_suffix() -> Seq<char> {
    seq!['_', 'g', 'c']
}

/// A name a topic may be created with: not empty, and free of the suffixes
/// that mark index and removed directories.
pub open spec fn valid_topic_name(name: Seq<char>) -> bool {
    name.len() > 0 && !contains_sub(name, index_suffix()) && !contains_sub(name, gc_suffix())
}

/// A directory entry that holds a topic's messages.
pub open spec fn is_topic_dir(name: Seq<char>) -> bool {
    !ends_with(name, index_suffix()) && !ends_with(name, gc_suffix())
}

/// Whether `p` occurs in `s` at `i`.
fn occurs_at(s: &str, p: &str, i: usize, n: usize, m: usize) -> (r: bool)
    requires
        n == s@.len(),
        m == p@.len(),
        i + m <= n,
    ensures
        r == (s@.subrange(i as int, i + m) == p@),
{
    let mut j: usize = 0;
    while j < m
        invariant
            n == s@.len(),
            m == p@.len(),
            i + m <= n,
            j <= m,
            forall|k: int| 0 <= k < j ==> s@[i + k] == p@[k],
        decreases m - j,
    {
        if s.get_char(i + j) != p.get_char(j) {
            assert(s@.subrange(i as int, i + m)[j as int] != p@[j as int]);
            return false;
        }
        j = j + 1;
    }
    assert(s@.subrange(i as int, i + m) =~= p@);
    true
}

/// Whether `p` occurs in `s`.
pub fn has_substring(s: &str, p: &str) -> (r: bool)
    ensures
        r == contains_sub(s@, p@),
{
    let n = s.unicode_len();
    let m = p.unicode_len();
    if m > n {
        return false;
    }
    let mut i: usize = 0;
    loop
        invariant
            n == s@.len(),
            m == p@.len(),
            m <= n,
            i <= n - m,
            forall|k: int| 0 <= k < i ==> #[trigger] s@.subrange(k, k + m) != p@,
        decreases n - m - i,
    {
        if occurs_at(s, p, i, n, m) {
            return true;
        }
        if i == n - m {
            return false;
        }
        i = i + 1;
    }
}

/// Whether `s` ends with `p`.
pub fn has_suffix(s: &str, p: &str) -> (r: bool)
    ensures
        r == ends_with(s@, p@),
{
    let n = s.unicode_len();
    let m = p.unicode_len();
    if m > n {
        return false;
    }
    occurs_at(s, p, n - m, n, m)
}

/// Whether a topic may be created with this name.
pub fn is_valid_topic_name(name: &str) -> (r: bool)
    ensures
        r == valid_topic_name(name@),
{
    proof {
        reveal_strlit("_index");
        reveal_strlit("_gc");
        assert("_index"@ =~= index_suffix());
        assert("_gc"@ =~= gc_suffix());
    }
    name.unicode_len() > 0 && !has_substring(name, "_index") && !has_substring(name, "_gc")
}

/// Whether a directory entry of the data directory holds a topic.
pub fn is_topic_dir_name(name: &str) -> (r: bool)
    ensures
        r == is_topic_dir(name@),
{
    proof {
        reveal_strlit("_index");
        reveal_strlit("_gc");
        assert("_index"@ =~= index_suffix());
        assert("_gc"@ =~= gc_suffix());
    }
    !has_suffix(name, "_index") && !has_suffix(name, "_gc")
}

/// One of `v` is the text `n`.
pub open spec fn has_name(v: Seq<String>, n: Seq<char>) -> bool {
    exists|i: int| 0 <= i < v.len() && (#[trigger] v[i])@ == n
}

/// The topics of a data directory's listing, in order.
pub fn list_topics_from_dir(entries: &Vec<String>) -> (r: Vec<String>)
    ensures
        r@.map_values(|s: String| s@) == entries@.map_values(|s: String| s@).filter(
            |s: Seq<char>| is_topic_dir(s),
        ),
        forall|n: Seq<char>|
            #![trigger has_name(r@, n)]
            #![trigger has_name(entries@, n)]
            has_name(r@, n) <==> (has_name(entries@, n) && is_topic_dir(n)),
{
    let mut out: Vec<String> = Vec::new();
    let mut i: usize = 0;
    while i < entries.len()
        invariant
            i <= entries@.len(),
            out@.map_values(|s: String| s@) == entries@.take(i as int).map_values(|s: String| s@).filter(
                |s: Seq<char>| is_topic_dir(s),
            ),
            forall|n: Seq<char>|
                #![trigger has_name(out@, n)]
                #![trigger has_name(entries@.take(i as int), n)]
                has_name(out@, n) <==> (has_name(entries@.take(i as int), n) && is_topic_dir(n)),
        decreases entries@.len() - i,
    {
        let ghost before = out@;
        proof {
            let e = entries@.take(i + 1).map_values(|s: String| s@);
            assert(e.drop_last() =~= entries@.take(i as int).map_values(|s: String| s@));
            assert(e.last() == entries@[i as int]@);
            reveal(Seq::filter);
        }
        if is_topic_dir_name(entries[i].as_str()) {
            out.push(String::from_str(entries[i].as_str()));
            assert(out@.map_values(|s: String| s@) =~= before.map_values(|s: String| s@).push(entries@[i as int]@));
        }
        proof {
            let e0 = entries@.take(i as int);
            let e1 = entries@.take(i + 1);
            assert forall|m: int| 0 <= m < i implies e1[m] == e0[m] by {}
            assert(e1[i as int] == entries@[i as int]);
            assert forall|n: Seq<char>|
                #![trigger has_name(out@, n)]
                #![trigger has_name(e1, n)]
                has_name(out@, n) <==> (has_name(e1, n) && is_topic_dir(n)) by {
                if has_name(out@, n) {
                    let k = choose|k: int| 0 <= k < out@.len() && (#[trigger] out@[k])@ == n;
                    if k < before.len() {
                        assert(out@[k] == before[k]);
                        assert(has_name(before, n));
                        assert(has_name(e0, n) && is_topic_dir(n));
                        let m = choose|m: int| 0 <= m < e0.len() && (#[trigger] e0[m])@ == n;
                        assert(e1[m] == e0[m]);
                        assert(has_name(e1, n));
                    } else {
                        assert(has_name(e1, n));
                    }
                }
                if has_name(e1, n) && is_topic_dir(n) {
                    let m = choose|m: int| 0 <= m < e1.len() && (#[trigger] e1[m])@ == n;
                    if m < i {
                        assert(e0[m] == e1[m]);
                        assert(has_name(e0, n));
                        assert(has_name(before, n));
                        let k = choose|k: int| 0 <= k < before.len() && (#[trigger] before[k])@ == n;
                        assert(out@[k] == before[k]);
                    } else {
                        assert(out@[out@.len() - 1]@ == n);
                    }
                }
            }
        }
        i = i + 1;
    }
    assert(entries@.take(entries@.len() as int) =~= entries@);
    out
}

/// The directory of a topic's messages under `root`.
pub open spec fn topic_dir(root: Seq<char>, name: Seq<char>) -> Seq<char> {
    root + seq!['/'] + name
}

/// `root/name`.
pub fn topic_path(root: &String, name: &String) -> (r: String)
    ensures
        r@ == topic_dir(root@, name@),
{
    proof {
        reveal_strlit("/");
    }
    let mut s = String::from_str(root.as_str());
    s.append("/");
    s.append(name.as_str());
    s
}

/// `root/name_index`.
pub fn index_path(root: &String, name: &String) -> (r: String)
    ensures
        r@ == topic_dir(root@, name@) + index_suffix(),
{
    proof {
        reveal_strlit("_index");
        assert("_index"@ =~= index_suffix());
    }
    let mut s = topic_path(root, name);
    s.append("_index");
    s
}

/// A topic and its queue.
pub struct TopicEntry {
    pub name: String,
    pub queue: PriorityQueueSvc,
}

/// No two topics share a name.
pub open spec fn names_unique(t: Seq<(Seq<char>, QueueView)>) -> bool {
    forall|i: int, j: int| 0 <= i < t.len() && 0 <= j < t.len() && i != j ==> (#[trigger] t[i]).0 != (#[trigger] t[j]).0
}

/// A topic of this name is held.
pub open spec fn has_topic(t: Seq<(Seq<char>, QueueView)>, name: Seq<char>) -> bool {
    exists|i: int| 0 <= i < t.len() && (#[trigger] t[i]).0 == name
}

/// The request went to topic `name`, at position `i`, whose queue went from
/// `t0[i]` to `t1[i]` as `post` says; every other topic is left as it was.
pub open spec fn routed(
    t0: Seq<(Seq<char>, QueueView)>,
    t1: Seq<(Seq<char>, QueueView)>,
    name: Seq<char>,
    post: spec_fn(QueueView, QueueView) -> bool,
) -> bool {
    exists|i: int|
        0 <= i < t0.len() && (#[trigger] t0[i]).0 == name && t1.len() == t0.len() && t1[i].0 == name
            && post(t0[i].1, t1[i].1) && forall|j: int| 0 <= j < t0.len() && j != i ==> #[trigger] t1[j] == t0[j]
}

/// The service of many topics.
pub struct MultiQueueSvc {
    topics_svc: Vec<TopicEntry>,
    root_dir: String,
    node_id: String,
}

impl View for MultiQueueSvc {
    type V = Seq<(Seq<char>, QueueView)>;

    closed spec fn view(&self) -> Seq<(Seq<char>, QueueView)> {
        self.topics_svc@.map_values(|e: TopicEntry| (e.name@, e.queue@))
    }
}

impl MultiQueueSvc {
    /// Topic names are unique and every queue is well formed.
    pub closed spec fn inv(&self) -> bool {
        &&& names_unique(self@)
        &&& forall|i: int| 0 <= i < self.topics_svc@.len() ==> (#[trigger] self.topics_svc@[i]).queue.inv()
    }

    /// Topic names are unique in a well-formed service.
    pub proof fn lemma_names_unique(&self)
        requires
            self.inv(),
        ensures
            names_unique(self@),
    {
    }

    /// The data directory.
    pub closed spec fn root(&self) -> Seq<char> {
        self.root_dir@
    }

    /// The node id given in replies.
    pub closed spec fn node(&self) -> Seq<char> {
        self.node_id@
    }

    /// A service with no topics yet.
    pub fn empty(root_dir: String, node_id: String) -> (r: MultiQueueSvc)
        ensures
            r.inv(),
            r@.len() == 0,
            r.root() == root_dir@,
            r.node() == node_id@,
    {
        MultiQueueSvc { topics_svc: Vec::new(), root_dir, node_id }
    }

    /// Position of a topic.
    fn find(&self, name: &String) -> (r: Option<usize>)
        ensures
            r matches Some(i) ==> i < self@.len() && self@[i as int].0 == name@,
            r is None ==> !has_topic(self@, name@),
    {
        let mut i: usize = 0;
        while i < self.topics_svc.len()
            invariant
                i <= self.topics_svc@.len(),
                forall|j: int| 0 <= j < i ==> (#[trigger] self@[j]).0 != name@,
            decreases self.topics_svc@.len() - i,
        {
            if self.topics_svc[i].name == *name {
                return Some(i);
            }
            i = i + 1;
        }
        None
    }

    /// Takes out the entry at `i`, to be put back by `put_back`.
    fn take_out(&mut self, i: usize) -> (e: TopicEntry)
        requires
            i < old(self)@.len(),
        ensures
            final(self).topics_svc@ == old(self).topics_svc@.remove(i as int),
            e == old(self).topics_svc@[i as int],
            final(self).root_dir == old(self).root_dir,
            final(self).node_id == old(self).node_id,
    {
        self.topics_svc.remove(i)
    }

    fn put_back(&mut self, i: usize, e: TopicEntry)
        requires
            i <= old(self).topics_svc@.len(),
        ensures
            final(self).topics_svc@ == old(self).topics_svc@.insert(i as int, e),
            final(self).root_dir == old(self).root_dir,
            final(self).node_id == old(self).node_id,
    {
        self.topics_svc.insert(i, e);
    }
}

impl MultiQueueSvc {
    /// Puts back at `i` an entry taken out there, now holding queue `e`; the
    /// other topics stay as they were.
    proof fn lemma_put_back(
        t0: Seq<TopicEntry>,
        i: int,
        mid: Seq<TopicEntry>,
        e: TopicEntry,
        t1: Seq<TopicEntry>,
    )
        requires
            0 <= i < t0.len(),
            mid == t0.remove(i),
            t1 == mid.insert(i, e),
        ensures
            t1.len() == t0.len(),
            t1[i] == e,
            forall|j: int| 0 <= j < t0.len() && j != i ==> t1[j] == t0[j],
    {
        assert forall|j: int| 0 <= j < t0.len() && j != i implies t1[j] == t0[j] by {
            if j < i {
                assert(t1[j] == mid[j]);
            } else {
                assert(t1[j] == mid[j - 1]);
            }
        }
    }

    /// Sends an enqueue to the queue of its topic.
    pub fn enqueue(&mut self, request: &EnqueueRequest, now: u64) -> (r: Result<
        EnqueueReply,
        QueueError,
    >)
        requires
            old(self).inv(),
        ensures
            final(self).inv(),
            final(self).root() == old(self).root(),
            final(self).node() == old(self).node(),
            !has_topic(old(self)@, request.topic@) ==> (r matches Err(QueueError::NotFound(m))
                && m@ == request.topic@ && final(self)@ == old(self)@),
            has_topic(old(self)@, request.topic@) ==> routed(
                old(self)@,
                final(self)@,
                request.topic@,
                |a: QueueView, b: QueueView| enqueue_post(a, b, request@, now, r),
            ),
    {
        match self.find(&request.topic) {
            None => Err(QueueError::NotFound(String::from_str(request.topic.as_str()))),
            Some(i) => {
                let ghost t0 = self.topics_svc@;
                let mut e = self.take_out(i);
                let ghost mid = self.topics_svc@;
                let r = e.queue.enqueue(request, now);
                self.put_back(i, e);
                proof {
                    Self::lemma_put_back(t0, i as int, mid, e, self.topics_svc@);
                    self.lemma_routed(t0, i as int);
                }
                r
            },
        }
    }

    /// Sends a dequeue to the queue of its topic.
    pub fn dequeue(&mut self, request: &DequeueRequest, now: u64) -> (r: Result<
        DequeueReply,
        QueueError,
    >)
        requires
            old(self).inv(),
        ensures
            final(self).inv(),
            final(self).root() == old(self).root(),
            final(self).node() == old(self).node(),
            !has_topic(old(self)@, request.topic@) ==> (r matches Err(QueueError::NotFound(m))
                && m@ == request.topic@ && final(self)@ == old(self)@),
            has_topic(old(self)@, request.topic@) ==> routed(
                old(self)@,
                final(self)@,
                request.topic@,
                |a: QueueView, b: QueueView|
                    dequeue_post(a, b, request.count, request.lease_duration, now, r),
            ),
    {
        match self.find(&request.topic) {
            None => Err(QueueError::NotFound(String::from_str(request.topic.as_str()))),
            Some(i) => {
                let ghost t0 = self.topics_svc@;
                let mut e = self.take_out(i);
                let ghost mid = self.topics_svc@;
                let r = e.queue.dequeue(request, now);
                self.put_back(i, e);
                proof {
                    Self::lemma_put_back(t0, i as int, mid, e, self.topics_svc@);
                    self.lemma_routed(t0, i as int);
                }
                r
            },
        }
    }

    /// Sends an ack to the queue of its topic.
    pub fn ack(&mut self, request: &AckRequest) -> (r: Result<(), QueueError>)
        requires
            old(self).inv(),
        ensures
            final(self).inv(),
            final(self).root() == old(self).root(),
            final(self).node() == old(self).node(),
            !has_topic(old(self)@, request.topic@) ==> (r matches Err(QueueError::NotFound(m))
                && m@ == request.topic@ && final(self)@ == old(self)@),
            has_topic(old(self)@, request.topic@) ==> routed(
                old(self)@,
                final(self)@,
                request.topic@,
                |a: QueueView, b: QueueView| ack_post(a, b, request.message_id@, r),
            ),
    {
        match self.find(&request.topic) {
            None => Err(QueueError::NotFound(String::from_str(request.topic.as_str()))),
            Some(i) => {
                let ghost t0 = self.topics_svc@;
                let mut e = self.take_out(i);
                let ghost mid = self.topics_svc@;
                let r = e.queue.ack(request);
                self.put_back(i, e);
                proof {
                    Self::lemma_put_back(t0, i as int, mid, e, self.topics_svc@);
                    self.lemma_routed(t0, i as int);
                }
                r
            },
        }
    }

    /// Sends a nack to the queue of its topic.
    pub fn nack(&mut self, request: &NackRequest, now: u64) -> (r: Result<(), QueueError>)
        requires
            old(self).inv(),
        ensures
            final(self).inv(),
            final(self).root() == old(self).root(),
            final(self).node() == old(self).node(),
            !has_topic(old(self)@, request.topic@) ==> (r matches Err(QueueError::NotFound(m))
                && m@ == request.topic@ && final(self)@ == old(self)@),
            has_topic(old(self)@, request.topic@) ==> routed(
                old(self)@,
                final(self)@,
                request.topic@,
                |a: QueueView, b: QueueView|
                    nack_post(
                        a,
                        b,
                        request.message_id@,
                        request.meta@,
                        request.deliver_after,
                        now,
                        r,
                    ),
            ),
    {
        match self.find(&request.topic) {
            None => Err(QueueError::NotFound(String::from_str(request.topic.as_str()))),
            Some(i) => {
                let ghost t0 = self.topics_svc@;
                let mut e = self.take_out(i);
                let ghost mid = self.topics_svc@;
                let r = e.queue.nack(request, now);
                self.put_back(i, e);
                proof {
                    Self::lemma_put_back(t0, i as int, mid, e, self.topics_svc@);
                    self.lemma_routed(t0, i as int);
                }
                r
            },
        }
    }

    /// After an entry was put back at `i`, names stay unique and the view
    /// changed at `i` alone.
    proof fn lemma_routed(&self, t0: Seq<TopicEntry>, i: int)
        requires
            0 <= i < t0.len(),
            self.topics_svc@.len() == t0.len(),
            self.topics_svc@[i].name@ == t0[i].name@,
            forall|j: int| 0 <= j < t0.len() && j != i ==> self.topics_svc@[j] == t0[j],
            names_unique(t0.map_values(|e: TopicEntry| (e.name@, e.queue@))),
        ensures
            names_unique(self@),
            forall|j: int| 0 <= j < t0.len() && j != i ==> #[trigger] self@[j] == t0.map_values(
                |e: TopicEntry| (e.name@, e.queue@),
            )[j],
            self@[i].0 == t0[i].name@,
            self@[i].1 == self.topics_svc@[i].queue@,
            self@.len() == t0.len(),
    {
        let v0 = t0.map_values(|e: TopicEntry| (e.name@, e.queue@));
        assert forall|a: int, b: int|
            0 <= a < self@.len() && 0 <= b < self@.len() && a != b implies (#[trigger] self@[a]).0
            != (#[trigger] self@[b]).0 by {
            assert(self@[a].0 == v0[a].0);
            assert(self@[b].0 == v0[b].0);
        }
    }

    /// The name and counts of every topic, in order.
    pub fn get_active_topics(&self) -> (r: Vec<TopicStats>)
        ensures
            r@.len() == self@.len(),
            forall|i: int|
                0 <= i < r@.len() ==> (#[trigger] r@[i]).topic@ == self@[i].1.topic && r@[i].ready_size
                    == self@[i].1.sched.ready.len() && r@[i].delayed_size == self@[i].1.sched.wheel.len(),
    {
        let mut out: Vec<TopicStats> = Vec::new();
        let mut i: usize = 0;
        while i < self.topics_svc.len()
            invariant
                i <= self.topics_svc@.len(),
                out@.len() == i,
                forall|j: int|
                    0 <= j < i ==> (#[trigger] out@[j]).topic@ == self@[j].1.topic && out@[j].ready_size
                        == self@[j].1.sched.ready.len() && out@[j].delayed_size
                        == self@[j].1.sched.wheel.len(),
            decreases self.topics_svc@.len() - i,
        {
            out.push(self.topics_svc[i].queue.get_stats());
            i = i + 1;
        }
        out
    }

    /// Creates a topic with its two stores under the data directory.
    pub fn create_topic(&mut self, name: &String, now: u64) -> (r: Result<(), QueueError>)
        requires
            old(self).inv(),
        ensures
            final(self).inv(),
            final(self).root() == old(self).root(),
            final(self).node() == old(self).node(),
            !valid_topic_name(name@) <==> r matches Err(QueueError::InvalidArgument(_)),
            valid_topic_name(name@) && has_topic(old(self)@, name@) <==> r matches Err(
                QueueError::AlreadyExists(_),
            ),
            r is Err ==> final(self)@ == old(self)@,
            r is Ok ==> final(self)@.len() == old(self)@.len() + 1 && final(self)@.take(
                old(self)@.len() as int,
            ) == old(self)@ && final(self)@.last().0 == name@ && !final(self)@.last().1.sched.stopped
                && final(self)@.last().1.node_id == old(self).node() && final(self)@.last().1.topic
                == name@,
            r matches Err(e) ==> e is InvalidArgument || e is AlreadyExists || e is Unknown,
    {
        if !is_valid_topic_name(name.as_str()) {
            return Err(QueueError::InvalidArgument(String::from_str("invalid topic name")));
        }
        if self.find(name).is_some() {
            return Err(QueueError::AlreadyExists(String::from_str("topic exists")));
        }
        let q = match self.open_topic(name, now) {
            Ok(q) => q,
            Err(e) => {
                return Err(e);
            },
        };
        let ghost v0 = self@;
        self.topics_svc.push(TopicEntry { name: String::from_str(name.as_str()), queue: q });
        proof {
            assert(self@.take(v0.len() as int) =~= v0);
            assert forall|a: int, b: int|
                0 <= a < self@.len() && 0 <= b < self@.len() && a != b implies (#[trigger] self@[a]).0
                != (#[trigger] self@[b]).0 by {
                if a < v0.len() && b < v0.len() {
                    assert(self@[a] == v0[a] && self@[b] == v0[b]);
                } else if a < v0.len() {
                    assert(self@[a] == v0[a]);
                } else if b < v0.len() {
                    assert(self@[b] == v0[b]);
                }
            }
            assert forall|j: int| 0 <= j < self.topics_svc@.len() implies (#[trigger] self.topics_svc@[j]).queue.inv() by {
                if j < v0.len() {
                    assert(self.topics_svc@[j] == old(self).topics_svc@[j]);
                }
            }
        }
        Ok(())
    }

    /// Opens the two stores of a topic and its queue.
    fn open_topic(&self, name: &String, now: u64) -> (r: Result<PriorityQueueSvc, QueueError>)
        ensures
            r matches Ok(q) ==> q.inv() && !q@.sched.stopped && q@.node_id == self.node() && q@.topic
                == name@,
            r matches Err(e) ==> e is Unknown,
    {
        let msg_store = match new_kvstore(DbKind::SLED, topic_path(&self.root_dir, name)) {
            Ok(s) => s,
            Err(e) => {
                return Err(store_error(e));
            },
        };
        let index_store = match new_kvstore(DbKind::SLED, index_path(&self.root_dir, name)) {
            Ok(s) => s,
            Err(e) => {
                return Err(store_error(e));
            },
        };
        match make_one_queue(msg_store, index_store, &self.node_id, name, now) {
            Ok(q) => Ok(q),
            Err(e) => Err(store_error(e)),
        }
    }

    /// Takes a topic out of the service and hands back its queue, for the
    /// caller to stop and to move its directory aside.
    pub fn remove_topic(&mut self, name: &String) -> (r: Result<PriorityQueueSvc, QueueError>)
        requires
            old(self).inv(),
        ensures
            final(self).inv(),
            final(self).root() == old(self).root(),
            final(self).node() == old(self).node(),
            name@.len() == 0 <==> r matches Err(QueueError::InvalidArgument(_)),
            name@.len() > 0 && !has_topic(old(self)@, name@) <==> r matches Err(QueueError::NotFound(_)),
            r is Err ==> final(self)@ == old(self)@,
            r matches Ok(q) ==> exists|i: int|
                0 <= i < old(self)@.len() && (#[trigger] old(self)@[i]).0 == name@ && old(self)@[i].1
                    == q@ && final(self)@ == old(self)@.remove(i),
            name@.len() > 0 ==> !has_topic(final(self)@, name@),
    {
        if name.as_str().is_empty() {
            proof {
                if has_topic(old(self)@, name@) {
                }
            }
            return Err(QueueError::InvalidArgument(String::from_str("invalid topic name")));
        }
        match self.find(name) {
            None => Err(QueueError::NotFound(String::from_str("topic not found"))),
            Some(i) => {
                let ghost v0 = self@;
                let ghost t0 = self.topics_svc@;
                let e = self.take_out(i);
                proof {
                    assert(self@ =~= v0.remove(i as int));
                    assert forall|a: int, b: int|
                        0 <= a < self@.len() && 0 <= b < self@.len() && a != b implies (
                        #[trigger] self@[a]).0 != (#[trigger] self@[b]).0 by {
                        let a2 = if a < i { a } else { a + 1 };
                        let b2 = if b < i { b } else { b + 1 };
                        assert(self@[a] == v0[a2] && self@[b] == v0[b2]);
                    }
                    assert forall|j: int| 0 <= j < self.topics_svc@.len() implies (#[trigger] self.topics_svc@[j]).queue.inv() by {
                        if j < i {
                            assert(self.topics_svc@[j] == t0[j]);
                        } else {
                            assert(self.topics_svc@[j] == t0[j + 1]);
                        }
                    }
                    if has_topic(self@, name@) {
                        let k = choose|k: int| 0 <= k < self@.len() && (#[trigger] self@[k]).0 == name@;
                        let k2 = if k < i { k } else { k + 1 };
                        assert(self@[k] == v0[k2]);
                    }
                }
                Ok(e.queue)
            },
        }
    }

    /// One turn of every topic's promotion loop at time `now`.
    pub fn tick_all(&mut self, now: u64)
        requires
            old(self).inv(),
        ensures
            final(self).inv(),
            final(self).root() == old(self).root(),
            final(self).node() == old(self).node(),
            final(self)@.len() == old(self)@.len(),
            forall|i: int|
                0 <= i < old(self)@.len() ==> (#[trigger] final(self)@[i]).0 == old(self)@[i].0 && (if old(
                    self,
                )@[i].1.sched.stopped {
                    final(self)@[i].1 == old(self)@[i].1
                } else {
                    final(self)@[i].1 == (QueueView { sched: old(self)@[i].1.sched.ticked(now), ..old(self)@[i].1 })
                }),
    {
        let mut i: usize = 0;
        while i < self.topics_svc.len()
            invariant
                self.inv(),
                self.root() == old(self).root(),
                self.node() == old(self).node(),
                self@.len() == old(self)@.len(),
                i <= self@.len(),
                forall|j: int| i <= j < self@.len() ==> #[trigger] self@[j] == old(self)@[j],
                forall|j: int|
                    0 <= j < i ==> (#[trigger] self@[j]).0 == old(self)@[j].0 && (if old(
                        self,
                    )@[j].1.sched.stopped {
                        self@[j].1 == old(self)@[j].1
                    } else {
                        self@[j].1 == (QueueView { sched: old(self)@[j].1.sched.ticked(now), ..old(self)@[j].1 })
                    }),
            decreases self@.len() - i,
        {
            let ghost t0 = self.topics_svc@;
            let ghost v0 = self@;
            let mut e = self.take_out(i);
            let ghost mid = self.topics_svc@;
            assert(e.queue@ == v0[i as int].1);
            assert(v0[i as int] == old(self)@[i as int]);
            e.queue.tick(now);
            self.put_back(i, e);
            proof {
                Self::lemma_put_back(t0, i as int, mid, e, self.topics_svc@);
                self.lemma_routed(t0, i as int);
                assert(v0 == t0.map_values(|e: TopicEntry| (e.name@, e.queue@)));
                assert forall|j: int| 0 <= j < self@.len() && j != i implies #[trigger] self@[j] == v0[j] by {
                }
                assert forall|j: int| 0 <= j < self.topics_svc@.len() implies (#[trigger] self.topics_svc@[j]).queue.inv() by {
                    if j != i {
                        assert(self.topics_svc@[j] == t0[j]);
                    }
                }
            }
            i = i + 1;
        }
    }
}

/// No topic is configured and no topic directory is listed.
pub open spec fn no_startup_names(config: Seq<String>, listed: Seq<String>) -> bool {
    forall|n: Seq<char>|
        #![trigger has_name(config, n)]
        #![trigger has_name(listed, n)]
        !has_name(config, n) && !(has_name(listed, n) && is_topic_dir(n))
}

/// Builds the service over the data directory `dir`: the configured topics
/// and those listed in the directory (`listed`, its entry names) are opened,
/// each name once, configured ones first.
pub fn new(
    dir: String,
    node_id: String,
    config_topics: Vec<String>,
    listed: Vec<String>,
    now: u64,
) -> (r: Result<MultiQueueSvc, QueueError>)
    ensures
        r matches Ok(svc) ==> svc.inv() && svc.root() == dir@ && svc.node() == node_id@ && forall|
            n: Seq<char>,
        |
            #![trigger has_topic(svc@, n)]
            has_topic(svc@, n) <==> (has_name(config_topics@, n) || (has_name(listed@, n)
                && is_topic_dir(n))),
        r matches Err(e) ==> e is Unknown,
        no_startup_names(config_topics@, listed@) ==> r is Ok,
{
    let ghost config = config_topics@;
    let mut all_topics: Vec<String> = config_topics;
    let from_dir = list_topics_from_dir(&listed);
    let mut i: usize = 0;
    while i < from_dir.len()
        invariant
            i <= from_dir@.len(),
            forall|n: Seq<char>|
                #![trigger has_name(all_topics@, n)]
                #![trigger has_name(from_dir@.take(i as int), n)]
                #![trigger has_name(config, n)]
                has_name(all_topics@, n) <==> (has_name(config, n) || has_name(
                    from_dir@.take(i as int),
                    n,
                )),
        decreases from_dir@.len() - i,
    {
        let ghost before = all_topics@;
        if !contains_name(&all_topics, &from_dir[i]) {
            all_topics.push(String::from_str(from_dir[i].as_str()));
        }
        proof {
            let f0 = from_dir@.take(i as int);
            let f1 = from_dir@.take(i + 1);
            assert forall|m: int| 0 <= m < i implies f1[m] == f0[m] by {}
            assert(f1[i as int] == from_dir@[i as int]);
            assert forall|n: Seq<char>|
                #![trigger has_name(all_topics@, n)]
                #![trigger has_name(f1, n)]
                #![trigger has_name(config, n)]
                has_name(all_topics@, n) <==> (has_name(config, n) || has_name(f1, n)) by {
                if has_name(all_topics@, n) {
                    let k = choose|k: int| 0 <= k < all_topics@.len() && (#[trigger] all_topics@[k])@ == n;
                    if k < before.len() {
                        assert(all_topics@[k] == before[k]);
                        assert(has_name(before, n));
                        if has_name(f0, n) {
                            let m = choose|m: int| 0 <= m < f0.len() && (#[trigger] f0[m])@ == n;
                            assert(f1[m] == f0[m]);
                            assert(has_name(f1, n));
                        }
                    } else {
                        assert(has_name(f1, n));
                    }
                }
                if has_name(f1, n) {
                    let m = choose|m: int| 0 <= m < f1.len() && (#[trigger] f1[m])@ == n;
                    if m < i {
                        assert(f0[m] == f1[m]);
                        assert(has_name(f0, n));
                        assert(has_name(before, n));
                        let k = choose|k: int| 0 <= k < before.len() && (#[trigger] before[k])@ == n;
                        assert(all_topics@[k] == before[k]);
                    } else {
                        if has_name(before, n) {
                            let k = choose|k: int| 0 <= k < before.len() && (#[trigger] before[k])@ == n;
                            assert(all_topics@[k] == before[k]);
                        } else {
                            assert(all_topics@[all_topics@.len() - 1]@ == n);
                        }
                    }
                }
                if has_name(config, n) {
                    assert(has_name(before, n));
                    let k = choose|k: int| 0 <= k < before.len() && (#[trigger] before[k])@ == n;
                    assert(all_topics@[k] == before[k]);
                }
            }
        }
        i = i + 1;
    }
    assert(from_dir@.take(from_dir@.len() as int) =~= from_dir@);
    proof {
        if no_startup_names(config, listed@) && all_topics@.len() > 0 {
            let n = all_topics@[0]@;
            assert(has_name(all_topics@, n));
            assert(!has_name(config, n));
            assert(has_name(from_dir@, n));
            assert(has_name(listed@, n) && is_topic_dir(n));
        }
    }
    let mut svc = MultiQueueSvc::empty(dir, node_id);
    let mut j: usize = 0;
    while j < all_topics.len()
        invariant
            svc.inv(),
            svc.root() == dir@,
            svc.node() == node_id@,
            j <= all_topics@.len(),
            no_startup_names(config, listed@) ==> all_topics@.len() == 0,
            config == config_topics@,
            forall|n: Seq<char>|
                #![trigger has_topic(svc@, n)]
                #![trigger has_name(all_topics@.take(j as int), n)]
                has_topic(svc@, n) <==> has_name(all_topics@.take(j as int), n),
        decreases all_topics@.len() - j,
    {
        let ghost v_before = svc@;
        let ghost a1 = all_topics@.take(j + 1);
        assert(a1[j as int] == all_topics@[j as int]);
        match svc.find(&all_topics[j]) {
            Some(_) => {
                proof {
                    let a0 = all_topics@.take(j as int);
                    assert forall|m: int| 0 <= m < j implies a1[m] == a0[m] by {}
                    assert forall|n: Seq<char>|
                        #![trigger has_topic(svc@, n)]
                        #![trigger has_name(a1, n)]
                        has_topic(svc@, n) <==> has_name(a1, n) by {
                        if has_topic(svc@, n) {
                            assert(has_name(a0, n));
                            let m = choose|m: int| 0 <= m < a0.len() && (#[trigger] a0[m])@ == n;
                            assert(a1[m] == a0[m]);
                        }
                        if has_name(a1, n) {
                            let m = choose|m: int| 0 <= m < a1.len() && (#[trigger] a1[m])@ == n;
                            if m < j {
                                assert(a0[m] == a1[m]);
                                assert(has_name(a0, n));
                            } else {
                                assert(has_topic(svc@, all_topics@[j as int]@));
                            }
                        }
                    }
                }
            },
            None => {
                let q = svc.open_topic(&all_topics[j], now)?;
                let ghost v0 = svc@;
                let ghost t0 = svc.topics_svc@;
                svc.topics_svc.push(TopicEntry { name: String::from_str(all_topics[j].as_str()), queue: q });
                proof {
                    assert forall|a: int, b: int|
                        0 <= a < svc@.len() && 0 <= b < svc@.len() && a != b implies (#[trigger] svc@[a]).0
                        != (#[trigger] svc@[b]).0 by {
                        if a < v0.len() && b < v0.len() {
                            assert(svc@[a] == v0[a] && svc@[b] == v0[b]);
                        } else if a < v0.len() {
                            assert(svc@[a] == v0[a]);
                        } else if b < v0.len() {
                            assert(svc@[b] == v0[b]);
                        }
                    }
                    assert forall|k: int| 0 <= k < svc.topics_svc@.len() implies (#[trigger] svc.topics_svc@[k]).queue.inv() by {
                        if k < t0.len() {
                            assert(svc.topics_svc@[k] == t0[k]);
                        }
                    }
                    let a0 = all_topics@.take(j as int);
                    assert forall|m: int| 0 <= m < j implies a1[m] == a0[m] by {}
                    assert forall|n: Seq<char>|
                        #![trigger has_topic(svc@, n)]
                        #![trigger has_name(a1, n)]
                        has_topic(svc@, n) <==> has_name(a1, n) by {
                        if has_topic(svc@, n) {
                            let k = choose|k: int| 0 <= k < svc@.len() && (#[trigger] svc@[k]).0 == n;
                            if k < v0.len() {
                                assert(svc@[k] == v0[k]);
                                assert(has_topic(v0, n));
                                assert(has_name(a0, n));
                                let m = choose|m: int| 0 <= m < a0.len() && (#[trigger] a0[m])@ == n;
                                assert(a1[m] == a0[m]);
                            } else {
                                assert(svc@[k].0 == all_topics@[j as int]@);
                            }
                        }
                        if has_name(a1, n) {
                            let m = choose|m: int| 0 <= m < a1.len() && (#[trigger] a1[m])@ == n;
                            if m < j {
                                assert(a0[m] == a1[m]);
                                assert(has_name(a0, n));
                                assert(has_topic(v0, n));
                                let k = choose|k: int| 0 <= k < v0.len() && (#[trigger] v0[k]).0 == n;
                                assert(svc@[k] == v0[k]);
                            } else {
                                assert(svc@[v0.len() as int].0 == n);
                            }
                        }
                    }
                }
            },
        }
        j = j + 1;
    }
    assert(all_topics@.take(all_topics@.len() as int) =~= all_topics@);
    Ok(svc)
}

/// Whether `names` holds `name`.
fn contains_name(names: &Vec<String>, name: &String) -> (r: bool)
    ensures
        r == exists|i: int| 0 <= i < names@.len() && (#[trigger] names@[i])@ == name@,
{
    let mut i: usize = 0;
    while i < names.len()
        invariant
            i <= names@.len(),
            forall|j: int| 0 <= j < i ==> (#[trigger] names@[j])@ != name@,
        decreases names@.len() - i,
    {
        if names[i] == *name {
            return true;
        }
        i = i + 1;
    }
    false
}

/// A store failure as a request error.
fn store_error(e: KvError) -> (r: QueueError)
    ensures
        r is Unknown,
{
    match e {
        KvError::NotFound(s) => QueueError::Unknown(s),
        KvError::IoError(s) => QueueError::Unknown(s),
    }
}

} // verus!
