//! A byte-keyed ordered store, kept on disk by sled.
//!
//! What a store holds is a map from keys to values; keys are ordered
//! lexicographically as byte strings.
use vstd::prelude::*;
use vstd::string::StringExecFns;

verus! {

#[verifier::external_type_specification]
#[verifier::external_body]
pub struct ExDb(sled::Db);

#[verifier::external_type_specification]
#[verifier::external_body]
pub struct ExIter(sled::Iter);

#[verifier::external_type_specification]
#[verifier::external_body]
pub struct ExIVec(sled::IVec);

#[verifier::external_type_specification]
#[verifier::external_body]
pub struct ExError(sled::Error);

/// The entries that a sled database holds.
pub uninterp spec fn db_contents(db: sled::Db) -> Map<Seq<u8>, Seq<u8>>;

/// The entries that a sled range iterator has yet to yield, in order.
pub uninterp spec fn iter_rest(it: sled::Iter) -> Seq<(Seq<u8>, Seq<u8>)>;

/// The backends a store can be opened with.
#[allow(non_camel_case_types)]
pub enum DbKind {
    SLED,
    ROCKSDB,
}

/// A key that is not there, or a failure of the store itself.
#[derive(Debug)]
pub enum KvError {
    NotFound(String),
    IoError(String),
}

/// `a` sorts strictly before `b` as a byte string.
pub open spec fn lex_lt(a: Seq<u8>, b: Seq<u8>) -> bool
    decreases a.len(),
{
    if a.len() == 0 {
        b.len() > 0
    } else if b.len() == 0 {
        false
    } else if a[0] != b[0] {
        a[0] < b[0]
    } else {
        lex_lt(a.drop_first(), b.drop_first())
    }
}

/// `k` lies in the half-open key range from `start` to `end`.
pub open spec fn in_range(k: Seq<u8>, start: Seq<u8>, end: Seq<u8>) -> bool {
    !lex_lt(k, start) && lex_lt(k, end)
}

/// `s` lists entries of `m` within the range, in strictly ascending key order.
pub open spec fn ordered_entries_of(
    s: Seq<(Seq<u8>, Seq<u8>)>,
    m: Map<Seq<u8>, Seq<u8>>,
    start: Seq<u8>,
    end: Seq<u8>,
) -> bool {
    &&& forall|i: int, j: int| 0 <= i < j < s.len() ==> lex_lt(#[trigger] s[i].0, #[trigger] s[j].0)
    &&& forall|i: int|
        0 <= i < s.len() ==> m.contains_key(#[trigger] s[i].0) && m[s[i].0] == s[i].1 && in_range(
            s[i].0,
            start,
            end,
        )
}

/// `s` lists every entry of `m` within the range, in ascending key order.
pub open spec fn range_listing(
    s: Seq<(Seq<u8>, Seq<u8>)>,
    m: Map<Seq<u8>, Seq<u8>>,
    start: Seq<u8>,
    end: Seq<u8>,
) -> bool {
    &&& ordered_entries_of(s, m, start, end)
    &&& forall|k: Seq<u8>|
        #[trigger] m.contains_key(k) && in_range(k, start, end) ==> exists|i: int|
            0 <= i < s.len() && s[i].0 == k
}

/// `s` is the first page of at most `limit` entries of `m` in the range: in
/// ascending key order, and missing no key of the range below its last one
/// (nor any at all when it is shorter than `limit`).
pub open spec fn first_page(
    s: Seq<(Seq<u8>, Seq<u8>)>,
    m: Map<Seq<u8>, Seq<u8>>,
    start: Seq<u8>,
    end: Seq<u8>,
    limit: nat,
) -> bool {
    &&& ordered_entries_of(s, m, start, end)
    &&& s.len() <= limit
    &&& forall|k: Seq<u8>|
        #[trigger] m.contains_key(k) && in_range(k, start, end) && (s.len() < limit || (s.len() > 0
            && lex_lt(k, s.last().0))) ==> exists|i: int| 0 <= i < s.len() && s[i].0 == k
}

/// The byte contents of a list of key/value pairs.
pub open spec fn pairs_view(v: Seq<(Vec<u8>, Vec<u8>)>) -> Seq<(Seq<u8>, Seq<u8>)> {
    v.map_values(|p: (Vec<u8>, Vec<u8>)| (p.0@, p.1@))
}

/// Relies on `sled::open`: opens (or creates) the database in a directory.
#[verifier::external_body]
fn db_open(dir: &str) -> (r: Result<sled::Db, KvError>) {
    match sled::open(dir) {
        Ok(db) => Ok(db),
        Err(err) => Err(KvError::IoError(err.to_string())),
    }
}

/// Relies on `sled::Tree::get`: the value stored under the key, if any.
#[verifier::external_body]
fn db_get(db: &sled::Db, key: &Vec<u8>) -> (r: Result<Option<Vec<u8>>, KvError>)
    ensures
        r matches Ok(Some(v)) ==> db_contents(*db).contains_key(key@) && db_contents(*db)[key@]
            == v@,
        r matches Ok(None) ==> !db_contents(*db).contains_key(key@),
        r matches Err(e) ==> e is IoError,
{
    match db.get(key) {
        Ok(v) => Ok(v.map(|x| x.to_vec())),
        Err(err) => Err(KvError::IoError(err.to_string())),
    }
}

/// Relies on `sled::Tree::insert`: on success the key holds the value; a
/// failed insert (`insert_inner` links one update to the key's node, or
/// fails) changes no other key, and either took effect or did not.
#[verifier::external_body]
fn db_insert(db: &mut sled::Db, key: &Vec<u8>, value: Vec<u8>) -> (r: Result<(), KvError>)
    ensures
        r is Ok ==> db_contents(*final(db)) == db_contents(*old(db)).insert(key@, value@),
        r is Err ==> db_contents(*final(db)) == db_contents(*old(db)) || db_contents(*final(db))
            == db_contents(*old(db)).insert(key@, value@),
        r matches Err(e) ==> e is IoError,
{
    match db.insert(key, value) {
        Ok(_) => Ok(()),
        Err(err) => Err(KvError::IoError(err.to_string())),
    }
}

/// Relies on `sled::Tree::remove`: on success the key holds nothing; a
/// failed removal (the same `insert_inner` path) changes no other key, and
/// either took effect or did not.
#[verifier::external_body]
fn db_remove(db: &mut sled::Db, key: &Vec<u8>) -> (r: Result<(), KvError>)
    ensures
        r is Ok ==> db_contents(*final(db)) == db_contents(*old(db)).remove(key@),
        r is Err ==> db_contents(*final(db)) == db_contents(*old(db)) || db_contents(*final(db))
            == db_contents(*old(db)).remove(key@),
        r matches Err(e) ==> e is IoError,
{
    match db.remove(key) {
        Ok(_) => Ok(()),
        Err(err) => Err(KvError::IoError(err.to_string())),
    }
}

/// Relies on `sled::Tree::last`: the greatest key, or none for an empty tree.
#[verifier::external_body]
fn db_last(db: &sled::Db) -> (r: Result<Option<Vec<u8>>, KvError>)
    ensures
        r matches Ok(Some(k)) ==> db_contents(*db).contains_key(k@) && forall|k2: Seq<u8>|
            #[trigger] db_contents(*db).contains_key(k2) ==> !lex_lt(k@, k2),
        r matches Ok(None) ==> db_contents(*db).dom() == Set::<Seq<u8>>::empty(),
        r matches Err(e) ==> e is IoError,
{
    match db.last() {
        Ok(last) => Ok(last.map(|p| p.0.to_vec())),
        Err(err) => Err(KvError::IoError(err.to_string())),
    }
}

/// Relies on `sled::Tree::range`: an iterator over the entries from `start`
/// (included) to `end` (excluded), in ascending key order.
#[verifier::external_body]
fn db_range(db: &sled::Db, start: &Vec<u8>, end: &Vec<u8>) -> (it: sled::Iter)
    ensures
        range_listing(iter_rest(it), db_contents(*db), start@, end@),
{
    db.range(start.as_slice()..end.as_slice())
}

/// Relies on `sled::Iter::next`: the next entry of the range, if any.
#[verifier::external_body]
fn iter_next(it: &mut sled::Iter) -> (r: Option<Result<(Vec<u8>, Vec<u8>), KvError>>)
    ensures
        r is None ==> iter_rest(*old(it)).len() == 0 && iter_rest(*final(it)).len() == 0,
        r matches Some(Err(e)) ==> e is IoError,
        r matches Some(Ok(p)) ==> iter_rest(*old(it)).len() > 0 && (p.0@, p.1@) == iter_rest(
            *old(it),
        )[0] && iter_rest(*final(it)) == iter_rest(*old(it)).drop_first(),
{
    match it.next() {
        None => None,
        Some(Ok((k, v))) => Some(Ok((k.to_vec(), v.to_vec()))),
        Some(Err(err)) => Some(Err(KvError::IoError(err.to_string()))),
    }
}

/// A key-value store on disk.
pub struct KvStore {
    db: sled::Db,
}

impl View for KvStore {
    type V = Map<Seq<u8>, Seq<u8>>;

    closed spec fn view(&self) -> Map<Seq<u8>, Seq<u8>> {
        db_contents(self.db)
    }
}

/// Opens the store kept in directory `dir` with the given backend.  Only the
/// sled backend is built in; asking for another is an I/O error.
pub fn new_kvstore(dbkind: DbKind, dir: String) -> (r: Result<KvStore, KvError>)
    ensures
        dbkind is ROCKSDB ==> r matches Err(KvError::IoError(_)),
{
    match dbkind {
        DbKind::SLED => match db_open(dir.as_str()) {
            Ok(db) => Ok(KvStore { db }),
            Err(e) => Err(e),
        },
        DbKind::ROCKSDB => Err(KvError::IoError(String::from_str("rocksdb backend is not available"))),
    }
}

impl KvStore {
    /// The value stored under `key`.
    pub fn get(&self, key: &Vec<u8>) -> (r: Result<Vec<u8>, KvError>)
        ensures
            r matches Ok(v) ==> self@.contains_key(key@) && self@[key@] == v@,
            r matches Err(KvError::NotFound(_)) ==> !self@.contains_key(key@),
    {
        match db_get(&self.db, key) {
            Ok(Some(v)) => Ok(v),
            Ok(None) => Err(KvError::NotFound(String::from_str("key not found"))),
            Err(e) => Err(e),
        }
    }

    /// Stores `value` under `key`, replacing what was there.
    pub fn set(&mut self, key: &Vec<u8>, value: Vec<u8>) -> (r: Result<(), KvError>)
        ensures
            r is Ok ==> final(self)@ == old(self)@.insert(key@, value@),
            r is Err ==> final(self)@ == old(self)@ || final(self)@ == old(self)@.insert(key@, value@),
            r matches Err(e) ==> e is IoError,
    {
        db_insert(&mut self.db, key, value)
    }

    /// Removes what is stored under `key`, if anything.
    pub fn remove(&mut self, key: &Vec<u8>) -> (r: Result<(), KvError>)
        ensures
            r is Ok ==> final(self)@ == old(self)@.remove(key@),
            r is Err ==> final(self)@ == old(self)@ || final(self)@ == old(self)@.remove(key@),
            r matches Err(e) ==> e is IoError,
    {
        db_remove(&mut self.db, key)
    }

    /// Appends to `items` the first `limit` entries whose keys lie from `start`
    /// (included) to `end` (excluded), in ascending key order.
    pub fn scan(
        &self,
        start: &Vec<u8>,
        end: &Vec<u8>,
        limit: u32,
        items: &mut Vec<(Vec<u8>, Vec<u8>)>,
    ) -> (r: Result<(), KvError>)
        ensures
            final(items)@.len() >= old(items)@.len(),
            final(items)@.take(old(items)@.len() as int) == old(items)@,
            r is Ok ==> first_page(
                pairs_view(final(items)@.skip(old(items)@.len() as int)),
                self@,
                start@,
                end@,
                limit as nat,
            ),
            r matches Err(e) ==> e is IoError,
    {
        let mut it = db_range(&self.db, start, end);
        let ghost all = iter_rest(it);
        let ghost n0 = items@.len();
        let mut ct: u32 = 0;
        let mut exhausted = false;
        while ct < limit && !exhausted
            invariant
                exhausted ==> iter_rest(it).len() == 0,
                range_listing(all, self@, start@, end@),
                n0 == old(items)@.len(),
                items@.len() == n0 + ct,
                ct <= limit,
                items@.take(n0 as int) == old(items)@,
                ct as int + iter_rest(it).len() == all.len(),
                iter_rest(it) == all.skip(ct as int),
                pairs_view(items@.skip(n0 as int)) == all.take(ct as int),
            decreases limit - ct + if exhausted {
                0int
            } else {
                1int
            },
        {
            match iter_next(&mut it) {
                None => {
                    exhausted = true;
                    proof {
                        assert(iter_rest(it) =~= all.skip(ct as int));
                    }
                },
                Some(Ok(p)) => {
                    let ghost before = items@;
                    items.push(p);
                    ct = ct + 1;
                    proof {
                        assert(items@.take(n0 as int) =~= before.take(n0 as int));
                        assert(pairs_view(items@.skip(n0 as int)) =~= all.take(ct as int));
                        assert(iter_rest(it) =~= all.skip(ct as int));
                    }
                },
                Some(Err(e)) => {
                    return Err(e);
                },
            }
        }
        proof {
            let page = pairs_view(items@.skip(n0 as int));
            assert forall|i: int, j: int| 0 <= i < j < page.len() implies lex_lt(
                #[trigger] page[i].0,
                #[trigger] page[j].0,
            ) by {
                assert(page[i] == all[i] && page[j] == all[j]);
            }
            assert forall|i: int| 0 <= i < page.len() implies self@.contains_key(#[trigger] page[i].0)
                && self@[page[i].0] == page[i].1 && in_range(page[i].0, start@, end@) by {
                assert(page[i] == all[i]);
            }
            assert forall|k: Seq<u8>|
                #[trigger] self@.contains_key(k) && in_range(k, start@, end@) && (page.len() < limit
                    || (page.len() > 0 && lex_lt(k, page.last().0))) implies exists|i: int|
                0 <= i < page.len() && page[i].0 == k by {
                let j = choose|j: int| 0 <= j < all.len() && all[j].0 == k;
                if j >= page.len() {
                    if page.len() < limit {
                        assert(iter_rest(it).len() > 0);
                    } else {
                        let l = page.len() - 1;
                        assert(page =~= all.take(ct as int));
                        assert(page[l] == all[l]);
                        assert(lex_lt(all[l].0, all[j].0));
                        lemma_lex_lt_asym(all[l].0, all[j].0);
                    }
                } else {
                    assert(page[j] == all[j]);
                }
            }
        }
        Ok(())
    }

    /// The greatest key present.
    pub fn max_key(&self) -> (r: Result<Vec<u8>, KvError>)
        ensures
            r matches Ok(k) ==> self@.contains_key(k@) && forall|k2: Seq<u8>|
                #[trigger] self@.contains_key(k2) ==> !lex_lt(k@, k2),
            r matches Err(KvError::NotFound(_)) ==> self@.dom() == Set::<Seq<u8>>::empty(),
    {
        match db_last(&self.db) {
            Ok(Some(k)) => Ok(k),
            Ok(None) => Err(KvError::NotFound(String::from_str("not found max key"))),
            Err(e) => Err(e),
        }
    }
}

/// The byte order is a strict order: never both ways.
pub proof fn lemma_lex_lt_asym(a: Seq<u8>, b: Seq<u8>)
    ensures
        !(lex_lt(a, b) && lex_lt(b, a)),
    decreases a.len(),
{
    if a.len() > 0 && b.len() > 0 && a[0] == b[0] {
        lemma_lex_lt_asym(a.drop_first(), b.drop_first());
    }
}

/// The byte order is transitive.
pub proof fn lemma_lex_trans(a: Seq<u8>, b: Seq<u8>, c: Seq<u8>)
    requires
        lex_lt(a, b),
        lex_lt(b, c),
    ensures
        lex_lt(a, c),
    decreases a.len(),
{
    if a.len() > 0 && b.len() > 0 && c.len() > 0 && a[0] == b[0] && b[0] == c[0] {
        lemma_lex_trans(a.drop_first(), b.drop_first(), c.drop_first());
    }
}

/// Distinct byte strings are ordered one way or the other.
pub proof fn lemma_lex_total(a: Seq<u8>, b: Seq<u8>)
    requires
        a != b,
    ensures
        lex_lt(a, b) || lex_lt(b, a),
    decreases a.len(),
{
    if a.len() > 0 && b.len() > 0 && a[0] == b[0] {
        if a.drop_first() == b.drop_first() {
            assert(a.drop_first().len() == b.drop_first().len());
            assert(a.len() == b.len());
            assert forall|j: int| 0 <= j < a.len() implies a[j] == b[j] by {
                if j > 0 {
                    assert(a[j] == a.drop_first()[j - 1] && b[j] == b.drop_first()[j - 1]);
                }
            }
            assert(a =~= b);
        }
        lemma_lex_total(a.drop_first(), b.drop_first());
    } else if a.len() == 0 && b.len() == 0 {
        assert(a =~= b);
    }
}

/// A byte string sorts before itself followed by a zero byte.
pub proof fn lemma_lex_below_push_zero(a: Seq<u8>)
    ensures
        lex_lt(a, a.push(0u8)),
    decreases a.len(),
{
    if a.len() > 0 {
        assert(a.push(0u8).drop_first() =~= a.drop_first().push(0u8));
        lemma_lex_below_push_zero(a.drop_first());
    }
}

/// Only the empty byte string sorts before a lone zero byte.
pub proof fn lemma_nonempty_not_below_zero(k: Seq<u8>)
    requires
        k.len() > 0,
    ensures
        !lex_lt(k, seq![0u8]),
{
    let z = seq![0u8];
    assert(z.len() == 1 && z[0] == 0u8);
    if k[0] == 0u8 {
        assert(z.drop_first() =~= Seq::<u8>::empty());
        assert(!lex_lt(k.drop_first(), Seq::<u8>::empty()));
        assert(lex_lt(k, z) == lex_lt(k.drop_first(), z.drop_first()));
    }
}

} // verus!
