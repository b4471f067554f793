//! The sharded store: a fixed set of shards, each key routed to one of them
//! by its hash.

use vstd::prelude::*;
use tokio::sync::broadcast::Receiver;
use crate::byte_order::{bytes_of, lemma_lex_irreflexive, lex_le, lex_lt};
use crate::outside::{hash_key, key_hash, nanos_since};
use crate::shard::{ahead, Shared};
use crate::state::{
    bound_of, copy_bytes, deadline_after, deadline_from, is_stale, key_views, soonest_is, unexpired,
    within, Entry, StoreView,
};

verus! {

/// The shard that `key` belongs to, among `count` shards.
pub open spec fn shard_of(key: Seq<u8>, count: usize) -> int {
    (key_hash(key) as usize) as int % count as int
}

/// The upper end of a prefix's range: the prefix followed by a 0xFF byte.
pub open spec fn range_end(prefix: Seq<u8>) -> Seq<u8> {
    prefix.push(0xFFu8)
}

/// The deadline of a write at `now` with an optional lifetime `ttl`.
pub open spec fn deadline_opt(now: u64, ttl: Option<u64>) -> Option<u64> {
    match ttl {
        Some(t) => Some(deadline_after(now, t)),
        None => None,
    }
}

/// The shards `v` of a store of `count` shards after `key` is written with
/// `value` and deadline `d`: its shard gains or replaces the entry.
pub open spec fn written(v: Seq<StoreView>, count: usize, key: Seq<u8>, value: Seq<u8>, d: Option<u64>) -> Seq<StoreView> {
    v.update(shard_of(key, count), v[shard_of(key, count)].insert(key, (value, d)))
}

/// `k` is listed under the optional prefix `prefix`.
pub open spec fn listed(k: Seq<u8>, prefix: Option<Seq<u8>>) -> bool {
    match prefix {
        Some(p) => within(k, p, range_end(p)),
        None => true,
    }
}

/// No key of shard `s` is ahead of `cursor` in the walk from `start` to
/// `end`.
pub open spec fn exhausted(v: Seq<StoreView>, s: int, cursor: Option<Seq<u8>>, start: Seq<u8>, end: Option<Seq<u8>>) -> bool {
    forall|k: Seq<u8>| #[trigger] v[s].contains_key(k) ==> !ahead(k, cursor, start, end)
}

/// In a listing, `a` comes before `b`: from an earlier shard, or from the
/// same shard with a smaller key.
pub open spec fn grouped_pair(a: Seq<u8>, b: Seq<u8>, count: usize) -> bool {
    shard_of(a, count) < shard_of(b, count) || (shard_of(a, count) == shard_of(b, count) && lex_lt(a, b))
}

/// A listing grouped by shard, shard index ascending, each shard's keys in
/// strictly ascending byte order.
pub open spec fn shard_grouped(s: Seq<Seq<u8>>, count: usize) -> bool {
    forall|a: int, b: int| 0 <= a < b < s.len() ==> #[trigger] grouped_pair(s[a], s[b], count)
}

/// A listing grouped by shard holds no key twice.
pub proof fn lemma_grouped_distinct(s: Seq<Seq<u8>>, count: usize)
    requires
        shard_grouped(s, count),
    ensures
        s.no_duplicates(),
{
    assert forall|a: int, b: int| 0 <= a < s.len() && 0 <= b < s.len() && a != b implies s[a] != s[b] by {
        if a < b {
            assert(grouped_pair(s[a], s[b], count));
        } else {
            assert(grouped_pair(s[b], s[a], count));
        }
        lemma_lex_irreflexive(s[a]);
    }
}

/// The shard a key routes to: its hash modulo the shard count.
pub fn shard_for(key: &[u8], count: usize) -> (r: usize)
    requires
        count >= 1,
    ensures
        r == shard_of(key@, count),
        r < count,
{
    (hash_key(key) as usize) % count
}

/// The end of a prefix's range: the prefix followed by a 0xFF byte.
pub fn prefix_end(key: &[u8]) -> (r: Vec<u8>)
    ensures
        r@ == range_end(key@),
{
    let mut end = bytes_of(key);
    end.push(0xFFu8);
    end
}

/// A walk over entries of the store, shard after shard, each shard's in
/// ascending key order: from a start key, included, to an optional end,
/// excluded.
pub struct BucketDbRangeIterator<'a> {
    db: &'a BucketDb,
    current_bucket_index: usize,
    current_key: Option<Vec<u8>>,
    start_key: Vec<u8>,
    end_key: Option<Vec<u8>>,
}

impl<'a> BucketDbRangeIterator<'a> {
    /// The shards of the store walked.
    pub closed spec fn store(&self) -> Seq<StoreView> {
        self.db@
    }

    /// The first key of the walk.
    pub closed spec fn start(&self) -> Seq<u8> {
        self.start_key@
    }

    /// The bound that no key of the walk reaches, if any.
    pub closed spec fn end(&self) -> Option<Seq<u8>> {
        bound_of(self.end_key)
    }

    /// The shard being walked.
    pub closed spec fn bucket(&self) -> int {
        self.current_bucket_index as int
    }

    /// The number of shards of the store walked.
    pub closed spec fn bucket_count(&self) -> usize {
        self.db.capacity
    }

    /// The last key visited in the shard being walked; `None` before the
    /// shard's first step.
    pub closed spec fn cursor(&self) -> Option<Seq<u8>> {
        bound_of(self.current_key)
    }

    pub closed spec fn wf(&self) -> bool {
        &&& self.db.wf()
        &&& self.current_bucket_index <= self.db.capacity
        &&& self.current_key matches Some(c) ==> lex_le(self.start_key@, c@)
    }

    fn new(db: &'a BucketDb, start_key: Vec<u8>, end_key: Option<Vec<u8>>) -> (r: BucketDbRangeIterator<'a>)
        requires
            db.wf(),
        ensures
            r.wf(),
            r.store() == db@,
            r.start() == start_key@,
            r.end() == bound_of(end_key),
            r.bucket() == 0,
            r.bucket_count() == db.capacity_spec(),
            r.cursor() is None,
    {
        BucketDbRangeIterator { db, current_bucket_index: 0, current_key: None, start_key, end_key }
    }

    /// The next entry of the walk: the entry with the least key ahead of the
    /// cursor in the shard being walked, or else in the next shard that has
    /// one; `None` once every shard is walked.
    pub fn next(&mut self) -> (r: Option<(Vec<u8>, Entry)>)
        requires
            old(self).wf(),
        ensures
            final(self).wf(),
            final(self).store() == old(self).store(),
            final(self).start() == old(self).start(),
            final(self).end() == old(self).end(),
            final(self).bucket_count() == old(self).bucket_count(),
            old(self).bucket() <= final(self).bucket(),
            old(self).bucket() >= old(self).bucket_count() ==> *final(self) == *old(self) && r is None,
            old(self).bucket() < final(self).bucket() ==> exhausted(
                old(self).store(),
                old(self).bucket(),
                old(self).cursor(),
                old(self).start(),
                old(self).end(),
            ),
            forall|s: int|
                old(self).bucket() < s < final(self).bucket() ==> exhausted(
                    old(self).store(),
                    s,
                    None,
                    old(self).start(),
                    old(self).end(),
                ),
            r is None ==> final(self).bucket() == final(self).bucket_count(),
            r matches Some((k, e)) ==> ({
                let v = final(self).store()[final(self).bucket()];
                let c = if final(self).bucket() == old(self).bucket() {
                    old(self).cursor()
                } else {
                    None
                };
                &&& final(self).bucket() < final(self).bucket_count()
                &&& v.contains_key(k@)
                &&& e@ == v[k@]
                &&& ahead(k@, c, final(self).start(), final(self).end())
                &&& forall|j: Seq<u8>| #[trigger] v.contains_key(j) && ahead(j, c, final(self).start(), final(self).end()) ==> lex_le(k@, j)
                &&& final(self).cursor() == Some(k@)
            }),
    {
        if self.current_bucket_index >= self.db.capacity {
            return None;
        }
        loop
            invariant
                self.wf(),
                self.db == old(self).db,
                self.start_key == old(self).start_key,
                self.end_key == old(self).end_key,
                old(self).bucket() <= self.bucket() <= self.bucket_count(),
                old(self).bucket() < old(self).bucket_count(),
                self.bucket() == old(self).bucket() ==> self.cursor() == old(self).cursor(),
                old(self).bucket() < self.bucket() ==> self.cursor() is None && exhausted(
                    old(self).store(),
                    old(self).bucket(),
                    old(self).cursor(),
                    old(self).start(),
                    old(self).end(),
                ),
                forall|s: int|
                    old(self).bucket() < s < self.bucket() ==> exhausted(
                        old(self).store(),
                        s,
                        None,
                        old(self).start(),
                        old(self).end(),
                    ),
            decreases self.bucket_count() - self.bucket(),
        {
            if self.current_bucket_index >= self.db.capacity {
                return None;
            }
            let i = self.current_bucket_index;
            proof {
                self.db.lemma_shard(i as int);
            }
            match self.db.shared_bucket[i].walk_step(&self.current_key, &self.start_key, &self.end_key) {
                Some((k, e)) => {
                    self.current_key = Some(copy_bytes(&k));
                    return Some((k, e));
                },
                None => {
                    self.current_bucket_index = i + 1;
                    self.current_key = None;
                    proof {
                        assert forall|s: int| old(self).bucket() < s < self.bucket() implies exhausted(
                            old(self).store(),
                            s,
                            None,
                            old(self).start(),
                            old(self).end(),
                        ) by {}
                    }
                },
            }
        }
    }
}

/// The store: `capacity` shards and the clock origin of all deadlines.
pub struct BucketDb {
    shared_bucket: Vec<Shared>,
    capacity: usize,
    origin: tokio::time::Instant,
}

impl View for BucketDb {
    type V = Seq<StoreView>;

    /// What each shard holds, by shard index.
    closed spec fn view(&self) -> Seq<StoreView> {
        self.shared_bucket@.map_values(|s: Shared| s@)
    }
}

impl BucketDb {
    /// The number of shards.
    pub closed spec fn capacity_spec(&self) -> usize {
        self.capacity
    }

    /// Shard `i`.
    pub closed spec fn shard_spec(&self, i: int) -> Shared {
        self.shared_bucket@[i]
    }

    /// `k` is stored, in the shard it routes to.
    pub open spec fn holds(&self, k: Seq<u8>) -> bool {
        self@[shard_of(k, self.capacity_spec())].contains_key(k)
    }

    /// What is stored under `k`, in the shard it routes to.
    pub open spec fn stored(&self, k: Seq<u8>) -> (Seq<u8>, Option<u64>) {
        self@[shard_of(k, self.capacity_spec())][k]
    }

    /// There are `capacity` well-formed shards, at least one, and each key is
    /// held by the shard it routes to.
    pub closed spec fn wf(&self) -> bool {
        &&& self.capacity >= 1
        &&& self.shared_bucket@.len() == self.capacity
        &&& forall|i: int| 0 <= i < self.capacity ==> (#[trigger] self.shared_bucket@[i]).wf()
        &&& forall|i: int, k: Seq<u8>|
            0 <= i < self.capacity && #[trigger] self.shared_bucket@[i]@.contains_key(k) ==> shard_of(
                k,
                self.capacity,
            ) == i
    }

    /// What well-formedness gives a caller.
    pub proof fn lemma_shard(&self, i: int)
        requires
            self.wf(),
            0 <= i < self.capacity_spec(),
        ensures
            self.capacity_spec() >= 1,
            self@.len() == self.capacity_spec(),
            self.shard_spec(i).wf(),
            self@[i] == self.shard_spec(i)@,
            forall|k: Seq<u8>| #[trigger] self@[i].contains_key(k) ==> shard_of(k, self.capacity_spec()) == i,
    {
    }

    /// A well-formed store has at least one shard, and a key's shard is one
    /// of them.
    pub proof fn lemma_capacity_positive(&self)
        requires
            self.wf(),
        ensures
            self.capacity_spec() >= 1,
            self@.len() == self.capacity_spec(),
            forall|k: Seq<u8>| 0 <= #[trigger] shard_of(k, self.capacity_spec()) < self.capacity_spec(),
    {
    }

    /// A store of `capacity` empty shards. The reapers are the caller's to run.
    pub fn new(capacity: usize) -> (r: BucketDb)
        requires
            capacity >= 1,
        ensures
            r.wf(),
            r.capacity_spec() == capacity,
            r@ == Seq::new(capacity as nat, |i: int| StoreView::empty()),
            forall|i: int|
                0 <= i < capacity ==> (#[trigger] r.shard_spec(i)).channels() == Set::<Seq<u8>>::empty()
                    && !r.shard_spec(i).shut_down_spec(),
    {
        let mut shared_bucket: Vec<Shared> = Vec::with_capacity(capacity);
        let mut i: usize = 0;
        while i < capacity
            invariant
                i <= capacity,
                shared_bucket@.len() == i,
                forall|j: int|
                    0 <= j < i ==> (#[trigger] shared_bucket@[j]).wf() && shared_bucket@[j]@ == StoreView::empty()
                        && shared_bucket@[j].channels() == Set::<Seq<u8>>::empty()
                        && !shared_bucket@[j].shut_down_spec(),
            decreases capacity - i,
        {
            shared_bucket.push(Shared::new());
            i = i + 1;
        }
        let r = BucketDb { shared_bucket, capacity, origin: tokio::time::Instant::now() };
        assert(r@ =~= Seq::new(capacity as nat, |i: int| StoreView::empty()));
        r
    }

    pub fn capacity(&self) -> (r: usize)
        ensures
            r == self.capacity_spec(),
    {
        self.capacity
    }

    /// Shard `index`.
    pub fn shard(&self, index: usize) -> (r: &Shared)
        requires
            self.wf(),
            index < self.capacity_spec(),
        ensures
            *r == self.shard_spec(index as int),
    {
        &self.shared_bucket[index]
    }

    /// The instant from which deadlines are counted, in nanoseconds.
    pub fn origin(&self) -> &tokio::time::Instant {
        &self.origin
    }

    /// Nanoseconds elapsed since the origin.
    pub fn now(&self) -> u64 {
        nanos_since(&self.origin)
    }

    fn hash(&self, key: &[u8]) -> (r: usize)
        ensures
            r == key_hash(key@) as usize,
    {
        hash_key(key) as usize
    }

    /// The shard of `key`; it depends on the key and the shard count alone.
    pub fn shard_index(&self, key: &[u8]) -> (r: usize)
        requires
            self.wf(),
        ensures
            r == shard_of(key@, self.capacity_spec()),
            r < self.capacity_spec(),
    {
        self.hash(key) % self.capacity
    }

    /// The prefix followed by a 0xFF byte.
    fn get_next_key(&self, key: &[u8]) -> (r: Vec<u8>)
        ensures
            r@ == range_end(key@),
    {
        prefix_end(key)
    }

    /// The value stored under `key`. An entry past its deadline is still
    /// returned until its shard is swept.
    pub fn get(&self, key: Vec<u8>) -> (r: Option<Vec<u8>>)
        requires
            self.wf(),
        ensures
            r is Some <==> self.holds(key@),
            r matches Some(v) ==> v@ == self.stored(key@).0,
    {
        let index = self.shard_index(key.as_slice());
        proof {
            self.lemma_shard(index as int);
        }
        self.shared_bucket[index].state().get(key.as_slice())
    }

    /// The value stored under `key`, with its deadline.
    pub fn get_with_instant(&self, key: Vec<u8>) -> (r: Option<(Vec<u8>, Option<u64>)>)
        requires
            self.wf(),
        ensures
            r is Some <==> self.holds(key@),
            r matches Some((v, d)) ==> v@ == self.stored(key@).0 && d == self.stored(key@).1,
    {
        let index = self.shard_index(key.as_slice());
        proof {
            self.lemma_shard(index as int);
        }
        self.shared_bucket[index].state().get_with_deadline(key.as_slice())
    }

    /// Applies `f` to shard `index` in place.
    proof fn lemma_replace(old_db: BucketDb, new_db: BucketDb, index: int)
        requires
            old_db.wf(),
            0 <= index < old_db.capacity,
            new_db.capacity == old_db.capacity,
            new_db.shared_bucket@.len() == old_db.shared_bucket@.len(),
            forall|j: int| 0 <= j < old_db.capacity && j != index ==> new_db.shared_bucket@[j] == old_db.shared_bucket@[j],
            new_db.shared_bucket@[index].wf(),
            forall|k: Seq<u8>| #[trigger] new_db.shared_bucket@[index]@.contains_key(k) ==> shard_of(k, new_db.capacity) == index,
        ensures
            new_db.wf(),
            new_db@ == old_db@.update(index, new_db.shared_bucket@[index]@),
    {
        assert(new_db@ =~= old_db@.update(index, new_db.shared_bucket@[index]@));
    }

    /// Stores `value` under `key` at the time `now`, for `expire` nanoseconds
    /// or with no deadline.
    pub fn set_at(&mut self, key: Vec<u8>, value: Vec<u8>, expire: Option<u64>, now: u64)
        requires
            old(self).wf(),
        ensures
            final(self).wf(),
            final(self).capacity_spec() == old(self).capacity_spec(),
            final(self)@ == written(old(self)@, old(self).capacity_spec(), key@, value@, deadline_opt(now, expire)),
            forall|i: int| 0 <= i < old(self).capacity_spec() ==> (#[trigger] final(self).shard_spec(i)).channels()
                == old(self).shard_spec(i).channels() && final(self).shard_spec(i).shut_down_spec()
                == old(self).shard_spec(i).shut_down_spec(),
    {
        let index = self.shard_index(key.as_slice());
        let expires_at = match expire {
            Some(ttl) => Some(deadline_from(now, ttl)),
            None => None,
        };
        let ghost old_db = *self;
        let ghost kv = key@;
        let mut shard = self.shared_bucket.remove(index);
        shard.set(key, value, expires_at);
        self.shared_bucket.insert(index, shard);
        proof {
            old_db.lemma_shard(index as int);
            assert forall|j: int| 0 <= j < old_db.capacity && j != index implies self.shared_bucket@[j]
                == old_db.shared_bucket@[j] by {}
            assert forall|k: Seq<u8>| #[trigger] self.shared_bucket@[index as int]@.contains_key(k) implies shard_of(
                k,
                self.capacity,
            ) == index by {
                if k != kv {
                    assert(old_db@[index as int].contains_key(k));
                }
            }
            Self::lemma_replace(old_db, *self, index as int);
            assert(self@ =~= written(old_db@, old_db.capacity, kv, value@, deadline_opt(now, expire)));
        }
    }

    /// Stores `value` under `key` for `expire` nanoseconds from now, or with
    /// no deadline; wakes the shard's reaper when its soonest deadline moves
    /// forward.
    pub fn set(&mut self, key: Vec<u8>, value: Vec<u8>, expire: Option<u64>)
        requires
            old(self).wf(),
        ensures
            final(self).wf(),
            final(self).capacity_spec() == old(self).capacity_spec(),
            exists|now: u64|
                final(self)@ == written(
                    old(self)@,
                    old(self).capacity_spec(),
                    key@,
                    value@,
                    #[trigger] deadline_opt(now, expire),
                ),
    {
        let now = self.now();
        self.set_at(key, value, expire, now);
    }

    /// Stores `value` under `key` at the time `now` with the deadline
    /// `expire` nanoseconds later, unless the key already holds a later
    /// deadline, in which case nothing changes.
    pub fn set_newest_at(&mut self, key: Vec<u8>, value: Vec<u8>, expire: u64, now: u64)
        requires
            old(self).wf(),
        ensures
            final(self).wf(),
            final(self).capacity_spec() == old(self).capacity_spec(),
            is_stale(old(self)@[shard_of(key@, old(self).capacity_spec())], key@, deadline_after(now, expire))
                ==> final(self)@ == old(self)@,
            !is_stale(old(self)@[shard_of(key@, old(self).capacity_spec())], key@, deadline_after(now, expire))
                ==> final(self)@ == written(
                old(self)@,
                old(self).capacity_spec(),
                key@,
                value@,
                Some(deadline_after(now, expire)),
            ),
            forall|i: int| 0 <= i < old(self).capacity_spec() ==> (#[trigger] final(self).shard_spec(i)).channels()
                == old(self).shard_spec(i).channels() && final(self).shard_spec(i).shut_down_spec()
                == old(self).shard_spec(i).shut_down_spec(),
    {
        let index = self.shard_index(key.as_slice());
        let deadline = deadline_from(now, expire);
        let ghost old_db = *self;
        let ghost kv = key@;
        let mut shard = self.shared_bucket.remove(index);
        shard.set_newest(key, value, deadline);
        self.shared_bucket.insert(index, shard);
        proof {
            old_db.lemma_shard(index as int);
            assert forall|j: int| 0 <= j < old_db.capacity && j != index implies self.shared_bucket@[j]
                == old_db.shared_bucket@[j] by {}
            assert forall|k: Seq<u8>| #[trigger] self.shared_bucket@[index as int]@.contains_key(k) implies shard_of(
                k,
                self.capacity,
            ) == index by {
                if k != kv {
                    assert(old_db@[index as int].contains_key(k));
                }
            }
            Self::lemma_replace(old_db, *self, index as int);
            if is_stale(old_db@[index as int], kv, deadline) {
                assert(self@ =~= old_db@);
            } else {
                assert(self@ =~= written(old_db@, old_db.capacity, kv, value@, Some(deadline)));
            }
        }
    }

    /// Stores `value` under `key` with the deadline `expire` nanoseconds from
    /// now, unless the key already holds a later deadline.
    pub fn set_newest(&mut self, key: Vec<u8>, value: Vec<u8>, expire: u64)
        requires
            old(self).wf(),
        ensures
            final(self).wf(),
            final(self).capacity_spec() == old(self).capacity_spec(),
            exists|now: u64| {
                let d = #[trigger] deadline_after(now, expire);
                &&& is_stale(old(self)@[shard_of(key@, old(self).capacity_spec())], key@, d) ==> final(self)@
                    == old(self)@
                &&& !is_stale(old(self)@[shard_of(key@, old(self).capacity_spec())], key@, d) ==> final(self)@
                    == written(old(self)@, old(self).capacity_spec(), key@, value@, Some(d))
            },
    {
        let now = self.now();
        self.set_newest_at(key, value, expire, now);
    }

    /// Sweeps shard `index` as its reaper does at the time `now`: removes the
    /// entries whose deadline has come and returns the soonest deadline left.
    /// A shut-down shard is left as it is.
    pub fn purge_expired_keys(&mut self, index: usize, now: u64) -> (r: Option<u64>)
        requires
            old(self).wf(),
            index < old(self).capacity_spec(),
        ensures
            final(self).wf(),
            final(self).capacity_spec() == old(self).capacity_spec(),
            old(self).shard_spec(index as int).shut_down_spec() ==> final(self)@ == old(self)@ && r is None,
            !old(self).shard_spec(index as int).shut_down_spec() ==> {
                &&& final(self)@ == old(self)@.update(index as int, unexpired(old(self)@[index as int], now))
                &&& soonest_is(final(self)@[index as int], r)
            },
    {
        let ghost old_db = *self;
        let mut shard = self.shared_bucket.remove(index);
        let r = shard.purge_expired_keys(now);
        self.shared_bucket.insert(index, shard);
        proof {
            old_db.lemma_shard(index as int);
            assert forall|j: int| 0 <= j < old_db.capacity && j != index implies self.shared_bucket@[j]
                == old_db.shared_bucket@[j] by {}
            assert forall|k: Seq<u8>| #[trigger] self.shared_bucket@[index as int]@.contains_key(k) implies shard_of(
                k,
                self.capacity,
            ) == index by {
                assert(old_db@[index as int].contains_key(k));
            }
            Self::lemma_replace(old_db, *self, index as int);
            if old_db.shard_spec(index as int).shut_down_spec() {
                assert(self@ =~= old_db@);
            }
        }
        r
    }

    /// The keys of every shard, shard by shard in ascending shard order, each
    /// shard's in strictly ascending byte order, so no key twice: every
    /// stored key, or with a prefix every stored key from the prefix to the
    /// prefix followed by 0xFF, both included.
    ///
    /// The upper end is included here, where `range` leaves it out; a longer
    /// key that extends the prefix followed by 0xFF is listed by neither.
    pub fn keys(&self, key_start_op: Option<Vec<u8>>) -> (r: Vec<Vec<u8>>)
        requires
            self.wf(),
        ensures
            shard_grouped(key_views(r@), self.capacity_spec()),
            key_views(r@).no_duplicates(),
            forall|k: Seq<u8>| #[trigger]
                key_views(r@).contains(k) <==> (self.holds(k) && listed(k, bound_of(key_start_op))),
    {
        let ghost pv = bound_of(key_start_op);
        let bounds = match key_start_op {
            Some(start) => {
                let end = self.get_next_key(start.as_slice());
                Some((start, end))
            },
            None => None,
        };
        let ghost count = self.capacity;
        proof {
            self.lemma_capacity_positive();
        }
        let mut r: Vec<Vec<u8>> = Vec::new();
        let mut i: usize = 0;
        while i < self.capacity
            invariant
                self.wf(),
                count == self.capacity,
                i <= self.capacity,
                forall|k: Seq<u8>| 0 <= #[trigger] shard_of(k, count) < count,
                pv is Some <==> bounds is Some,
                bounds matches Some((s, e)) ==> pv == Some(s@) && e@ == range_end(s@),
                shard_grouped(key_views(r@), count),
                forall|k: Seq<u8>| #[trigger] key_views(r@).contains(k) <==> (shard_of(k, count) < i
                    && self.holds(k) && listed(k, pv)),
            decreases self.capacity - i,
        {
            proof {
                self.lemma_shard(i as int);
            }
            let st = self.shared_bucket[i].state();
            let mut part = match &bounds {
                Some((s, e)) => st.keys_between(s.as_slice(), e.as_slice()),
                None => st.all_keys(),
            };
            let ghost before = key_views(r@);
            let ghost added = key_views(part@);
            proof {
                assert forall|k: Seq<u8>| #[trigger] added.contains(k) <==> (shard_of(k, count) == i
                    && self.holds(k) && listed(k, pv)) by {
                    if added.contains(k) {
                        assert(self@[i as int].contains_key(k));
                    }
                }
            }
            r.append(&mut part);
            proof {
                assert(key_views(r@) =~= before + added);
                assert forall|a: int, b: int| 0 <= a < b < key_views(r@).len() implies #[trigger] grouped_pair(
                    key_views(r@)[a],
                    key_views(r@)[b],
                    count,
                ) by {
                    if a >= before.len() {
                        assert(key_views(r@)[a] == added[a - before.len()]);
                        assert(key_views(r@)[b] == added[b - before.len()]);
                        assert(added.contains(added[a - before.len()]));
                        assert(added.contains(added[b - before.len()]));
                    } else if b >= before.len() {
                        assert(key_views(r@)[b] == added[b - before.len()]);
                        assert(added.contains(added[b - before.len()]));
                        assert(before.contains(before[a]));
                    } else {
                        assert(grouped_pair(before[a], before[b], count));
                    }
                }
                assert forall|k: Seq<u8>| #[trigger] key_views(r@).contains(k) <==> (shard_of(k, count) < i + 1
                    && self.holds(k) && listed(k, pv)) by {
                    if key_views(r@).contains(k) {
                        let j = choose|j: int| 0 <= j < key_views(r@).len() && key_views(r@)[j] == k;
                        if j < before.len() {
                            assert(before[j] == k);
                            assert(before.contains(k));
                        } else {
                            assert(added[j - before.len()] == k);
                            assert(added.contains(k));
                        }
                    }
                    if shard_of(k, count) < i + 1 && self.holds(k) && listed(k, pv) {
                        if shard_of(k, count) < i {
                            assert(before.contains(k));
                            let j = choose|j: int| 0 <= j < before.len() && before[j] == k;
                            assert(key_views(r@)[j] == k);
                        } else {
                            assert(added.contains(k));
                            let j = choose|j: int| 0 <= j < added.len() && added[j] == k;
                            assert(key_views(r@)[before.len() + j] == k);
                        }
                    }
                }
            }
            i = i + 1;
        }
        proof {
            lemma_grouped_distinct(key_views(r@), count);
        }
        r
    }

    /// A walk over every entry, shard by shard, with no upper bound.
    pub fn iter(&self) -> (r: BucketDbRangeIterator<'_>)
        requires
            self.wf(),
        ensures
            r.wf(),
            r.store() == self@,
            r.start() == Seq::<u8>::empty(),
            r.end() is None,
            r.bucket() == 0,
            r.bucket_count() == self.capacity_spec(),
            r.cursor() is None,
    {
        BucketDbRangeIterator::new(self, Vec::new(), None)
    }

    /// A walk over the entries from `start_key`, included, to `start_key`
    /// followed by 0xFF, excluded, shard by shard; without a start key, from
    /// the empty key to the single byte 0xFF, excluded.
    ///
    /// The range is half-open: the key `start_key` followed by 0xFF is not
    /// walked, where `keys` lists it. Neither takes a longer key that extends
    /// `start_key` followed by 0xFF.
    pub fn range(&self, start_key: Option<Vec<u8>>) -> (r: BucketDbRangeIterator<'_>)
        requires
            self.wf(),
        ensures
            r.wf(),
            r.store() == self@,
            r.start() == (match start_key {
                Some(s) => s@,
                None => Seq::<u8>::empty(),
            }),
            r.end() == Some(range_end(r.start())),
            r.bucket() == 0,
            r.bucket_count() == self.capacity_spec(),
            r.cursor() is None,
    {
        let start = match start_key {
            Some(s) => s,
            None => Vec::new(),
        };
        let end = self.get_next_key(start.as_slice());
        BucketDbRangeIterator::new(self, start, Some(end))
    }

    /// A new receiver of the values published under `key`; the key's channel
    /// is opened in its shard on the first subscription.
    pub fn subscribe(&mut self, key: Vec<u8>) -> (r: Receiver<Vec<u8>>)
        requires
            old(self).wf(),
        ensures
            final(self).wf(),
            final(self)@ == old(self)@,
            final(self).capacity_spec() == old(self).capacity_spec(),
            final(self).shard_spec(shard_of(key@, old(self).capacity_spec())).channels() == old(self).shard_spec(
                shard_of(key@, old(self).capacity_spec()),
            ).channels().insert(key@),
    {
        let index = self.shard_index(key.as_slice());
        let ghost old_db = *self;
        let mut shard = self.shared_bucket.remove(index);
        let rx = shard.subscribe(key);
        self.shared_bucket.insert(index, shard);
        proof {
            old_db.lemma_shard(index as int);
            assert forall|j: int| 0 <= j < old_db.capacity && j != index implies self.shared_bucket@[j]
                == old_db.shared_bucket@[j] by {}
            Self::lemma_replace(old_db, *self, index as int);
            assert(self@ =~= old_db@);
        }
        rx
    }

    /// Sends `value` to the receivers of `key` and returns how many there
    /// were: zero when the key never had a subscriber or has none left.
    pub fn publish(&self, key: Vec<u8>, value: Vec<u8>) -> (r: usize)
        requires
            self.wf(),
        ensures
            !self.shard_spec(shard_of(key@, self.capacity_spec())).channels().contains(key@) ==> r == 0,
    {
        let index = self.shard_index(key.as_slice());
        proof {
            self.lemma_shard(index as int);
        }
        self.shared_bucket[index].publish(key.as_slice(), value)
    }

    /// Shuts every shard down, stopping the reapers.
    pub fn shutdown(&mut self)
        requires
            old(self).wf(),
        ensures
            final(self).wf(),
            final(self)@ == old(self)@,
            final(self).capacity_spec() == old(self).capacity_spec(),
            forall|i: int| 0 <= i < old(self).capacity_spec() ==> (#[trigger] final(self).shard_spec(i)).shut_down_spec(),
    {
        let ghost old_db = *self;
        let mut i: usize = 0;
        while i < self.capacity
            invariant
                self.wf(),
                self@ == old_db@,
                self.capacity == old_db.capacity,
                i <= self.capacity,
                forall|j: int| 0 <= j < i ==> (#[trigger] self.shard_spec(j)).shut_down_spec(),
            decreases self.capacity - i,
        {
            let ghost before = *self;
            proof {
                before.lemma_shard(i as int);
            }
            let mut shard = self.shared_bucket.remove(i);
            shard.shut_down();
            self.shared_bucket.insert(i, shard);
            proof {
                assert forall|j: int| 0 <= j < before.capacity && j != i implies self.shared_bucket@[j]
                    == before.shared_bucket@[j] by {}
                Self::lemma_replace(before, *self, i as int);
                assert(self@ =~= before@);
                assert forall|j: int| 0 <= j < i + 1 implies (#[trigger] self.shard_spec(j)).shut_down_spec() by {
                    if j < i {
                        assert(before.shard_spec(j).shut_down_spec());
                    }
                }
            }
            i = i + 1;
        }
    }
}

} // verus!
