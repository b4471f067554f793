//! One shard's state: the ordered entries, the expiration index kept in
//! lockstep with them, the per-key broadcast channels and the shutdown flag.

use vstd::prelude::*;
use tokio::sync::broadcast::{Receiver, Sender};
use crate::byte_order::{compare_bytes, lemma_lex_asymmetric, lemma_lex_irreflexive, lemma_lex_total, lemma_lex_transitive, lex_le, lex_lt};
use crate::expiry::{deadline_lt, ExpirationIndex};
use crate::sorted_map::SortedMap;

verus! {

/// Room of each key's broadcast channel, in pending values.
pub const CHANNEL_CAPACITY: usize = 1024;

/// What a shard holds, by key: the stored bytes and the optional deadline.
pub type StoreView = Map<Seq<u8>, (Seq<u8>, Option<u64>)>;

/// The deadline of `k` in `m`, if `k` is held and has one.
pub open spec fn deadline_of(m: StoreView, k: Seq<u8>) -> Option<u64> {
    if m.contains_key(k) {
        m[k].1
    } else {
        None
    }
}

/// Every deadline held in `m` is later than `t`.
pub open spec fn all_deadlines_after(m: StoreView, t: u64) -> bool {
    forall|k: Seq<u8>| #[trigger] deadline_of(m, k) matches Some(d) ==> d > t
}

/// `d` is the soonest deadline held in `m`.
pub open spec fn is_soonest(m: StoreView, d: u64) -> bool {
    &&& exists|k: Seq<u8>| #[trigger] deadline_of(m, k) == Some(d)
    &&& forall|k: Seq<u8>| #[trigger] deadline_of(m, k) matches Some(e) ==> d <= e
}

/// The soonest deadline in `m`: `None` when no entry has one.
pub open spec fn soonest_is(m: StoreView, r: Option<u64>) -> bool {
    match r {
        None => forall|k: Seq<u8>| #[trigger] deadline_of(m, k) is None,
        Some(d) => is_soonest(m, d),
    }
}

/// A write with deadline `expires_at` is followed by a wake of the reaper
/// when it brings the soonest deadline forward.
pub open spec fn wakes(m: StoreView, expires_at: Option<u64>) -> bool {
    match expires_at {
        Some(w) => all_deadlines_after(m, w),
        None => false,
    }
}

/// `k` has a deadline that has come by `now`.
pub open spec fn expired(m: StoreView, k: Seq<u8>, now: u64) -> bool {
    deadline_of(m, k) matches Some(d) && d <= now
}

/// The entries of `m` whose deadline has not come by `now`.
pub open spec fn unexpired(m: StoreView, now: u64) -> StoreView {
    m.restrict(m.dom().filter(|k: Seq<u8>| !expired(m, k, now)))
}

/// A conditional write with `deadline` is dropped when `k` already holds a
/// later deadline.
pub open spec fn is_stale(m: StoreView, k: Seq<u8>, deadline: u64) -> bool {
    deadline_of(m, k) matches Some(d) && d > deadline
}

/// The views of a sequence of keys.
pub open spec fn key_views(v: Seq<Vec<u8>>) -> Seq<Seq<u8>> {
    v.map_values(|k: Vec<u8>| k@)
}

/// Keys in strictly ascending byte order.
pub open spec fn strictly_ascending(s: Seq<Seq<u8>>) -> bool {
    forall|i: int, j: int| 0 <= i < j < s.len() ==> lex_lt(#[trigger] s[i], #[trigger] s[j])
}

/// `k` lies in the closed interval from `lo` to `hi`.
pub open spec fn within(k: Seq<u8>, lo: Seq<u8>, hi: Seq<u8>) -> bool {
    lex_le(lo, k) && lex_le(k, hi)
}

/// The view of an optional bound.
pub open spec fn bound_of(end: Option<Vec<u8>>) -> Option<Seq<u8>> {
    match end {
        Some(e) => Some(e@),
        None => None,
    }
}

/// `k` lies below the bound `end`; no bound holds every key.
pub open spec fn below(k: Seq<u8>, end: Option<Seq<u8>>) -> bool {
    match end {
        Some(e) => lex_lt(k, e),
        None => true,
    }
}

/// `k` lies after `after` and below `end`.
pub open spec fn between(k: Seq<u8>, after: Seq<u8>, end: Option<Seq<u8>>) -> bool {
    lex_lt(after, k) && below(k, end)
}

/// Whether `k` lies below the bound `end`.
pub fn is_below(k: &[u8], end: &Option<Vec<u8>>) -> (r: bool)
    ensures
        r == below(k@, bound_of(*end)),
{
    match end {
        Some(e) => matches!(compare_bytes(k, e.as_slice()), core::cmp::Ordering::Less),
        None => true,
    }
}

/// The deadline of a write made at `now` that lives for `ttl` nanoseconds;
/// a sum past the clock's range is held at its last instant.
pub open spec fn deadline_after(now: u64, ttl: u64) -> u64 {
    if now + ttl > u64::MAX {
        u64::MAX
    } else {
        (now + ttl) as u64
    }
}

/// The deadline of a write made at `now` that lives for `ttl` nanoseconds.
pub fn deadline_from(now: u64, ttl: u64) -> (r: u64)
    ensures
        r == deadline_after(now, ttl),
{
    now.saturating_add(ttl)
}

/// A stored value with its optional absolute deadline.
#[derive(Debug, Clone)]
pub struct Entry {
    data: Vec<u8>,
    expires_at: Option<u64>,
}

impl View for Entry {
    type V = (Seq<u8>, Option<u64>);

    closed spec fn view(&self) -> (Seq<u8>, Option<u64>) {
        (self.data@, self.expires_at)
    }
}

impl Entry {
    pub fn data(&self) -> (r: &Vec<u8>)
        ensures
            r@ == self@.0,
    {
        &self.data
    }

    pub fn expires_at(&self) -> (r: Option<u64>)
        ensures
            r == self@.1,
    {
        self.expires_at
    }

    fn copy(&self) -> (r: Entry)
        ensures
            r@ == self@,
    {
        Entry { data: copy_bytes(&self.data), expires_at: self.expires_at }
    }
}

/// A fresh vector holding the same bytes.
pub fn copy_bytes(v: &Vec<u8>) -> (r: Vec<u8>)
    ensures
        r@ == v@,
{
    let r = v.clone();
    assert(r@ =~= v@);
    r
}

/// The deadline table and the channel table are sorted maps too: vstd's
/// `HashMap` specification likewise holds only for key types that obey its
/// key model, which it does not establish for `Vec<u8>`.
pub struct State {
    entries: SortedMap<Entry>,
    expirations: ExpirationIndex,
    key_expirations: SortedMap<u64>,
    subscribers: SortedMap<Sender<Vec<u8>>>,
    shutdown: bool,
}

impl View for State {
    type V = StoreView;

    closed spec fn view(&self) -> StoreView {
        self.entries@.map_values(|e: Entry| e@)
    }
}

impl State {
    /// The keys held, in ascending byte order.
    pub closed spec fn key_order(&self) -> Seq<Seq<u8>> {
        self.entries.keys()
    }

    /// The keys that have a broadcast channel.
    pub closed spec fn channels(&self) -> Set<Seq<u8>> {
        self.subscribers@.dom()
    }

    pub closed spec fn shut_down_spec(&self) -> bool {
        self.shutdown
    }

    /// The index of deadlines, as a set of (deadline, key) pairs.
    pub closed spec fn expiration_pairs(&self) -> Set<(u64, Seq<u8>)> {
        self.expirations@
    }

    /// The key-to-deadline table.
    pub closed spec fn deadline_table(&self) -> Map<Seq<u8>, u64> {
        self.key_expirations@
    }

    /// The structures are well formed, and the deadline table and the
    /// expiration index agree with the entries: a key has a deadline in the
    /// table, and exactly one pair in the index, just when its entry has that
    /// deadline.
    pub closed spec fn wf(&self) -> bool {
        &&& self.entries.wf()
        &&& self.expirations.wf()
        &&& self.key_expirations.wf()
        &&& self.subscribers.wf()
        &&& forall|k: Seq<u8>| #[trigger]
            self.key_expirations@.contains_key(k) <==> (self.entries@.contains_key(k)
                && self.entries@[k]@.1 is Some)
        &&& forall|k: Seq<u8>| #[trigger]
            self.key_expirations@.contains_key(k) ==> self.entries@[k]@.1 == Some(
                self.key_expirations@[k],
            )
        &&& forall|p: (u64, Seq<u8>)| #[trigger]
            self.expirations@.contains(p) <==> (self.key_expirations@.contains_key(p.1)
                && self.key_expirations@[p.1] == p.0)
    }

    /// The lockstep of entries, deadline table and expiration index, stated
    /// over the views.
    pub proof fn lemma_lockstep(&self)
        requires
            self.wf(),
        ensures
            forall|k: Seq<u8>|
                #![trigger deadline_of(self@, k)]
                #![trigger self.deadline_table().contains_key(k)]
                deadline_of(self@, k) == (if self.deadline_table().contains_key(k) {
                    Some(self.deadline_table()[k])
                } else {
                    None
                }),
            forall|d: u64, k: Seq<u8>| #[trigger]
                self.expiration_pairs().contains((d, k)) <==> deadline_of(self@, k) == Some(d),
            forall|d: u64, e: u64, k: Seq<u8>|
                #[trigger] self.expiration_pairs().contains((d, k)) && #[trigger] self.expiration_pairs().contains((e, k)) ==> d == e,
    {
        assert forall|d: u64, k: Seq<u8>| #[trigger]
            self.expiration_pairs().contains((d, k)) <==> deadline_of(self@, k) == Some(d) by {
            let p = (d, k);
            assert(self.expirations@.contains(p) <==> (self.key_expirations@.contains_key(p.1)
                && self.key_expirations@[p.1] == p.0));
        }
    }

    pub fn new() -> (r: State)
        ensures
            r.wf(),
            r@ == StoreView::empty(),
            r.channels() == Set::<Seq<u8>>::empty(),
            !r.shut_down_spec(),
    {
        let r = State {
            entries: SortedMap::new(),
            expirations: ExpirationIndex::new(),
            key_expirations: SortedMap::new(),
            subscribers: SortedMap::new(),
            shutdown: false,
        };
        assert(r@ =~= StoreView::empty());
        r
    }

    /// The value stored under `key`; deadlines are not consulted, expiry is
    /// the sweep's work.
    pub fn get(&self, key: &[u8]) -> (r: Option<Vec<u8>>)
        requires
            self.wf(),
        ensures
            r is Some <==> self@.contains_key(key@),
            r matches Some(v) ==> v@ == self@[key@].0,
    {
        match self.entries.get(key) {
            Some(e) => Some(copy_bytes(&e.data)),
            None => None,
        }
    }

    /// The value stored under `key`, with its deadline.
    pub fn get_with_deadline(&self, key: &[u8]) -> (r: Option<(Vec<u8>, Option<u64>)>)
        requires
            self.wf(),
        ensures
            r is Some <==> self@.contains_key(key@),
            r matches Some((v, d)) ==> v@ == self@[key@].0 && d == self@[key@].1,
    {
        match self.entries.get(key) {
            Some(e) => {
                let data = copy_bytes(&e.data);
                let deadline = match self.key_expirations.get(key) {
                    Some(d) => Some(*d),
                    None => None,
                };
                Some((data, deadline))
            },
            None => None,
        }
    }

    /// The soonest deadline of the shard.
    pub fn next_expiration(&self) -> (r: Option<u64>)
        requires
            self.wf(),
        ensures
            soonest_is(self@, r),
    {
        proof {
            self.lemma_lockstep();
        }
        match self.expirations.first() {
            Some((d, k)) => {
                proof {
                    assert(deadline_of(self@, k@) == Some(d));
                    assert forall|j: Seq<u8>| #[trigger] deadline_of(self@, j) is Some implies d <= deadline_of(self@, j)->0 by {
                        let e = deadline_of(self@, j)->0;
                        assert(self.expiration_pairs().contains((e, j)));
                    }
                }
                Some(d)
            },
            None => {
                proof {
                    assert forall|j: Seq<u8>| #[trigger] deadline_of(self@, j) is None by {
                        if deadline_of(self@, j) is Some {
                            let e = deadline_of(self@, j)->0;
                            assert(self.expiration_pairs().contains((e, j)));
                        }
                    }
                }
                None
            },
        }
    }

    /// Whether a write with deadline `expires_at` brings the soonest deadline
    /// forward.
    fn wake_needed(&self, expires_at: Option<u64>) -> (r: bool)
        requires
            self.wf(),
        ensures
            r == wakes(self@, expires_at),
    {
        match expires_at {
            Some(when) => match self.next_expiration() {
                Some(next) => {
                    proof {
                        if next > when {
                            assert forall|k: Seq<u8>| #[trigger] deadline_of(self@, k) matches Some(d) ==> d > when by {}
                        } else {
                            let k = choose|k: Seq<u8>| #[trigger] deadline_of(self@, k) == Some(next);
                        }
                    }
                    next > when
                },
                None => true,
            },
            None => false,
        }
    }

    /// Stores `value` under `key` with the deadline `expires_at`, replacing
    /// any earlier entry and its deadline. Returns whether the reaper should
    /// be woken.
    pub fn set(&mut self, key: Vec<u8>, value: Vec<u8>, expires_at: Option<u64>) -> (notify: bool)
        requires
            old(self).wf(),
        ensures
            final(self).wf(),
            final(self)@ == old(self)@.insert(key@, (value@, expires_at)),
            notify == wakes(old(self)@, expires_at),
            final(self).channels() == old(self).channels(),
            final(self).shut_down_spec() == old(self).shut_down_spec(),
    {
        let notify = self.wake_needed(expires_at);
        let ghost old_self = *self;
        let ghost kv = key@;
        let prev = self.entries.insert(copy_bytes(&key), Entry { data: value, expires_at });
        match prev {
            Some(prev) => match prev.expires_at {
                Some(when) => {
                    self.expirations.remove(when, key.as_slice());
                    self.key_expirations.remove(key.as_slice());
                },
                None => {},
            },
            None => {},
        }
        proof {
            assert forall|p: (u64, Seq<u8>)| #[trigger] self.expirations@.contains(p) <==> (
            self.key_expirations@.contains_key(p.1) && self.key_expirations@[p.1] == p.0) by {
                assert(old_self.expirations@.contains(p) <==> (old_self.key_expirations@.contains_key(p.1)
                    && old_self.key_expirations@[p.1] == p.0));
            }
            assert(!self.key_expirations@.contains_key(kv));
        }
        match expires_at {
            Some(when) => {
                proof {
                    assert(!self.expirations@.contains((when, kv)));
                }
                self.expirations.insert(when, copy_bytes(&key));
                self.key_expirations.insert(key, when);
            },
            None => {},
        }
        proof {
            assert forall|k: Seq<u8>| #[trigger] self.key_expirations@.contains_key(k) <==> (
            self.entries@.contains_key(k) && self.entries@[k]@.1 is Some) by {
                assert(old_self.key_expirations@.contains_key(k) <==> (old_self.entries@.contains_key(k)
                    && old_self.entries@[k]@.1 is Some));
            }
            assert forall|k: Seq<u8>| #[trigger] self.key_expirations@.contains_key(k)
                implies self.entries@[k]@.1 == Some(self.key_expirations@[k]) by {
                assert(old_self.key_expirations@.contains_key(k) ==> old_self.entries@[k]@.1 == Some(
                    old_self.key_expirations@[k]));
            }
            assert forall|p: (u64, Seq<u8>)| #[trigger] self.expirations@.contains(p) <==> (
            self.key_expirations@.contains_key(p.1) && self.key_expirations@[p.1] == p.0) by {}
            assert(self@ =~= old_self@.insert(kv, (value@, expires_at)));
        }
        notify
    }

    /// Stores `value` under `key` with the absolute `deadline`, unless `key`
    /// already holds a later deadline, in which case nothing changes. Returns
    /// whether the reaper should be woken.
    pub fn set_newest(&mut self, key: Vec<u8>, value: Vec<u8>, deadline: u64) -> (notify: bool)
        requires
            old(self).wf(),
        ensures
            final(self).wf(),
            is_stale(old(self)@, key@, deadline) ==> *final(self) == *old(self) && !notify,
            !is_stale(old(self)@, key@, deadline) ==> final(self)@ == old(self)@.insert(
                key@,
                (value@, Some(deadline)),
            ) && notify == wakes(old(self)@, Some(deadline)),
            final(self).channels() == old(self).channels(),
            final(self).shut_down_spec() == old(self).shut_down_spec(),
    {
        proof {
            self.lemma_lockstep();
        }
        let stale = match self.key_expirations.get(key.as_slice()) {
            Some(d) => *d > deadline,
            None => false,
        };
        if stale {
            return false;
        }
        self.set(key, value, Some(deadline))
    }

    /// Removes every entry whose deadline has come by `now`, with its
    /// deadline, and returns the soonest deadline left. A shut-down shard is
    /// left as it is.
    pub fn purge_expired_keys(&mut self, now: u64) -> (r: Option<u64>)
        requires
            old(self).wf(),
        ensures
            final(self).wf(),
            old(self).shut_down_spec() ==> *final(self) == *old(self) && r is None,
            !old(self).shut_down_spec() ==> final(self)@ == unexpired(old(self)@, now) && soonest_is(
                final(self)@,
                r,
            ),
            final(self).channels() == old(self).channels(),
            final(self).shut_down_spec() == old(self).shut_down_spec(),
    {
        if self.shutdown {
            return None;
        }
        let ghost old_view = self@;
        let ghost old_channels = self.channels();
        loop
            invariant
                self.wf(),
                !self.shutdown,
                !old(self).shut_down_spec(),
                old_view == old(self)@,
                old_channels == old(self).channels(),
                self.channels() == old_channels,
                forall|k: Seq<u8>| #[trigger] self@.contains_key(k) ==> old_view.contains_key(k) && self@[k] == old_view[k],
                forall|k: Seq<u8>| #[trigger] old_view.contains_key(k) && !self@.contains_key(k) ==> expired(old_view, k, now),
            decreases self.expirations.count(),
        {
            proof {
                self.lemma_lockstep();
            }
            let ghost before = *self;
            let (when, key) = match self.expirations.first() {
                Some((when, k)) => (when, copy_bytes(k)),
                None => {
                    proof {
                        assert forall|k: Seq<u8>| #[trigger] deadline_of(self@, k) is None by {
                            if deadline_of(self@, k) is Some {
                                assert(self.expiration_pairs().contains((deadline_of(self@, k)->0, k)));
                            }
                        }
                        assert forall|k: Seq<u8>| old_view.contains_key(k) && !expired(old_view, k, now)
                            implies #[trigger] self@.contains_key(k) by {}
                        assert forall|k: Seq<u8>| #[trigger] self@.contains_key(k) implies !expired(old_view, k, now) by {
                            assert(deadline_of(self@, k) == deadline_of(old_view, k));
                        }
                        assert(self@ =~= unexpired(old_view, now));
                    }
                    return None;
                },
            };
            if when > now {
                proof {
                    assert forall|j: Seq<u8>| #[trigger] deadline_of(self@, j) is Some implies when <= deadline_of(self@, j)->0 by {
                        assert(self.expiration_pairs().contains((deadline_of(self@, j)->0, j)));
                    }
                    assert(deadline_of(self@, key@) == Some(when));
                    assert forall|k: Seq<u8>| old_view.contains_key(k) && !expired(old_view, k, now)
                        implies #[trigger] self@.contains_key(k) by {}
                    assert forall|k: Seq<u8>| #[trigger] self@.contains_key(k) implies !expired(old_view, k, now) by {
                        assert(deadline_of(self@, k) == deadline_of(old_view, k));
                    }
                    assert(self@ =~= unexpired(old_view, now));
                }
                return Some(when);
            }
            proof {
                assert(deadline_of(self@, key@) == Some(when));
            }
            self.entries.remove(key.as_slice());
            self.key_expirations.remove(key.as_slice());
            self.expirations.remove_first();
            proof {
                assert(self@ =~= before@.remove(key@));
                assert forall|k: Seq<u8>| #[trigger] self.key_expirations@.contains_key(k) <==> (
                self.entries@.contains_key(k) && self.entries@[k]@.1 is Some) by {
                    assert(before.key_expirations@.contains_key(k) <==> (before.entries@.contains_key(k)
                        && before.entries@[k]@.1 is Some));
                }
                assert forall|k: Seq<u8>| #[trigger] self.key_expirations@.contains_key(k)
                    implies self.entries@[k]@.1 == Some(self.key_expirations@[k]) by {
                    assert(before.key_expirations@.contains_key(k) ==> before.entries@[k]@.1 == Some(
                        before.key_expirations@[k]));
                }
                assert forall|p: (u64, Seq<u8>)| #[trigger] self.expirations@.contains(p) <==> (
                self.key_expirations@.contains_key(p.1) && self.key_expirations@[p.1] == p.0) by {
                    assert(before.expirations@.contains(p) <==> (before.key_expirations@.contains_key(p.1)
                        && before.key_expirations@[p.1] == p.0));
                }
            }
        }
    }

    proof fn lemma_key_order(&self)
        requires
            self.wf(),
        ensures
            strictly_ascending(self.key_order()),
            forall|k: Seq<u8>| #[trigger] self@.contains_key(k) <==> self.key_order().contains(k),
            forall|i: int|
                0 <= i < self.key_order().len() ==> #[trigger] self@[self.key_order()[i]]
                    == self.entries.value_at_spec(i)@,
    {
        self.entries.lemma_wf();
    }

    /// Every key from `lo` to `hi`, both included, in ascending order.
    pub fn keys_between(&self, lo: &[u8], hi: &[u8]) -> (r: Vec<Vec<u8>>)
        requires
            self.wf(),
        ensures
            strictly_ascending(key_views(r@)),
            forall|k: Seq<u8>| #[trigger]
                key_views(r@).contains(k) <==> (self@.contains_key(k) && within(k, lo@, hi@)),
    {
        proof {
            self.lemma_key_order();
        }
        let ghost ks = self.key_order();
        let start = self.entries.lower_bound(lo);
        let mut i = start;
        let mut r: Vec<Vec<u8>> = Vec::new();
        while i < self.entries.len() && !matches!(
            compare_bytes(self.entries.key_at(i).as_slice(), hi),
            core::cmp::Ordering::Greater
        )
            invariant
                self.wf(),
                ks == self.key_order(),
                start <= i <= ks.len(),
                key_views(r@) =~= ks.subrange(start as int, i as int),
                forall|j: int| 0 <= j < start ==> lex_lt(#[trigger] ks[j], lo@),
                forall|j: int| start <= j < ks.len() ==> !lex_lt(#[trigger] ks[j], lo@),
                forall|j: int| start <= j < i ==> !lex_lt(hi@, #[trigger] ks[j]),
            decreases ks.len() - i,
        {
            let ghost prev = r@;
            r.push(copy_bytes(self.entries.key_at(i)));
            proof {
                assert(key_views(r@) =~= key_views(prev).push(ks[i as int]));
            }
            i = i + 1;
        }
        proof {
            assert forall|j: int| i <= j < ks.len() implies lex_lt(hi@, #[trigger] ks[j]) by {
                lemma_lex_total(ks[i as int], hi@);
                if j > i {
                    if ks[i as int] == hi@ {
                    } else {
                        lemma_lex_transitive(hi@, ks[i as int], ks[j]);
                    }
                }
            }
            assert forall|k: Seq<u8>| #[trigger] key_views(r@).contains(k) <==> (self@.contains_key(k)
                && within(k, lo@, hi@)) by {
                if key_views(r@).contains(k) {
                    let j = choose|j: int| 0 <= j < key_views(r@).len() && key_views(r@)[j] == k;
                    assert(ks[start + j] == k);
                    assert(ks.contains(k));
                    lemma_lex_total(lo@, k);
                    lemma_lex_total(k, hi@);
                }
                if self@.contains_key(k) && within(k, lo@, hi@) {
                    let j = choose|j: int| 0 <= j < ks.len() && ks[j] == k;
                    if j < start {
                        lemma_lex_asymmetric(k, lo@);
                        lemma_lex_irreflexive(k);
                    }
                    if j >= i {
                        lemma_lex_asymmetric(hi@, k);
                        lemma_lex_irreflexive(k);
                    }
                    assert(key_views(r@)[j - start] == k);
                }
            }
        }
        r
    }

    /// Every key, in ascending order.
    pub fn all_keys(&self) -> (r: Vec<Vec<u8>>)
        requires
            self.wf(),
        ensures
            key_views(r@) == self.key_order(),
            strictly_ascending(key_views(r@)),
            forall|k: Seq<u8>| #[trigger] key_views(r@).contains(k) <==> self@.contains_key(k),
    {
        proof {
            self.lemma_key_order();
        }
        let mut i: usize = 0;
        let mut r: Vec<Vec<u8>> = Vec::new();
        while i < self.entries.len()
            invariant
                self.wf(),
                i <= self.key_order().len(),
                key_views(r@) =~= self.key_order().subrange(0, i as int),
            decreases self.key_order().len() - i,
        {
            let ghost prev = r@;
            r.push(copy_bytes(self.entries.key_at(i)));
            proof {
                assert(key_views(r@) =~= key_views(prev).push(self.key_order()[i as int]));
            }
            i = i + 1;
        }
        proof {
            assert(key_views(r@) =~= self.key_order());
        }
        r
    }

    /// The entry stored under `key`, with a copy of the key.
    pub fn entry_at(&self, key: &[u8]) -> (r: Option<(Vec<u8>, Entry)>)
        requires
            self.wf(),
        ensures
            r is Some <==> self@.contains_key(key@),
            r matches Some((k, e)) ==> k@ == key@ && e@ == self@[key@],
    {
        match self.entries.find(key) {
            Some(i) => {
                proof {
                    self.lemma_key_order();
                }
                Some((copy_bytes(self.entries.key_at(i)), self.entries.value_at(i).copy()))
            },
            None => None,
        }
    }

    /// The entry with the least key after `after` and below `end`.
    pub fn entry_after(&self, after: &[u8], end: &Option<Vec<u8>>) -> (r: Option<(Vec<u8>, Entry)>)
        requires
            self.wf(),
        ensures
            r is None <==> !exists|k: Seq<u8>| #[trigger] self@.contains_key(k) && between(k, after@, bound_of(*end)),
            r matches Some((k, e)) ==> {
                &&& self@.contains_key(k@)
                &&& between(k@, after@, bound_of(*end))
                &&& e@ == self@[k@]
                &&& forall|j: Seq<u8>| #[trigger] self@.contains_key(j) && between(j, after@, bound_of(*end)) ==> lex_le(k@, j)
            },
    {
        proof {
            self.lemma_key_order();
        }
        let ghost ks = self.key_order();
        let ghost b = bound_of(*end);
        let i = self.entries.upper_bound(after);
        if i < self.entries.len() && is_below(self.entries.key_at(i).as_slice(), end) {
            let k = copy_bytes(self.entries.key_at(i));
            let e = self.entries.value_at(i).copy();
            proof {
                assert(ks[i as int] == k@);
                assert(ks.contains(k@));
                assert(self@.contains_key(k@) && between(k@, after@, b));
                assert forall|j: Seq<u8>| #[trigger] self@.contains_key(j) && between(j, after@, b) implies lex_le(k@, j) by {
                    let t = choose|t: int| 0 <= t < ks.len() && ks[t] == j;
                    if t < i {
                        lemma_lex_asymmetric(after@, j);
                    }
                }
            }
            Some((k, e))
        } else {
            proof {
                assert forall|j: Seq<u8>| #[trigger] self@.contains_key(j) implies !between(j, after@, b) by {
                    let t = choose|t: int| 0 <= t < ks.len() && ks[t] == j;
                    if t >= i && between(j, after@, b) {
                        let e = b->0;
                        if t > i {
                            lemma_lex_transitive(ks[i as int], j, e);
                        }
                        lemma_lex_asymmetric(ks[i as int], e);
                        lemma_lex_total(ks[i as int], e);
                    }
                }
            }
            None
        }
    }

    /// A new receiver of the values published under `key`; the key's channel
    /// is opened on its first subscription.
    pub fn subscribe(&mut self, key: Vec<u8>) -> (r: Receiver<Vec<u8>>)
        requires
            old(self).wf(),
        ensures
            final(self).wf(),
            final(self)@ == old(self)@,
            final(self).key_order() == old(self).key_order(),
            final(self).channels() == old(self).channels().insert(key@),
            final(self).shut_down_spec() == old(self).shut_down_spec(),
    {
        match self.subscribers.get(key.as_slice()) {
            Some(tx) => {
                let rx = tx.subscribe();
                proof {
                    assert(self.channels() =~= self.channels().insert(key@));
                }
                return rx;
            },
            None => {},
        }
        let (tx, rx) = tokio::sync::broadcast::channel(CHANNEL_CAPACITY);
        self.subscribers.insert(key, tx);
        proof {
            assert(self.subscribers@.dom() =~= old(self).subscribers@.dom().insert(key@));
        }
        rx
    }

    /// Sends `value` to the receivers of `key`; returns how many there were,
    /// zero when the key has no channel.
    pub fn publish(&self, key: &[u8], value: Vec<u8>) -> (r: usize)
        requires
            self.wf(),
        ensures
            !self.channels().contains(key@) ==> r == 0,
    {
        match self.subscribers.get(key) {
            Some(tx) => crate::outside::send_value(tx, value),
            None => 0,
        }
    }

    /// Marks the shard as shut down: its reaper stops and no entry expires
    /// any more.
    pub fn shut_down(&mut self)
        requires
            old(self).wf(),
        ensures
            final(self).wf(),
            final(self)@ == old(self)@,
            final(self).key_order() == old(self).key_order(),
            final(self).channels() == old(self).channels(),
            final(self).shut_down_spec(),
    {
        self.shutdown = true;
    }

    pub fn is_shutdown(&self) -> (r: bool)
        ensures
            r == self.shut_down_spec(),
    {
        self.shutdown
    }
}

} // verus!
