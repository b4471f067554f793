//! Laws of the store, stated over the views that the operations' contracts
//! use.

use vstd::prelude::*;
use crate::db::{shard_of, written, BucketDb};
use crate::outside::key_hash;
use crate::state::{deadline_after, deadline_of, is_stale, unexpired, State, StoreView};

verus! {

/// Two lookups of the same key bytes in one store hash alike and route to
/// the same shard, one of the store's: the hash depends on the bytes alone,
/// and no operation of a store changes its shard count.
pub proof fn lemma_routing_stable(db: &BucketDb, k1: Seq<u8>, k2: Seq<u8>)
    requires
        db.wf(),
        k1 == k2,
    ensures
        key_hash(k1) == key_hash(k2),
        shard_of(k1, db.capacity_spec()) == shard_of(k2, db.capacity_spec()),
        0 <= shard_of(k1, db.capacity_spec()) < db.capacity_spec(),
{
    db.lemma_capacity_positive();
}

/// In a well-formed shard every entry with a deadline has exactly one pair
/// in the expiration index, carrying that deadline, and every pair of the
/// index belongs to such an entry.
pub proof fn lemma_expiration_lockstep(s: &State, k: Seq<u8>, d: u64)
    requires
        s.wf(),
    ensures
        s.expiration_pairs().contains((d, k)) <==> deadline_of(s@, k) == Some(d),
        s.deadline_table().contains_key(k) <==> deadline_of(s@, k) is Some,
        forall|e: u64| #[trigger] s.expiration_pairs().contains((e, k)) && s.expiration_pairs().contains((d, k)) ==> d == e,
{
    s.lemma_lockstep();
}

/// A value written at `now` to live `ttl` nanoseconds survives every sweep
/// made before its deadline, with its value, and is gone after the first
/// sweep made at or after it.
pub proof fn lemma_ttl(m: StoreView, k: Seq<u8>, v: Seq<u8>, now: u64, ttl: u64, sweep_at: u64)
    ensures
        ({
            let written = m.insert(k, (v, Some(deadline_after(now, ttl))));
            &&& sweep_at < deadline_after(now, ttl) ==> unexpired(written, sweep_at).contains_key(k)
                && unexpired(written, sweep_at)[k] == (v, Some(deadline_after(now, ttl)))
            &&& sweep_at >= deadline_after(now, ttl) ==> !unexpired(written, sweep_at).contains_key(k)
        }),
{
    let written = m.insert(k, (v, Some(deadline_after(now, ttl))));
    assert(deadline_of(written, k) == Some(deadline_after(now, ttl)));
    if sweep_at < deadline_after(now, ttl) {
        assert(written.dom().filter(|j: Seq<u8>| !crate::state::expired(written, j, sweep_at)).contains(k));
    }
}

/// Of two conditional writes to one key, the second with a sooner deadline
/// than the first, the second is dropped and the first value stays, provided
/// the first was not itself dropped.
pub proof fn lemma_last_writer_by_deadline(m: StoreView, k: Seq<u8>, v1: Seq<u8>, t1: u64, t2: u64)
    requires
        !is_stale(m, k, t2),
        t1 < t2,
    ensures
        is_stale(m.insert(k, (v1, Some(t2))), k, t1),
        m.insert(k, (v1, Some(t2)))[k].0 == v1,
{
}

/// An unconditional write without a deadline over a write with one leaves
/// the key with no deadline and no pair in the expiration index.
pub proof fn lemma_overwrite_clears_deadline(
    s0: &State,
    s1: &State,
    s2: &State,
    k: Seq<u8>,
    v: Seq<u8>,
    d: u64,
)
    requires
        s0.wf(),
        s1.wf(),
        s2.wf(),
        s1@ == s0@.insert(k, (v, Some(d))),
        s2@ == s1@.insert(k, (v, None::<u64>)),
    ensures
        deadline_of(s2@, k) is None,
        !s2.deadline_table().contains_key(k),
        forall|e: u64| !(#[trigger] s2.expiration_pairs().contains((e, k))),
{
    s2.lemma_lockstep();
    assert forall|e: u64| !(#[trigger] s2.expiration_pairs().contains((e, k))) by {
        assert(s2.expiration_pairs().contains((e, k)) <==> deadline_of(s2@, k) == Some(e));
    }
}

/// After a write of `value` with deadline `d` under `key`, the store holds
/// exactly that under `key`, in the shard the key routes to, and every other
/// key of every shard as before; a second write without a deadline leaves
/// the key with none.
pub proof fn lemma_read_after_write(
    v: Seq<StoreView>,
    count: usize,
    key: Seq<u8>,
    value: Seq<u8>,
    d: Option<u64>,
    other: Seq<u8>,
    s: int,
)
    requires
        count >= 1,
        v.len() == count,
        0 <= s < count,
        other != key,
    ensures
        written(v, count, key, value, d)[shard_of(key, count)].contains_key(key),
        written(v, count, key, value, d)[shard_of(key, count)][key] == (value, d),
        written(v, count, key, value, d)[s].contains_key(other) == v[s].contains_key(other),
        written(v, count, key, value, d)[s].contains_key(other) ==> written(v, count, key, value, d)[s][other]
            == v[s][other],
        deadline_of(
            written(written(v, count, key, value, d), count, key, value, None)[shard_of(key, count)],
            key,
        ) is None,
{
}

} // verus!
