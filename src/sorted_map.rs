//! A map from byte-string keys to values, held as a vector of pairs sorted
//! strictly by key.
//!
//! It stands where a `BTreeMap` keyed by bytes would: vstd states what
//! `BTreeMap` does only for key types that obey its comparison model, which
//! it does not establish for `Vec<u8>`, and states nothing of `range`, which
//! the prefix walks need.

use vstd::prelude::*;
use crate::byte_order::{
    compare_bytes, lemma_lex_asymmetric, lemma_lex_irreflexive, lemma_lex_total,
    lemma_lex_transitive, lex_lt,
};

verus! {

pub struct SortedMap<V> {
    items: Vec<(Vec<u8>, V)>,
}

impl<V> View for SortedMap<V> {
    type V = Map<Seq<u8>, V>;

    closed spec fn view(&self) -> Map<Seq<u8>, V> {
        Map::new(|k: Seq<u8>| self.keys().contains(k), |k: Seq<u8>| self.items@[self.index_of(k)].1)
    }
}

impl<V> SortedMap<V> {
    /// The keys, in the order in which they are held.
    pub closed spec fn keys(&self) -> Seq<Seq<u8>> {
        self.items@.map_values(|p: (Vec<u8>, V)| p.0@)
    }

    /// The value held at position `i`.
    pub closed spec fn value_at_spec(&self, i: int) -> V {
        self.items@[i].1
    }

    closed spec fn index_of(&self, k: Seq<u8>) -> int {
        choose|i: int| 0 <= i < self.keys().len() && self.keys()[i] == k
    }

    /// Keys are held in strictly ascending byte order.
    pub closed spec fn wf(&self) -> bool {
        forall|i: int, j: int|
            0 <= i < j < self.keys().len() ==> lex_lt(#[trigger] self.keys()[i], #[trigger] self.keys()[j])
    }

    /// What well-formedness gives a caller: sorted keys, and a map that agrees
    /// with the positions.
    pub proof fn lemma_wf(&self)
        requires
            self.wf(),
        ensures
            forall|i: int, j: int|
                0 <= i < j < self.keys().len() ==> lex_lt(#[trigger] self.keys()[i], #[trigger] self.keys()[j]),
            forall|k: Seq<u8>| #[trigger] self@.contains_key(k) <==> self.keys().contains(k),
            forall|i: int|
                0 <= i < self.keys().len() ==> #[trigger] self@[self.keys()[i]] == self.value_at_spec(i),
            self@.dom().finite(),
            self@.dom().len() == self.keys().len(),
    {
        assert forall|i: int| 0 <= i < self.keys().len() implies #[trigger] self@[self.keys()[i]]
            == self.value_at_spec(i) by {
            self.lemma_index(i);
        }
        self.lemma_dom_len();
    }

    proof fn lemma_index(&self, i: int)
        requires
            self.wf(),
            0 <= i < self.keys().len(),
        ensures
            self.index_of(self.keys()[i]) == i,
            self@.contains_key(self.keys()[i]),
            self@[self.keys()[i]] == self.items@[i].1,
    {
        let k = self.keys()[i];
        assert(self.keys().contains(k));
        let j = self.index_of(k);
        if j != i {
            lemma_lex_irreflexive(k);
            if j < i {
                assert(lex_lt(self.keys()[j], self.keys()[i]));
            } else {
                assert(lex_lt(self.keys()[i], self.keys()[j]));
            }
        }
    }

    proof fn lemma_dom_len(&self)
        requires
            self.wf(),
        ensures
            self@.dom().finite(),
            self@.dom().len() == self.keys().len(),
        decreases self.keys().len(),
    {
        let ks = self.keys();
        assert forall|i: int, j: int| 0 <= i < j < ks.len() implies ks[i] != ks[j] by {
            lemma_lex_irreflexive(ks[i]);
        }
        assert(ks.no_duplicates());
        ks.unique_seq_to_set();
        assert(self@.dom() =~= ks.to_set());
    }

    pub fn new() -> (r: Self)
        ensures
            r.wf(),
            r@ == Map::<Seq<u8>, V>::empty(),
            r.keys() == Seq::<Seq<u8>>::empty(),
    {
        let r = SortedMap { items: Vec::new() };
        assert(r.keys() =~= Seq::<Seq<u8>>::empty());
        assert(r@ =~= Map::<Seq<u8>, V>::empty());
        r
    }

    pub fn len(&self) -> (r: usize)
        ensures
            r == self.keys().len(),
    {
        self.items.len()
    }

    pub fn key_at(&self, i: usize) -> (r: &Vec<u8>)
        requires
            i < self.keys().len(),
        ensures
            r@ == self.keys()[i as int],
    {
        &self.items[i].0
    }

    pub fn value_at(&self, i: usize) -> (r: &V)
        requires
            i < self.keys().len(),
        ensures
            *r == self.value_at_spec(i as int),
    {
        &self.items[i].1
    }

    /// The first position whose key is not below `k`.
    pub fn lower_bound(&self, k: &[u8]) -> (r: usize)
        requires
            self.wf(),
        ensures
            r <= self.keys().len(),
            forall|j: int| 0 <= j < r ==> lex_lt(#[trigger] self.keys()[j], k@),
            forall|j: int| r <= j < self.keys().len() ==> !lex_lt(#[trigger] self.keys()[j], k@),
    {
        let mut lo: usize = 0;
        let mut hi: usize = self.items.len();
        while lo < hi
            invariant
                self.wf(),
                lo <= hi <= self.keys().len(),
                forall|j: int| 0 <= j < lo ==> lex_lt(#[trigger] self.keys()[j], k@),
                forall|j: int| hi <= j < self.keys().len() ==> !lex_lt(#[trigger] self.keys()[j], k@),
            decreases hi - lo,
        {
            let mid = lo + (hi - lo) / 2;
            if matches!(compare_bytes(self.items[mid].0.as_slice(), k), core::cmp::Ordering::Less) {
                proof {
                    assert forall|j: int| 0 <= j <= mid implies lex_lt(#[trigger] self.keys()[j], k@) by {
                        if j < mid {
                            lemma_lex_transitive(self.keys()[j], self.keys()[mid as int], k@);
                        }
                    }
                }
                lo = mid + 1;
            } else {
                proof {
                    assert forall|j: int| mid <= j < self.keys().len() implies !lex_lt(
                        #[trigger] self.keys()[j],
                        k@,
                    ) by {
                        if j > mid && lex_lt(self.keys()[j], k@) {
                            lemma_lex_total(self.keys()[mid as int], k@);
                            if self.keys()[mid as int] == k@ {
                                lemma_lex_asymmetric(self.keys()[mid as int], self.keys()[j]);
                            } else {
                                lemma_lex_transitive(k@, self.keys()[mid as int], self.keys()[j]);
                                lemma_lex_asymmetric(k@, self.keys()[j]);
                            }
                        }
                    }
                }
                hi = mid;
            }
        }
        lo
    }

    /// The first position whose key is above `k`.
    pub fn upper_bound(&self, k: &[u8]) -> (r: usize)
        requires
            self.wf(),
        ensures
            r <= self.keys().len(),
            forall|j: int| 0 <= j < r ==> !lex_lt(k@, #[trigger] self.keys()[j]),
            forall|j: int| r <= j < self.keys().len() ==> lex_lt(k@, #[trigger] self.keys()[j]),
    {
        let mut lo: usize = 0;
        let mut hi: usize = self.items.len();
        while lo < hi
            invariant
                self.wf(),
                lo <= hi <= self.keys().len(),
                forall|j: int| 0 <= j < lo ==> !lex_lt(k@, #[trigger] self.keys()[j]),
                forall|j: int| hi <= j < self.keys().len() ==> lex_lt(k@, #[trigger] self.keys()[j]),
            decreases hi - lo,
        {
            let mid = lo + (hi - lo) / 2;
            if matches!(compare_bytes(k, self.items[mid].0.as_slice()), core::cmp::Ordering::Less) {
                proof {
                    assert forall|j: int| mid <= j < self.keys().len() implies lex_lt(
                        k@,
                        #[trigger] self.keys()[j],
                    ) by {
                        if j > mid {
                            lemma_lex_transitive(k@, self.keys()[mid as int], self.keys()[j]);
                        }
                    }
                }
                hi = mid;
            } else {
                proof {
                    assert forall|j: int| 0 <= j <= mid implies !lex_lt(k@, #[trigger] self.keys()[j]) by {
                        if j < mid && lex_lt(k@, self.keys()[j]) {
                            lemma_lex_transitive(k@, self.keys()[j], self.keys()[mid as int]);
                        }
                    }
                }
                lo = mid + 1;
            }
        }
        lo
    }

    /// The position of `k`, if it is held.
    pub fn find(&self, k: &[u8]) -> (r: Option<usize>)
        requires
            self.wf(),
        ensures
            r is Some <==> self@.contains_key(k@),
            r matches Some(i) ==> i < self.keys().len() && self.keys()[i as int] == k@,
    {
        proof {
            self.lemma_wf();
        }
        let p = self.lower_bound(k);
        if p < self.items.len() && matches!(compare_bytes(self.items[p].0.as_slice(), k), core::cmp::Ordering::Equal) {
            assert(self.keys()[p as int] == k@);
            assert(self.keys().contains(k@));
            Some(p)
        } else {
            proof {
                if self.keys().contains(k@) {
                    let j = choose|j: int| 0 <= j < self.keys().len() && self.keys()[j] == k@;
                    lemma_lex_irreflexive(k@);
                    if j > p {
                        lemma_lex_total(self.keys()[p as int], k@);
                        assert(lex_lt(self.keys()[p as int], self.keys()[j]));
                        if lex_lt(k@, self.keys()[p as int]) {
                            lemma_lex_transitive(k@, self.keys()[p as int], self.keys()[j]);
                        }
                    }
                }
            }
            None
        }
    }

    pub fn get(&self, k: &[u8]) -> (r: Option<&V>)
        requires
            self.wf(),
        ensures
            r is Some <==> self@.contains_key(k@),
            r matches Some(v) ==> *v == self@[k@],
    {
        proof {
            self.lemma_wf();
        }
        match self.find(k) {
            Some(i) => Some(&self.items[i].1),
            None => None,
        }
    }

    pub fn insert(&mut self, k: Vec<u8>, v: V) -> (r: Option<V>)
        requires
            old(self).wf(),
        ensures
            final(self).wf(),
            final(self)@ == old(self)@.insert(k@, v),
            r is Some <==> old(self)@.contains_key(k@),
            r matches Some(w) ==> w == old(self)@[k@],
    {
        proof {
            self.lemma_wf();
        }
        let ghost old_self = *self;
        let p = self.lower_bound(k.as_slice());
        if p < self.items.len() && matches!(compare_bytes(self.items[p].0.as_slice(), k.as_slice()), core::cmp::Ordering::Equal) {
            proof {
                old_self.lemma_index(p as int);
            }
            let (_, prev) = self.items.remove(p);
            let ghost kv = k@;
            self.items.insert(p, (k, v));
            proof {
                assert(self.keys() =~= old_self.keys());
                assert(self.items@ =~= old_self.items@.update(p as int, (self.items@[p as int].0, v)));
                assert forall|i: int| 0 <= i < self.keys().len() && i != p implies #[trigger] self.items@[i]
                    == old_self.items@[i] by {}
                assert(self.wf());
                assert forall|q: Seq<u8>| #[trigger] self@.contains_key(q) implies self@[q] == old_self@.insert(
                    kv,
                    v,
                )[q] by {
                    let i = self.index_of(q);
                    self.lemma_index(i);
                    old_self.lemma_index(i);
                }
                assert(self@ =~= old_self@.insert(kv, v));
            }
            Some(prev)
        } else {
            proof {
                assert forall|j: int| p <= j < old_self.keys().len() implies lex_lt(
                    k@,
                    #[trigger] old_self.keys()[j],
                ) by {
                    lemma_lex_total(old_self.keys()[p as int], k@);
                    if j > p {
                        if old_self.keys()[p as int] != k@ {
                            lemma_lex_transitive(k@, old_self.keys()[p as int], old_self.keys()[j]);
                        }
                    }
                }
                if old_self.keys().contains(k@) {
                    let j = choose|j: int| 0 <= j < old_self.keys().len() && old_self.keys()[j] == k@;
                    lemma_lex_irreflexive(k@);
                }
            }
            let ghost kv = k@;
            self.items.insert(p, (k, v));
            proof {
                assert(self.keys() =~= old_self.keys().insert(p as int, kv));
                assert(self.wf()) by {
                    assert forall|i: int, j: int| 0 <= i < j < self.keys().len() implies lex_lt(
                        #[trigger] self.keys()[i],
                        #[trigger] self.keys()[j],
                    ) by {
                        if j < p {
                        } else if j == p {
                        } else if i < p {
                            lemma_lex_transitive(self.keys()[i], kv, self.keys()[j]);
                        } else if i == p {
                        } else {
                        }
                    }
                }
                self.lemma_index(p as int);
                assert forall|q: Seq<u8>| #[trigger] self@.contains_key(q) implies self@[q] == old_self@.insert(
                    kv,
                    v,
                )[q] by {
                    let i = self.index_of(q);
                    self.lemma_index(i);
                    if i < p {
                        old_self.lemma_index(i);
                    } else if i > p {
                        old_self.lemma_index(i - 1);
                    }
                }
                assert forall|q: Seq<u8>| #[trigger] old_self@.insert(kv, v).contains_key(q) implies self@.contains_key(q) by {
                    if q != kv {
                        let i = old_self.index_of(q);
                        if i < p {
                            assert(self.keys()[i] == q);
                        } else {
                            assert(self.keys()[i + 1] == q);
                        }
                    }
                }
                assert(self@ =~= old_self@.insert(kv, v));
            }
            None
        }
    }

    pub fn remove(&mut self, k: &[u8]) -> (r: Option<V>)
        requires
            old(self).wf(),
        ensures
            final(self).wf(),
            final(self)@ == old(self)@.remove(k@),
            r is Some <==> old(self)@.contains_key(k@),
            r matches Some(w) ==> w == old(self)@[k@],
    {
        proof {
            self.lemma_wf();
        }
        let ghost old_self = *self;
        match self.find(k) {
            Some(p) => {
                proof {
                    old_self.lemma_index(p as int);
                }
                let (_, prev) = self.items.remove(p);
                proof {
                    assert(self.keys() =~= old_self.keys().remove(p as int));
                    assert(self.wf()) by {
                        assert forall|i: int, j: int| 0 <= i < j < self.keys().len() implies lex_lt(
                            #[trigger] self.keys()[i],
                            #[trigger] self.keys()[j],
                        ) by {
                            if i >= p {
                                assert(self.keys()[i] == old_self.keys()[i + 1]);
                            }
                            if j >= p {
                                assert(self.keys()[j] == old_self.keys()[j + 1]);
                            }
                        }
                    }
                    assert forall|q: Seq<u8>| #[trigger] self@.contains_key(q) implies self@[q]
                        == old_self@.remove(k@)[q] && old_self@.remove(k@).contains_key(q) by {
                        let i = self.index_of(q);
                        self.lemma_index(i);
                        if i < p {
                            old_self.lemma_index(i);
                        } else {
                            old_self.lemma_index(i + 1);
                            lemma_lex_irreflexive(k@);
                        }
                    }
                    assert forall|q: Seq<u8>| #[trigger] old_self@.remove(k@).contains_key(q) implies self@.contains_key(q) by {
                        let i = old_self.index_of(q);
                        if i < p {
                            assert(self.keys()[i] == q);
                        } else {
                            assert(self.keys()[i - 1] == q);
                        }
                    }
                    assert(self@ =~= old_self@.remove(k@));
                }
                Some(prev)
            },
            None => {
                proof {
                    assert(self@ =~= old_self@.remove(k@));
                }
                None
            },
        }
    }
}

} // verus!
