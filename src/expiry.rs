//! The expiration index: a set of (deadline, key) pairs held in ascending
//! order of deadline, then key.
//!
//! It stands where a `BTreeSet` of pairs would: vstd states what `BTreeSet`
//! does only for element types that obey its comparison model, which it
//! does not establish for pairs holding a `Vec<u8>`, and gives no least
//! element.

use vstd::prelude::*;
use crate::byte_order::{
    compare_bytes, lemma_lex_asymmetric, lemma_lex_irreflexive, lemma_lex_total,
    lemma_lex_transitive, lex_lt,
};

verus! {

/// Order of the index: by deadline, ties broken by key.
pub open spec fn deadline_lt(a: (u64, Seq<u8>), b: (u64, Seq<u8>)) -> bool {
    a.0 < b.0 || (a.0 == b.0 && lex_lt(a.1, b.1))
}

pub proof fn lemma_deadline_order(a: (u64, Seq<u8>), b: (u64, Seq<u8>), c: (u64, Seq<u8>))
    ensures
        !deadline_lt(a, a),
        deadline_lt(a, b) && deadline_lt(b, c) ==> deadline_lt(a, c),
        deadline_lt(a, b) || deadline_lt(b, a) || a == b,
        deadline_lt(a, b) ==> !deadline_lt(b, a),
{
    lemma_lex_irreflexive(a.1);
    lemma_lex_total(a.1, b.1);
    if lex_lt(a.1, b.1) {
        lemma_lex_asymmetric(a.1, b.1);
    }
    if lex_lt(a.1, b.1) && lex_lt(b.1, c.1) {
        lemma_lex_transitive(a.1, b.1, c.1);
    }
}

pub struct ExpirationIndex {
    items: Vec<(u64, Vec<u8>)>,
}

impl View for ExpirationIndex {
    type V = Set<(u64, Seq<u8>)>;

    closed spec fn view(&self) -> Set<(u64, Seq<u8>)> {
        self.pairs().to_set()
    }
}

impl ExpirationIndex {
    closed spec fn pairs(&self) -> Seq<(u64, Seq<u8>)> {
        self.items@.map_values(|p: (u64, Vec<u8>)| (p.0, p.1@))
    }

    /// Pairs are held in strictly ascending order.
    pub closed spec fn wf(&self) -> bool {
        forall|i: int, j: int|
            0 <= i < j < self.pairs().len() ==> deadline_lt(
                #[trigger] self.pairs()[i],
                #[trigger] self.pairs()[j],
            )
    }

    /// The number of pairs held.
    pub closed spec fn count(&self) -> nat {
        self.pairs().len()
    }

    /// The least pair held (meaningful when the index is not empty).
    pub closed spec fn least(&self) -> (u64, Seq<u8>) {
        self.pairs()[0]
    }

    proof fn lemma_first_least(&self)
        requires
            self.wf(),
            self.pairs().len() > 0,
        ensures
            forall|p: (u64, Seq<u8>)| #[trigger] self@.contains(p) ==> p == self.pairs()[0] || deadline_lt(self.pairs()[0], p),
    {
        assert forall|p: (u64, Seq<u8>)| #[trigger] self@.contains(p) implies p == self.pairs()[0]
            || deadline_lt(self.pairs()[0], p) by {
            let i = choose|i: int| 0 <= i < self.pairs().len() && self.pairs()[i] == p;
        }
    }

    pub fn new() -> (r: Self)
        ensures
            r.wf(),
            r@ == Set::<(u64, Seq<u8>)>::empty(),
    {
        let r = ExpirationIndex { items: Vec::new() };
        assert(r@ =~= Set::<(u64, Seq<u8>)>::empty());
        r
    }

    /// The least pair, if any.
    pub fn first(&self) -> (r: Option<(u64, &Vec<u8>)>)
        requires
            self.wf(),
        ensures
            r is None <==> self@.is_empty(),
            r matches Some((d, k)) ==> {
                &&& self@.contains((d, k@))
                &&& (d, k@) == self.least()
                &&& forall|p: (u64, Seq<u8>)| #[trigger] self@.contains(p) ==> p == (d, k@) || deadline_lt((d, k@), p)
            },
    {
        if self.items.len() == 0 {
            assert(self.pairs().len() == 0);
            assert(self@ =~= Set::<(u64, Seq<u8>)>::empty());
            None
        } else {
            proof {
                self.lemma_first_least();
                assert(self@.contains(self.pairs()[0]));
            }
            Some((self.items[0].0, &self.items[0].1))
        }
    }

    /// The first position whose pair is not below `(d, k)`.
    fn lower_bound(&self, d: u64, k: &[u8]) -> (r: usize)
        requires
            self.wf(),
        ensures
            r <= self.pairs().len(),
            forall|j: int| 0 <= j < r ==> deadline_lt(#[trigger] self.pairs()[j], (d, k@)),
            forall|j: int| r <= j < self.pairs().len() ==> !deadline_lt(#[trigger] self.pairs()[j], (d, k@)),
    {
        let mut lo: usize = 0;
        let mut hi: usize = self.items.len();
        while lo < hi
            invariant
                self.wf(),
                lo <= hi <= self.pairs().len(),
                forall|j: int| 0 <= j < lo ==> deadline_lt(#[trigger] self.pairs()[j], (d, k@)),
                forall|j: int| hi <= j < self.pairs().len() ==> !deadline_lt(#[trigger] self.pairs()[j], (d, k@)),
            decreases hi - lo,
        {
            let mid = lo + (hi - lo) / 2;
            let below = self.items[mid].0 < d || (self.items[mid].0 == d && matches!(
                compare_bytes(self.items[mid].1.as_slice(), k),
                core::cmp::Ordering::Less
            ));
            let ghost m = self.pairs()[mid as int];
            if below {
                proof {
                    assert forall|j: int| 0 <= j <= mid implies deadline_lt(#[trigger] self.pairs()[j], (d, k@)) by {
                        lemma_deadline_order(self.pairs()[j], m, (d, k@));
                    }
                }
                lo = mid + 1;
            } else {
                proof {
                    assert forall|j: int| mid <= j < self.pairs().len() implies !deadline_lt(
                        #[trigger] self.pairs()[j],
                        (d, k@),
                    ) by {
                        lemma_deadline_order(m, self.pairs()[j], (d, k@));
                        lemma_deadline_order((d, k@), m, self.pairs()[j]);
                        lemma_deadline_order(self.pairs()[j], (d, k@), m);
                    }
                }
                hi = mid;
            }
        }
        lo
    }

    /// Adds a pair that is not yet held.
    pub fn insert(&mut self, d: u64, k: Vec<u8>)
        requires
            old(self).wf(),
            !old(self)@.contains((d, k@)),
        ensures
            final(self).wf(),
            final(self)@ == old(self)@.insert((d, k@)),
    {
        let ghost old_self = *self;
        let ghost x = (d, k@);
        let p = self.lower_bound(d, k.as_slice());
        proof {
            assert forall|j: int| p <= j < old_self.pairs().len() implies deadline_lt(
                x,
                #[trigger] old_self.pairs()[j],
            ) by {
                assert(old_self@.contains(old_self.pairs()[j]));
                lemma_deadline_order(old_self.pairs()[j], x, x);
            }
        }
        self.items.insert(p, (d, k));
        proof {
            assert(self.pairs() =~= old_self.pairs().insert(p as int, x));
            assert forall|i: int, j: int| 0 <= i < j < self.pairs().len() implies deadline_lt(
                #[trigger] self.pairs()[i],
                #[trigger] self.pairs()[j],
            ) by {
                if i < p && j > p {
                    lemma_deadline_order(self.pairs()[i], x, self.pairs()[j]);
                }
            }
            assert forall|q: (u64, Seq<u8>)| #[trigger] self@.contains(q) <==> old_self@.insert(x).contains(q) by {
                if self@.contains(q) {
                    let i = choose|i: int| 0 <= i < self.pairs().len() && self.pairs()[i] == q;
                    if i < p {
                        assert(old_self.pairs()[i] == q);
                    } else if i > p {
                        assert(old_self.pairs()[i - 1] == q);
                    }
                }
                if old_self@.contains(q) {
                    let i = choose|i: int| 0 <= i < old_self.pairs().len() && old_self.pairs()[i] == q;
                    if i < p {
                        assert(self.pairs()[i] == q);
                    } else {
                        assert(self.pairs()[i + 1] == q);
                    }
                }
                if q == x {
                    assert(self.pairs()[p as int] == q);
                }
            }
            assert(self@ =~= old_self@.insert(x));
        }
    }

    proof fn lemma_remove_at(old_self: Self, new_self: Self, p: int)
        requires
            old_self.wf(),
            0 <= p < old_self.pairs().len(),
            new_self.pairs() == old_self.pairs().remove(p),
        ensures
            new_self.wf(),
            new_self@ == old_self@.remove(old_self.pairs()[p]),
    {
        let x = old_self.pairs()[p];
        assert forall|i: int, j: int| 0 <= i < j < new_self.pairs().len() implies deadline_lt(
            #[trigger] new_self.pairs()[i],
            #[trigger] new_self.pairs()[j],
        ) by {
            if i >= p {
                assert(new_self.pairs()[i] == old_self.pairs()[i + 1]);
            }
            if j >= p {
                assert(new_self.pairs()[j] == old_self.pairs()[j + 1]);
            }
        }
        assert forall|q: (u64, Seq<u8>)| #[trigger] new_self@.contains(q) <==> old_self@.remove(x).contains(q) by {
            if new_self@.contains(q) {
                let i = choose|i: int| 0 <= i < new_self.pairs().len() && new_self.pairs()[i] == q;
                if i < p {
                    assert(old_self.pairs()[i] == q);
                    lemma_deadline_order(q, x, x);
                } else {
                    assert(old_self.pairs()[i + 1] == q);
                    lemma_deadline_order(x, q, x);
                }
            }
            if old_self@.remove(x).contains(q) {
                let i = choose|i: int| 0 <= i < old_self.pairs().len() && old_self.pairs()[i] == q;
                if i < p {
                    assert(new_self.pairs()[i] == q);
                } else {
                    assert(new_self.pairs()[i - 1] == q);
                }
            }
        }
        assert(new_self@ =~= old_self@.remove(x));
    }

    /// Drops the least pair.
    pub fn remove_first(&mut self)
        requires
            old(self).wf(),
            !old(self)@.is_empty(),
        ensures
            final(self).wf(),
            final(self)@ == old(self)@.remove(old(self).least()),
            final(self).count() < old(self).count(),
    {
        let ghost old_self = *self;
        proof {
            if self.pairs().len() == 0 {
                assert(self@ =~= Set::<(u64, Seq<u8>)>::empty());
            }
        }
        self.items.remove(0);
        proof {
            assert(self.pairs() =~= old_self.pairs().remove(0));
            Self::lemma_remove_at(old_self, *self, 0);
        }
    }

    /// Drops a pair, if it is held.
    pub fn remove(&mut self, d: u64, k: &[u8])
        requires
            old(self).wf(),
        ensures
            final(self).wf(),
            final(self)@ == old(self)@.remove((d, k@)),
    {
        let ghost old_self = *self;
        let ghost x = (d, k@);
        let p = self.lower_bound(d, k);
        if p < self.items.len() && self.items[p].0 == d && matches!(
            compare_bytes(self.items[p].1.as_slice(), k),
            core::cmp::Ordering::Equal
        ) {
            self.items.remove(p);
            proof {
                assert(self.pairs() =~= old_self.pairs().remove(p as int));
                Self::lemma_remove_at(old_self, *self, p as int);
            }
        } else {
            proof {
                if old_self@.contains(x) {
                    let i = choose|i: int| 0 <= i < old_self.pairs().len() && old_self.pairs()[i] == x;
                    lemma_deadline_order(x, x, x);
                    if i > p {
                        lemma_deadline_order(old_self.pairs()[p as int], x, x);
                        lemma_deadline_order(x, old_self.pairs()[p as int], x);
                    }
                }
                assert(self@ =~= old_self@.remove(x));
            }
        }
    }
}

} // verus!
