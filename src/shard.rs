//! One shard: its state and the signal that wakes its reaper.

use vstd::prelude::*;
use std::sync::Arc;
use tokio::sync::broadcast::Receiver;
use crate::byte_order::{lemma_lex_irreflexive, lemma_lex_transitive, lex_le, lex_lt};
use crate::state::{
    below, between, bound_of, is_below, is_stale, soonest_is, unexpired, Entry, State, StoreView,
};

verus! {

/// `k` lies in a walk from `start`, included, to `end`, excluded.
pub open spec fn in_walk(k: Seq<u8>, start: Seq<u8>, end: Option<Seq<u8>>) -> bool {
    lex_le(start, k) && below(k, end)
}

/// `k` is still ahead of a walk whose last key visited in the shard is
/// `cursor` (`None`: no key visited yet).
pub open spec fn ahead(k: Seq<u8>, cursor: Option<Seq<u8>>, start: Seq<u8>, end: Option<Seq<u8>>) -> bool {
    &&& in_walk(k, start, end)
    &&& match cursor {
        Some(c) => lex_lt(c, k),
        None => true,
    }
}

pub struct Shared {
    state: State,
    background_task: Arc<tokio::sync::Notify>,
}

impl View for Shared {
    type V = StoreView;

    open spec fn view(&self) -> StoreView {
        self.state_spec()@
    }
}

impl Shared {
    /// The shard's state.
    pub closed spec fn state_spec(&self) -> State {
        self.state
    }

    pub open spec fn wf(&self) -> bool {
        self.state_spec().wf()
    }

    /// The keys that have a broadcast channel.
    pub open spec fn channels(&self) -> Set<Seq<u8>> {
        self.state_spec().channels()
    }

    pub open spec fn shut_down_spec(&self) -> bool {
        self.state_spec().shut_down_spec()
    }

    /// An empty shard, not shut down, with no channel.
    pub fn new() -> (r: Shared)
        ensures
            r.wf(),
            r@ == StoreView::empty(),
            r.channels() == Set::<Seq<u8>>::empty(),
            !r.shut_down_spec(),
    {
        Shared { state: State::new(), background_task: Arc::new(tokio::sync::Notify::new()) }
    }

    pub fn state(&self) -> (r: &State)
        ensures
            *r == self.state_spec(),
    {
        &self.state
    }

    /// The signal that wakes this shard's reaper.
    pub fn wake_signal(&self) -> &Arc<tokio::sync::Notify> {
        &self.background_task
    }

    /// `State::set`, then a wake of the reaper when the soonest deadline moved
    /// forward.
    pub fn set(&mut self, key: Vec<u8>, value: Vec<u8>, expires_at: Option<u64>)
        requires
            old(self).wf(),
        ensures
            final(self).wf(),
            final(self)@ == old(self)@.insert(key@, (value@, expires_at)),
            final(self).channels() == old(self).channels(),
            final(self).shut_down_spec() == old(self).shut_down_spec(),
    {
        if self.state.set(key, value, expires_at) {
            self.background_task.notify_one();
        }
    }

    /// `State::set_newest`, then a wake of the reaper when the soonest
    /// deadline moved forward.
    pub fn set_newest(&mut self, key: Vec<u8>, value: Vec<u8>, deadline: u64)
        requires
            old(self).wf(),
        ensures
            final(self).wf(),
            is_stale(old(self)@, key@, deadline) ==> final(self)@ == old(self)@,
            !is_stale(old(self)@, key@, deadline) ==> final(self)@ == old(self)@.insert(
                key@,
                (value@, Some(deadline)),
            ),
            final(self).channels() == old(self).channels(),
            final(self).shut_down_spec() == old(self).shut_down_spec(),
    {
        if self.state.set_newest(key, value, deadline) {
            self.background_task.notify_one();
        }
    }

    /// Removes every entry whose deadline has come by `now` and returns the
    /// soonest deadline left; a shut-down shard is left as it is.
    pub fn purge_expired_keys(&mut self, now: u64) -> (r: Option<u64>)
        requires
            old(self).wf(),
        ensures
            final(self).wf(),
            old(self).shut_down_spec() ==> final(self)@ == old(self)@ && r is None,
            !old(self).shut_down_spec() ==> final(self)@ == unexpired(old(self)@, now) && soonest_is(
                final(self)@,
                r,
            ),
            final(self).channels() == old(self).channels(),
            final(self).shut_down_spec() == old(self).shut_down_spec(),
    {
        self.state.purge_expired_keys(now)
    }

    pub fn is_shutdown(&self) -> (r: bool)
        ensures
            r == self.shut_down_spec(),
    {
        self.state.is_shutdown()
    }

    /// Marks the shard as shut down and wakes its reaper so that it stops.
    pub fn shut_down(&mut self)
        requires
            old(self).wf(),
        ensures
            final(self).wf(),
            final(self)@ == old(self)@,
            final(self).channels() == old(self).channels(),
            final(self).shut_down_spec(),
    {
        self.state.shut_down();
        self.background_task.notify_one();
    }

    pub fn subscribe(&mut self, key: Vec<u8>) -> (r: Receiver<Vec<u8>>)
        requires
            old(self).wf(),
        ensures
            final(self).wf(),
            final(self)@ == old(self)@,
            final(self).channels() == old(self).channels().insert(key@),
            final(self).shut_down_spec() == old(self).shut_down_spec(),
    {
        self.state.subscribe(key)
    }

    pub fn publish(&self, key: &[u8], value: Vec<u8>) -> (r: usize)
        requires
            self.wf(),
        ensures
            !self.channels().contains(key@) ==> r == 0,
    {
        self.state.publish(key, value)
    }

    /// One step of a walk over this shard: the entry with the least key ahead
    /// of `cursor` in the walk from `start` to `end`.
    pub fn walk_step(&self, cursor: &Option<Vec<u8>>, start: &Vec<u8>, end: &Option<Vec<u8>>) -> (r: Option<
        (Vec<u8>, Entry),
    >)
        requires
            self.wf(),
            cursor matches Some(c) ==> lex_le(start@, c@),
        ensures
            r is None <==> !exists|k: Seq<u8>|
                #[trigger] self@.contains_key(k) && ahead(k, bound_of(*cursor), start@, bound_of(*end)),
            r matches Some((k, e)) ==> {
                &&& self@.contains_key(k@)
                &&& ahead(k@, bound_of(*cursor), start@, bound_of(*end))
                &&& e@ == self@[k@]
                &&& forall|j: Seq<u8>| #[trigger]
                    self@.contains_key(j) && ahead(j, bound_of(*cursor), start@, bound_of(*end))
                        ==> lex_le(k@, j)
            },
    {
        let ghost b = bound_of(*end);
        match cursor {
            Some(c) => {
                let r = self.state.entry_after(c.as_slice(), end);
                proof {
                    assert forall|j: Seq<u8>| ahead(j, Some(c@), start@, b) <==> between(j, c@, b) by {
                        if lex_lt(c@, j) && lex_lt(start@, c@) {
                            lemma_lex_transitive(start@, c@, j);
                        }
                    }
                    if r is Some {
                        let k = (r->0).0;
                        assert(self@.contains_key(k@) && ahead(k@, Some(c@), start@, b));
                    }
                }
                r
            },
            None => {
                if is_below(start.as_slice(), end) {
                    match self.state.entry_at(start.as_slice()) {
                        Some(x) => {
                            proof {
                                lemma_lex_irreflexive(start@);
                                assert(self@.contains_key(start@) && ahead(start@, None, start@, b));
                            }
                            return Some(x);
                        },
                        None => {},
                    }
                }
                let r = self.state.entry_after(start.as_slice(), end);
                proof {
                    assert forall|j: Seq<u8>| #[trigger] self@.contains_key(j) implies (ahead(j, None, start@, b)
                        <==> between(j, start@, b)) by {
                        if j == start@ {
                            lemma_lex_irreflexive(j);
                        }
                        if ahead(j, None, start@, b) && j != start@ {
                        }
                        if j == start@ && ahead(j, None, start@, b) {
                            assert(below(start@, b));
                        }
                    }
                    if r is Some {
                        let k = (r->0).0;
                        assert(ahead(k@, None, start@, b));
                        assert(self@.contains_key(k@) && ahead(k@, None, start@, b));
                    }
                }
                r
            },
        }
    }
}

} // verus!
