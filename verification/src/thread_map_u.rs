//! The coarse-lock variant: one object-level reader/writer lock guards the
//! whole map, so there is a single poisoning state for the entire object.

use crate::common::{
    assoc_map, fold_steps, fold_values_steps, folds, folds_values, keys_of, keys_unique,
    lemma_assoc_map_contains, lemma_assoc_map_index, lemma_assoc_map_update, probe_relates, tally,
    touch_tally, ThreadMapLockError,
};
use std::collections::HashMap;
use vstd::prelude::*;

verus! {

broadcast use vstd::std_specs::hash::group_hash_axioms;

/// An association of thread identity tokens (`u64` values handed out by the
/// surrounding runtime, one per live thread) to values of type `V`, with a
/// value created lazily per token by the initializer given at construction.
///
/// This type models the state guarded by a single object-level lock; the
/// caller that owns the lock passes the calling thread's token explicitly.
/// A poisoned lock is part of the state: the whole-map operations report it
/// as a [`ThreadMapLockError`], while the per-thread operations require an
/// unpoisoned map, as they have nothing to return once the lock is gone.
pub struct ThreadMap<V, F> {
    state: Vec<(u64, V)>,
    value_init: F,
    lock_poisoned: bool,
    init_tally: Ghost<Map<u64, int>>,
}

impl<V, F: Fn() -> V> ThreadMap<V, F> {
    /// The tokens that have an association, in creation order.
    pub closed spec fn keys(&self) -> Seq<u64> {
        keys_of(self.state@)
    }

    /// The map from token to its current value.
    pub closed spec fn view(&self) -> Map<u64, V> {
        assoc_map(self.state@)
    }

    /// Whether the object-level lock is poisoned.
    pub closed spec fn poisoned(&self) -> bool {
        self.lock_poisoned
    }

    /// The initializer stored at construction.
    pub closed spec fn initializer(&self) -> F {
        self.value_init
    }

    /// How many times the initializer has run for each token.
    pub closed spec fn init_calls(&self) -> Map<u64, int> {
        self.init_tally@
    }

    /// Internal consistency: tokens are unique and the initializer can run.
    pub closed spec fn wf(&self) -> bool {
        &&& keys_unique(self.state@)
        &&& call_requires(self.value_init, ())
    }

    /// The two views agree: the tokens listed are exactly the map's keys.
    pub proof fn lemma_views_agree(&self)
        requires
            self.wf(),
        ensures
            self.keys().no_duplicates(),
            forall|i: int|
                0 <= i < self.keys().len() ==> (#[trigger] self@.contains_key(self.keys()[i])),
            forall|t: u64| self@.contains_key(t) ==> self.keys().contains(t),
            self@.dom().finite(),
            self@.dom().len() == self.keys().len(),
    {
        assert forall|i: int| 0 <= i < self.keys().len() implies #[trigger] self@.contains_key(
            self.keys()[i],
        ) by {
            lemma_assoc_map_index(self.state@, i);
        }
        assert forall|t: u64| self@.contains_key(t) implies self.keys().contains(t) by {
            lemma_assoc_map_contains(self.state@, t);
            let i = choose|i: int| 0 <= i < self.state@.len() && self.state@[i].0 == t;
            assert(self.keys()[i] == t);
        }
        crate::common::lemma_assoc_map_len(self.state@);
    }

    /// Creates an empty map that will build each token's first value with
    /// `value_init`.
    pub fn new(value_init: F) -> (r: Self)
        requires
            call_requires(value_init, ()),
        ensures
            r.wf(),
            r.keys() == Seq::<u64>::empty(),
            r@ == Map::<u64, V>::empty(),
            !r.poisoned(),
            r.initializer() == value_init,
            r.init_calls() == Map::<u64, int>::empty(),
    {
        let r = ThreadMap {
            state: Vec::new(),
            value_init,
            lock_poisoned: false,
            init_tally: Ghost(Map::empty()),
        };
        proof {
            assert(r.keys() =~= Seq::<u64>::empty());
        }
        r
    }

    /// Where `tid`'s association sits in the internal sequence, if anywhere.
    fn position_of(&self, tid: u64) -> (r: Option<usize>)
        ensures
            match r {
                Some(i) => i < self.state@.len() && self.state@[i as int].0 == tid,
                None => forall|i: int| 0 <= i < self.state@.len() ==> self.state@[i].0 != tid,
            },
    {
        let n = self.state.len();
        let mut i: usize = 0;
        while i < n
            invariant
                n == self.state@.len(),
                i <= n,
                forall|j: int| 0 <= j < i ==> self.state@[j].0 != tid,
            decreases n - i,
        {
            if self.state[i].0 == tid {
                return Some(i);
            }
            i += 1;
        }
        None
    }

    /// Applies `f` to the calling thread's value, replacing the value with
    /// the one `f` hands back and returning `f`'s other result. If `tid` has
    /// no association yet, its value is first created by the initializer, so
    /// that `f` always runs on the thread's current value.
    pub fn with_mut<W, G: FnOnce(V) -> (V, W)>(&mut self, tid: u64, f: G) -> (r: W)
        requires
            old(self).wf(),
            !old(self).poisoned(),
            old(self)@.contains_key(tid) ==> call_requires(f, (old(self)@[tid],)),
            !old(self)@.contains_key(tid) ==> forall|v0: V|
                call_ensures(old(self).initializer(), (), v0) ==> call_requires(f, (v0,)),
        ensures
            final(self).wf(),
            !final(self).poisoned(),
            final(self).initializer() == old(self).initializer(),
            final(self)@.contains_key(tid),
            final(self)@ == old(self)@.insert(tid, final(self)@[tid]),
            touch_tally(old(self)@, old(self).init_calls(), final(self)@, final(self).init_calls(), tid),
            old(self)@.contains_key(tid) ==> {
                &&& final(self).keys() == old(self).keys()
                &&& call_ensures(f, (old(self)@[tid],), (final(self)@[tid], r))
            },
            !old(self)@.contains_key(tid) ==> {
                &&& final(self).keys() == old(self).keys().push(tid)
                &&& exists|v0: V|
                    call_ensures(old(self).initializer(), (), v0) && call_ensures(
                        f,
                        (v0,),
                        (final(self)@[tid], r),
                    )
            },
    {
        match self.position_of(tid) {
            Some(i) => {
                proof {
                    lemma_assoc_map_index(self.state@, i as int);
                }
                let (k, v) = self.state.remove(i);
                let (nv, w) = f(v);
                self.state.insert(i, (k, nv));
                proof {
                    assert(self.state@ =~= old(self).state@.update(i as int, (tid, nv)));
                    assert(self.keys() =~= old(self).keys());
                    lemma_assoc_map_update(old(self).state@, i as int, nv);
                    assert(self@ == old(self)@.insert(tid, nv));
                    lemma_assoc_map_index(self.state@, i as int);
                }
                w
            },
            None => {
                proof {
                    lemma_assoc_map_contains(self.state@, tid);
                }
                let v0 = (self.value_init)();
                proof {
                    assert(!old(self)@.contains_key(tid));
                    assert(call_ensures(old(self).initializer(), (), v0));
                }
                let (nv, w) = f(v0);
                self.state.push((tid, nv));
                self.init_tally = Ghost(
                    self.init_tally@.insert(tid, tally(self.init_tally@, tid) + 1),
                );
                proof {
                    assert(self.state@.drop_last() =~= old(self).state@);
                    assert(self.keys() =~= old(self).keys().push(tid));
                    assert(self@ == old(self)@.insert(tid, nv));
                    lemma_assoc_map_index(self.state@, self.state@.len() - 1);
                }
                w
            },
        }
    }

    /// Applies the read-only `f` to the calling thread's value and returns
    /// its result, creating the value by the initializer first if `tid` has
    /// no association yet.
    pub fn with<W, G: FnOnce(&V) -> W>(&mut self, tid: u64, f: G) -> (r: W)
        requires
            old(self).wf(),
            !old(self).poisoned(),
            old(self)@.contains_key(tid) ==> call_requires(f, (&old(self)@[tid],)),
            !old(self)@.contains_key(tid) ==> forall|v0: V|
                call_ensures(old(self).initializer(), (), v0) ==> call_requires(f, (&v0,)),
        ensures
            final(self).wf(),
            !final(self).poisoned(),
            final(self).initializer() == old(self).initializer(),
            final(self)@.contains_key(tid),
            final(self)@ == old(self)@.insert(tid, final(self)@[tid]),
            touch_tally(old(self)@, old(self).init_calls(), final(self)@, final(self).init_calls(), tid),
            call_ensures(f, (&final(self)@[tid],), r),
            old(self)@.contains_key(tid) ==> {
                &&& final(self).keys() == old(self).keys()
                &&& final(self)@ == old(self)@
            },
            !old(self)@.contains_key(tid) ==> {
                &&& final(self).keys() == old(self).keys().push(tid)
                &&& call_ensures(old(self).initializer(), (), final(self)@[tid])
            },
    {
        match self.position_of(tid) {
            Some(i) => {
                proof {
                    lemma_assoc_map_index(self.state@, i as int);
                }
                let w = f(&self.state[i].1);
                proof {
                    assert(self@ =~= old(self)@.insert(tid, self@[tid]));
                }
                w
            },
            None => {
                proof {
                    lemma_assoc_map_contains(self.state@, tid);
                    assert(!old(self)@.contains_key(tid));
                }
                let v0 = (self.value_init)();
                proof {
                    assert(call_ensures(old(self).initializer(), (), v0));
                }
                let w = f(&v0);
                self.state.push((tid, v0));
                self.init_tally = Ghost(
                    self.init_tally@.insert(tid, tally(self.init_tally@, tid) + 1),
                );
                proof {
                    assert(self.state@.drop_last() =~= old(self).state@);
                    assert(self.keys() =~= old(self).keys().push(tid));
                    lemma_assoc_map_index(self.state@, self.state@.len() - 1);
                }
                w
            },
        }
    }

    /// Returns a clone of the calling thread's value, creating the value by
    /// the initializer first if `tid` has no association yet.
    pub fn get(&mut self, tid: u64) -> (r: V) where V: Clone
        requires
            old(self).wf(),
            !old(self).poisoned(),
        ensures
            final(self).wf(),
            !final(self).poisoned(),
            final(self).initializer() == old(self).initializer(),
            final(self)@.contains_key(tid),
            final(self)@ == old(self)@.insert(tid, final(self)@[tid]),
            touch_tally(old(self)@, old(self).init_calls(), final(self)@, final(self).init_calls(), tid),
            cloned::<V>(final(self)@[tid], r),
            old(self)@.contains_key(tid) ==> {
                &&& final(self).keys() == old(self).keys()
                &&& final(self)@ == old(self)@
            },
            !old(self)@.contains_key(tid) ==> {
                &&& final(self).keys() == old(self).keys().push(tid)
                &&& call_ensures(old(self).initializer(), (), final(self)@[tid])
            },
    {
        let g = |p: &V| -> (res: V)
            ensures
                cloned::<V>(*p, res),
            { p.clone() };
        self.with(tid, g)
    }

    /// Sets the calling thread's value to `v`. If `tid` has no association
    /// yet the initializer still runs once to create it, and `v` then
    /// replaces the freshly built value.
    pub fn set(&mut self, tid: u64, v: V)
        requires
            old(self).wf(),
            !old(self).poisoned(),
        ensures
            final(self).wf(),
            !final(self).poisoned(),
            final(self).initializer() == old(self).initializer(),
            final(self)@ == old(self)@.insert(tid, v),
            touch_tally(old(self)@, old(self).init_calls(), final(self)@, final(self).init_calls(), tid),
            old(self)@.contains_key(tid) ==> final(self).keys() == old(self).keys(),
            !old(self)@.contains_key(tid) ==> final(self).keys() == old(self).keys().push(tid),
    {
        let g = move |_prev: V| -> (res: (V, ()))
            ensures
                res.0 == v,
            { (v, ()) };
        self.with_mut(tid, g);
    }

    /// Folds every association into an accumulator seeded with `z`, applying
    /// `f` left to right in creation order and visiting every association
    /// exactly once.
    pub fn fold<W, G: Fn(W, (u64, &V)) -> W>(&self, z: W, f: G) -> (r: Result<
        W,
        ThreadMapLockError,
    >)
        requires
            self.wf(),
            forall|w: W, i: int|
                0 <= i < self.keys().len() ==> call_requires(
                    f,
                    (w, (self.keys()[i], &self@[self.keys()[i]])),
                ),
        ensures
            self.poisoned() <==> r is Err,
            r matches Err(e) ==> e == ThreadMapLockError,
            r matches Ok(w) ==> folds(f, z, self.keys(), self@, w),
    {
        if self.lock_poisoned {
            return Err(ThreadMapLockError);
        }
        let n = self.state.len();
        let mut w = z;
        let ghost mut ws: Seq<W> = seq![z];
        let mut i: usize = 0;
        while i < n
            invariant
                self.wf(),
                !self.poisoned(),
                n == self.state@.len(),
                forall|acc: W, j: int|
                    0 <= j < self.keys().len() ==> call_requires(
                        f,
                        (acc, (self.keys()[j], &self@[self.keys()[j]])),
                    ),
                i <= n,
                ws.len() == i + 1,
                ws[0] == z,
                w == ws[i as int],
                forall|j: int|
                    0 <= j < i ==> call_ensures(
                        f,
                        (ws[j], (self.keys()[j], &self@[self.keys()[j]])),
                        ws[j + 1],
                    ),
            decreases n - i,
        {
            proof {
                lemma_assoc_map_index(self.state@, i as int);
                assert(self.keys()[i as int] == self.state@[i as int].0);
            }
            let p = &self.state[i];
            w = f(w, (p.0, &p.1));
            proof {
                ws = ws.push(w);
            }
            i += 1;
        }
        proof {
            assert(fold_steps(f, z, self.keys(), self@, ws, w));
        }
        Ok(w)
    }

    /// Folds every value into an accumulator seeded with `z`, as [`Self::fold`]
    /// but with the tokens left out.
    pub fn fold_values<W, G: Fn(W, &V) -> W>(&self, z: W, f: G) -> (r: Result<
        W,
        ThreadMapLockError,
    >)
        requires
            self.wf(),
            forall|w: W, i: int|
                0 <= i < self.keys().len() ==> call_requires(f, (w, &self@[self.keys()[i]])),
        ensures
            self.poisoned() <==> r is Err,
            r matches Err(e) ==> e == ThreadMapLockError,
            r matches Ok(w) ==> folds_values(f, z, self.keys(), self@, w),
    {
        if self.lock_poisoned {
            return Err(ThreadMapLockError);
        }
        let n = self.state.len();
        let mut w = z;
        let ghost mut ws: Seq<W> = seq![z];
        let mut i: usize = 0;
        while i < n
            invariant
                self.wf(),
                !self.poisoned(),
                n == self.state@.len(),
                forall|acc: W, j: int|
                    0 <= j < self.keys().len() ==> call_requires(
                        f,
                        (acc, &self@[self.keys()[j]]),
                    ),
                i <= n,
                ws.len() == i + 1,
                ws[0] == z,
                w == ws[i as int],
                forall|j: int|
                    0 <= j < i ==> call_ensures(f, (ws[j], &self@[self.keys()[j]]), ws[j + 1]),
            decreases n - i,
        {
            proof {
                lemma_assoc_map_index(self.state@, i as int);
                assert(self.keys()[i as int] == self.state@[i as int].0);
            }
            let p = &self.state[i];
            w = f(w, &p.1);
            proof {
                ws = ws.push(w);
            }
            i += 1;
        }
        proof {
            assert(fold_values_steps(f, z, self.keys(), self@, ws, w));
        }
        Ok(w)
    }

    /// Returns a fresh keyed map holding a clone of every association's value
    /// at the moment of the call, leaving the map itself untouched.
    pub fn probe(&self) -> (r: Result<HashMap<u64, V>, ThreadMapLockError>) where V: Clone
        requires
            self.wf(),
        ensures
            self.poisoned() <==> r is Err,
            r matches Err(e) ==> e == ThreadMapLockError,
            r matches Ok(m) ==> probe_relates(self@, m@),
    {
        if self.lock_poisoned {
            return Err(ThreadMapLockError);
        }
        let n = self.state.len();
        let mut m: HashMap<u64, V> = HashMap::new();
        let mut i: usize = 0;
        while i < n
            invariant
                self.wf(),
                n == self.state@.len(),
                i <= n,
                forall|j: int|
                    0 <= j < i ==> m@.contains_key(#[trigger] self.state@[j].0) && cloned::<V>(
                        self.state@[j].1,
                        m@[self.state@[j].0],
                    ),
                forall|t: u64| #[trigger]
                    m@.contains_key(t) ==> exists|j: int| 0 <= j < i && self.state@[j].0 == t,
            decreases n - i,
        {
            let p = &self.state[i];
            let c = p.1.clone();
            m.insert(p.0, c);
            i += 1;
        }
        proof {
            assert forall|t: u64| self@.contains_key(t) implies m@.contains_key(t) by {
                lemma_assoc_map_contains(self.state@, t);
            }
            assert forall|t: u64| m@.contains_key(t) implies self@.contains_key(t) by {
                lemma_assoc_map_contains(self.state@, t);
            }
            assert(m@.dom() =~= self@.dom());
            assert forall|t: u64| m@.contains_key(t) implies cloned::<V>(self@[t], m@[t]) by {
                let j = choose|j: int| 0 <= j < n && self.state@[j].0 == t;
                lemma_assoc_map_index(self.state@, j);
            }
        }
        Ok(m)
    }

    /// Empties the map and hands every association back in a fresh keyed
    /// map; afterwards the map behaves as freshly constructed, and the next
    /// per-thread access of any token runs the initializer again.
    pub fn drain(&mut self) -> (r: Result<HashMap<u64, V>, ThreadMapLockError>)
        requires
            old(self).wf(),
        ensures
            final(self).wf(),
            final(self).poisoned() == old(self).poisoned(),
            final(self).initializer() == old(self).initializer(),
            final(self).init_calls() == old(self).init_calls(),
            old(self).poisoned() <==> r is Err,
            r matches Err(e) ==> e == ThreadMapLockError,
            old(self).poisoned() ==> final(self)@ == old(self)@ && final(self).keys() == old(
                self,
            ).keys(),
            !old(self).poisoned() ==> {
                &&& final(self).keys() == Seq::<u64>::empty()
                &&& final(self)@ == Map::<u64, V>::empty()
                &&& (r matches Ok(m) && m@ == old(self)@)
            },
    {
        if self.lock_poisoned {
            return Err(ThreadMapLockError);
        }
        let mut m: HashMap<u64, V> = HashMap::new();
        while self.state.len() != 0
            invariant
                keys_unique(self.state@),
                self.value_init == old(self).value_init,
                self.lock_poisoned == old(self).lock_poisoned,
                !self.lock_poisoned,
                self.init_tally == old(self).init_tally,
                forall|t: u64| #[trigger]
                    old(self)@.contains_key(t) <==> m@.contains_key(t) || assoc_map(
                        self.state@,
                    ).contains_key(t),
                forall|t: u64| #[trigger] m@.contains_key(t) ==> !assoc_map(
                    self.state@,
                ).contains_key(t),
                forall|t: u64| #[trigger] m@.contains_key(t) ==> m@[t] == old(self)@[t],
                forall|t: u64| #[trigger]
                    assoc_map(self.state@).contains_key(t) ==> assoc_map(self.state@)[t] == old(
                        self,
                    )@[t],
            decreases self.state@.len(),
        {
            let ghost s = self.state@;
            proof {
                lemma_assoc_map_index(s, s.len() - 1);
                lemma_assoc_map_contains(s.drop_last(), s.last().0);
                assert(!assoc_map(s.drop_last()).contains_key(s.last().0));
                assert(assoc_map(s.drop_last()) =~= assoc_map(s).remove(s.last().0));
            }
            let p = self.state.pop().unwrap();
            m.insert(p.0, p.1);
        }
        proof {
            assert(self.keys() =~= Seq::<u64>::empty());
            assert(self@ =~= Map::<u64, V>::empty());
            assert(m@ =~= old(self)@);
        }
        Ok(m)
    }

    /// Marks the object-level lock poisoned, as a panic in a previous holder
    /// of the lock would; the surrounding runtime drives this transition.
    pub fn poison(&mut self)
        ensures
            final(self).wf() == old(self).wf(),
            final(self).poisoned(),
            final(self)@ == old(self)@,
            final(self).keys() == old(self).keys(),
            final(self).initializer() == old(self).initializer(),
            final(self).init_calls() == old(self).init_calls(),
    {
        self.lock_poisoned = true;
    }
}

} // verus!
