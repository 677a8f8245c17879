//! The fine-lock variant: a shared lock guards the map's shape while every
//! association carries its own lock, so poisoning is tracked per association
//! as well as for the object-level lock.

use crate::common::{
    assoc_map, fold_steps, fold_values_steps, folds, folds_values, keys_of, keys_unique,
    lemma_assoc_map_contains, lemma_assoc_map_index, lemma_assoc_map_update, probe_relates, tally,
    touch_tally, ThreadMapLockError,
};
use std::collections::HashMap;
use vstd::prelude::*;

verus! {

broadcast use vstd::std_specs::hash::group_hash_axioms;

/// One association: a token, its value, and the poisoning state of the lock
/// that guards that value alone.
struct Slot<V> {
    key: u64,
    value: V,
    poisoned: bool,
}

/// Whether some slot carries `tid` with its own lock poisoned.
spec fn slot_has_poison<V>(s: Seq<Slot<V>>, tid: u64) -> bool {
    exists|i: int| 0 <= i < s.len() && s[i].key == tid && s[i].poisoned
}

/// Appending an unpoisoned slot changes no token's poisoning state.
proof fn lemma_flags_after_push<V>(a: Seq<Slot<V>>, b: Seq<Slot<V>>)
    requires
        b.len() == a.len() + 1,
        b.drop_last() == a,
        !b.last().poisoned,
    ensures
        forall|t: u64| slot_has_poison(b, t) == slot_has_poison(a, t),
{
    assert forall|t: u64| slot_has_poison(b, t) == slot_has_poison(a, t) by {
        if slot_has_poison(a, t) {
            let i = choose|i: int| 0 <= i < a.len() && a[i].key == t && a[i].poisoned;
            assert(b[i] == a[i]);
        }
        if slot_has_poison(b, t) {
            let i = choose|i: int| 0 <= i < b.len() && b[i].key == t && b[i].poisoned;
            assert(i < a.len() && a[i] == b[i]);
        }
    }
}

/// Replacing one slot's value, with its token and poisoning state kept,
/// changes no token's poisoning state.
proof fn lemma_flags_after_update<V>(a: Seq<Slot<V>>, b: Seq<Slot<V>>, i: int)
    requires
        0 <= i < a.len(),
        b == a.update(i, b[i]),
        b[i].key == a[i].key,
        b[i].poisoned == a[i].poisoned,
    ensures
        forall|t: u64| slot_has_poison(b, t) == slot_has_poison(a, t),
{
    assert forall|t: u64| slot_has_poison(b, t) == slot_has_poison(a, t) by {
        if slot_has_poison(a, t) {
            let j = choose|j: int| 0 <= j < a.len() && a[j].key == t && a[j].poisoned;
            assert(b[j].key == t && b[j].poisoned);
        }
        if slot_has_poison(b, t) {
            let j = choose|j: int| 0 <= j < b.len() && b[j].key == t && b[j].poisoned;
            assert(a[j].key == t && a[j].poisoned);
        }
    }
}

/// Like [`ThreadMap`](crate::ThreadMap), an association of thread identity
/// tokens to lazily initialized values, but modelling the variant in which
/// every association has a lock of its own: a panic while one association is
/// held poisons only that association, and the whole-map operations report an
/// error when the object-level lock or any association they visit is
/// poisoned.
pub struct ThreadMapX<V, F> {
    state: Vec<Slot<V>>,
    value_init: F,
    lock_poisoned: bool,
    init_tally: Ghost<Map<u64, int>>,
}

impl<V, F: Fn() -> V> ThreadMapX<V, F> {
    /// The token/value pairs, in creation order.
    spec fn pairs(&self) -> Seq<(u64, V)> {
        self.state@.map_values(|s: Slot<V>| (s.key, s.value))
    }

    /// The tokens that have an association, in creation order.
    pub closed spec fn keys(&self) -> Seq<u64> {
        keys_of(self.pairs())
    }

    /// The map from token to its current value.
    pub closed spec fn view(&self) -> Map<u64, V> {
        assoc_map(self.pairs())
    }

    /// Whether the object-level lock is poisoned.
    pub closed spec fn poisoned(&self) -> bool {
        self.lock_poisoned
    }

    /// Whether the lock of `tid`'s own association is poisoned.
    pub closed spec fn entry_poisoned(&self, tid: u64) -> bool {
        slot_has_poison(self.state@, tid)
    }

    /// Whether any association's own lock is poisoned.
    pub open spec fn any_entry_poisoned(&self) -> bool {
        exists|t: u64| self.entry_poisoned(t)
    }

    /// The initializer stored at construction.
    pub closed spec fn initializer(&self) -> F {
        self.value_init
    }

    /// How many times the initializer has run for each token.
    pub closed spec fn init_calls(&self) -> Map<u64, int> {
        self.init_tally@
    }

    /// Internal consistency: tokens are unique and the initializer can run.
    pub closed spec fn wf(&self) -> bool {
        &&& keys_unique(self.pairs())
        &&& call_requires(self.value_init, ())
    }

    /// The two views agree: the tokens listed are exactly the map's keys.
    pub proof fn lemma_views_agree(&self)
        requires
            self.wf(),
        ensures
            self.keys().no_duplicates(),
            forall|i: int|
                0 <= i < self.keys().len() ==> (#[trigger] self@.contains_key(self.keys()[i])),
            forall|t: u64| self@.contains_key(t) ==> self.keys().contains(t),
            self@.dom().finite(),
            self@.dom().len() == self.keys().len(),
    {
        assert forall|i: int| 0 <= i < self.keys().len() implies #[trigger] self@.contains_key(
            self.keys()[i],
        ) by {
            lemma_assoc_map_index(self.pairs(), i);
        }
        assert forall|t: u64| self@.contains_key(t) implies self.keys().contains(t) by {
            lemma_assoc_map_contains(self.pairs(), t);
            let i = choose|i: int| 0 <= i < self.pairs().len() && self.pairs()[i].0 == t;
            assert(self.keys()[i] == t);
        }
        crate::common::lemma_assoc_map_len(self.pairs());
    }

    /// Creates an empty map that will build each token's first value with
    /// `value_init`.
    pub fn new(value_init: F) -> (r: Self)
        requires
            call_requires(value_init, ()),
        ensures
            r.wf(),
            r.keys() == Seq::<u64>::empty(),
            r@ == Map::<u64, V>::empty(),
            !r.poisoned(),
            forall|t: u64| !r.entry_poisoned(t),
            r.initializer() == value_init,
            r.init_calls() == Map::<u64, int>::empty(),
    {
        let r = ThreadMapX {
            state: Vec::new(),
            value_init,
            lock_poisoned: false,
            init_tally: Ghost(Map::empty()),
        };
        proof {
            assert(r.keys() =~= Seq::<u64>::empty());
        }
        r
    }

    /// Where `tid`'s association sits in the internal sequence, if anywhere.
    fn position_of(&self, tid: u64) -> (r: Option<usize>)
        ensures
            match r {
                Some(i) => i < self.state@.len() && self.state@[i as int].key == tid,
                None => forall|i: int| 0 <= i < self.state@.len() ==> self.state@[i].key != tid,
            },
    {
        let n = self.state.len();
        let mut i: usize = 0;
        while i < n
            invariant
                n == self.state@.len(),
                i <= n,
                forall|j: int| 0 <= j < i ==> self.state@[j].key != tid,
            decreases n - i,
        {
            if self.state[i].key == tid {
                return Some(i);
            }
            i += 1;
        }
        None
    }

    /// Applies `f` to the calling thread's value, replacing the value with
    /// the one `f` hands back and returning `f`'s other result. If `tid` has
    /// no association yet, its value is first created by the initializer, so
    /// that `f` always runs on the thread's current value.
    pub fn with_mut<W, G: FnOnce(V) -> (V, W)>(&mut self, tid: u64, f: G) -> (r: W)
        requires
            old(self).wf(),
            !old(self).poisoned(),
            !old(self).entry_poisoned(tid),
            old(self)@.contains_key(tid) ==> call_requires(f, (old(self)@[tid],)),
            !old(self)@.contains_key(tid) ==> forall|v0: V|
                call_ensures(old(self).initializer(), (), v0) ==> call_requires(f, (v0,)),
        ensures
            final(self).wf(),
            !final(self).poisoned(),
            forall|t: u64| final(self).entry_poisoned(t) == old(self).entry_poisoned(t),
            final(self).initializer() == old(self).initializer(),
            final(self)@.contains_key(tid),
            final(self)@ == old(self)@.insert(tid, final(self)@[tid]),
            touch_tally(old(self)@, old(self).init_calls(), final(self)@, final(self).init_calls(), tid),
            old(self)@.contains_key(tid) ==> {
                &&& final(self).keys() == old(self).keys()
                &&& call_ensures(f, (old(self)@[tid],), (final(self)@[tid], r))
            },
            !old(self)@.contains_key(tid) ==> {
                &&& final(self).keys() == old(self).keys().push(tid)
                &&& exists|v0: V|
                    call_ensures(old(self).initializer(), (), v0) && call_ensures(
                        f,
                        (v0,),
                        (final(self)@[tid], r),
                    )
            },
    {
        match self.position_of(tid) {
            Some(i) => {
                proof {
                    lemma_assoc_map_index(self.pairs(), i as int);
                    assert(!self.state@[i as int].poisoned);
                }
                let slot = self.state.remove(i);
                let (nv, w) = f(slot.value);
                self.state.insert(i, Slot { key: slot.key, value: nv, poisoned: false });
                proof {
                    assert(self.state@ =~= old(self).state@.update(
                        i as int,
                        Slot { key: tid, value: nv, poisoned: false },
                    ));
                    assert(self.pairs() =~= old(self).pairs().update(i as int, (tid, nv)));
                    assert(self.keys() =~= old(self).keys());
                    lemma_assoc_map_update(old(self).pairs(), i as int, nv);
                    assert(self@ == old(self)@.insert(tid, nv));
                    lemma_assoc_map_index(self.pairs(), i as int);
                    lemma_flags_after_update(old(self).state@, self.state@, i as int);
                }
                w
            },
            None => {
                proof {
                    lemma_assoc_map_contains(self.pairs(), tid);
                    assert(!old(self)@.contains_key(tid));
                }
                let v0 = (self.value_init)();
                proof {
                    assert(call_ensures(old(self).initializer(), (), v0));
                }
                let (nv, w) = f(v0);
                self.state.push(Slot { key: tid, value: nv, poisoned: false });
                self.init_tally = Ghost(
                    self.init_tally@.insert(tid, tally(self.init_tally@, tid) + 1),
                );
                proof {
                    assert(self.state@.drop_last() =~= old(self).state@);
                    assert(self.pairs().drop_last() =~= old(self).pairs());
                    assert(self.pairs().last() == (tid, nv));
                    assert(self.keys() =~= old(self).keys().push(tid));
                    assert forall|a: int, b: int|
                        0 <= a < b < self.pairs().len() implies self.pairs()[a].0
                        != self.pairs()[b].0 by {
                        if b == self.pairs().len() - 1 {
                            assert(self.pairs()[b].0 == tid);
                            assert(self.pairs()[a].0 == old(self).state@[a].key);
                        } else {
                            assert(self.pairs()[a] == old(self).pairs()[a]);
                            assert(self.pairs()[b] == old(self).pairs()[b]);
                        }
                    }
                    assert(keys_unique(self.pairs()));
                    assert(self@ == old(self)@.insert(tid, nv));
                    lemma_assoc_map_index(self.pairs(), self.pairs().len() - 1);
                    lemma_flags_after_push(old(self).state@, self.state@);
                }
                w
            },
        }
    }

    /// Applies the read-only `f` to the calling thread's value and returns
    /// its result, creating the value by the initializer first if `tid` has
    /// no association yet.
    pub fn with<W, G: FnOnce(&V) -> W>(&mut self, tid: u64, f: G) -> (r: W)
        requires
            old(self).wf(),
            !old(self).poisoned(),
            !old(self).entry_poisoned(tid),
            old(self)@.contains_key(tid) ==> call_requires(f, (&old(self)@[tid],)),
            !old(self)@.contains_key(tid) ==> forall|v0: V|
                call_ensures(old(self).initializer(), (), v0) ==> call_requires(f, (&v0,)),
        ensures
            final(self).wf(),
            !final(self).poisoned(),
            forall|t: u64| final(self).entry_poisoned(t) == old(self).entry_poisoned(t),
            final(self).initializer() == old(self).initializer(),
            final(self)@.contains_key(tid),
            final(self)@ == old(self)@.insert(tid, final(self)@[tid]),
            touch_tally(old(self)@, old(self).init_calls(), final(self)@, final(self).init_calls(), tid),
            call_ensures(f, (&final(self)@[tid],), r),
            old(self)@.contains_key(tid) ==> {
                &&& final(self).keys() == old(self).keys()
                &&& final(self)@ == old(self)@
            },
            !old(self)@.contains_key(tid) ==> {
                &&& final(self).keys() == old(self).keys().push(tid)
                &&& call_ensures(old(self).initializer(), (), final(self)@[tid])
            },
    {
        match self.position_of(tid) {
            Some(i) => {
                proof {
                    lemma_assoc_map_index(self.pairs(), i as int);
                }
                let w = f(&self.state[i].value);
                proof {
                    assert(self@ =~= old(self)@.insert(tid, self@[tid]));
                }
                w
            },
            None => {
                proof {
                    lemma_assoc_map_contains(self.pairs(), tid);
                    assert(!old(self)@.contains_key(tid));
                }
                let v0 = (self.value_init)();
                proof {
                    assert(call_ensures(old(self).initializer(), (), v0));
                }
                let w = f(&v0);
                self.state.push(Slot { key: tid, value: v0, poisoned: false });
                self.init_tally = Ghost(
                    self.init_tally@.insert(tid, tally(self.init_tally@, tid) + 1),
                );
                proof {
                    assert(self.state@.drop_last() =~= old(self).state@);
                    assert(self.pairs().drop_last() =~= old(self).pairs());
                    assert(self.keys() =~= old(self).keys().push(tid));
                    assert forall|a: int, b: int|
                        0 <= a < b < self.pairs().len() implies self.pairs()[a].0
                        != self.pairs()[b].0 by {
                        if b == self.pairs().len() - 1 {
                            assert(self.pairs()[b].0 == tid);
                            assert(self.pairs()[a].0 == old(self).state@[a].key);
                        } else {
                            assert(self.pairs()[a] == old(self).pairs()[a]);
                            assert(self.pairs()[b] == old(self).pairs()[b]);
                        }
                    }
                    assert(keys_unique(self.pairs()));
                    lemma_assoc_map_index(self.pairs(), self.pairs().len() - 1);
                    lemma_flags_after_push(old(self).state@, self.state@);
                }
                w
            },
        }
    }

    /// Returns a clone of the calling thread's value, creating the value by
    /// the initializer first if `tid` has no association yet.
    pub fn get(&mut self, tid: u64) -> (r: V) where V: Clone
        requires
            old(self).wf(),
            !old(self).poisoned(),
            !old(self).entry_poisoned(tid),
        ensures
            final(self).wf(),
            !final(self).poisoned(),
            forall|t: u64| final(self).entry_poisoned(t) == old(self).entry_poisoned(t),
            final(self).initializer() == old(self).initializer(),
            final(self)@.contains_key(tid),
            final(self)@ == old(self)@.insert(tid, final(self)@[tid]),
            touch_tally(old(self)@, old(self).init_calls(), final(self)@, final(self).init_calls(), tid),
            cloned::<V>(final(self)@[tid], r),
            old(self)@.contains_key(tid) ==> {
                &&& final(self).keys() == old(self).keys()
                &&& final(self)@ == old(self)@
            },
            !old(self)@.contains_key(tid) ==> {
                &&& final(self).keys() == old(self).keys().push(tid)
                &&& call_ensures(old(self).initializer(), (), final(self)@[tid])
            },
    {
        let g = |p: &V| -> (res: V)
            ensures
                cloned::<V>(*p, res),
            { p.clone() };
        self.with(tid, g)
    }

    /// Sets the calling thread's value to `v`. If `tid` has no association
    /// yet the initializer still runs once to create it, and `v` then
    /// replaces the freshly built value.
    pub fn set(&mut self, tid: u64, v: V)
        requires
            old(self).wf(),
            !old(self).poisoned(),
            !old(self).entry_poisoned(tid),
        ensures
            final(self).wf(),
            !final(self).poisoned(),
            forall|t: u64| final(self).entry_poisoned(t) == old(self).entry_poisoned(t),
            final(self).initializer() == old(self).initializer(),
            final(self)@ == old(self)@.insert(tid, v),
            touch_tally(old(self)@, old(self).init_calls(), final(self)@, final(self).init_calls(), tid),
            old(self)@.contains_key(tid) ==> final(self).keys() == old(self).keys(),
            !old(self)@.contains_key(tid) ==> final(self).keys() == old(self).keys().push(tid),
    {
        let g = move |_prev: V| -> (res: (V, ()))
            ensures
                res.0 == v,
            { (v, ()) };
        self.with_mut(tid, g);
    }

    /// Folds every association into an accumulator seeded with `z`, applying
    /// `f` left to right in creation order and visiting every association
    /// exactly once; fails when the object-level lock or any visited
    /// association's own lock is poisoned.
    pub fn fold<W, G: Fn(W, (u64, &V)) -> W>(&self, z: W, f: G) -> (r: Result<
        W,
        ThreadMapLockError,
    >)
        requires
            self.wf(),
            forall|w: W, i: int|
                0 <= i < self.keys().len() ==> call_requires(
                    f,
                    (w, (self.keys()[i], &self@[self.keys()[i]])),
                ),
        ensures
            (self.poisoned() || self.any_entry_poisoned()) <==> r is Err,
            r matches Err(e) ==> e == ThreadMapLockError,
            r matches Ok(w) ==> folds(f, z, self.keys(), self@, w),
    {
        if self.lock_poisoned {
            return Err(ThreadMapLockError);
        }
        let n = self.state.len();
        let mut w = z;
        let ghost mut ws: Seq<W> = seq![z];
        let mut i: usize = 0;
        while i < n
            invariant
                self.wf(),
                !self.poisoned(),
                n == self.state@.len(),
                forall|acc: W, j: int|
                    0 <= j < self.keys().len() ==> call_requires(
                        f,
                        (acc, (self.keys()[j], &self@[self.keys()[j]])),
                    ),
                i <= n,
                ws.len() == i + 1,
                ws[0] == z,
                w == ws[i as int],
                forall|j: int| 0 <= j < i ==> !self.state@[j].poisoned,
                forall|j: int|
                    0 <= j < i ==> call_ensures(
                        f,
                        (ws[j], (self.keys()[j], &self@[self.keys()[j]])),
                        ws[j + 1],
                    ),
            decreases n - i,
        {
            proof {
                lemma_assoc_map_index(self.pairs(), i as int);
                assert(self.keys()[i as int] == self.state@[i as int].key);
            }
            let p = &self.state[i];
            if p.poisoned {
                proof {
                    assert(self.entry_poisoned(p.key));
                }
                return Err(ThreadMapLockError);
            }
            w = f(w, (p.key, &p.value));
            proof {
                ws = ws.push(w);
            }
            i += 1;
        }
        proof {
            assert(!self.any_entry_poisoned()) by {
                if self.any_entry_poisoned() {
                    let t = choose|t: u64| self.entry_poisoned(t);
                    let j = choose|j: int|
                        0 <= j < self.state@.len() && self.state@[j].key == t
                            && self.state@[j].poisoned;
                    assert(!self.state@[j].poisoned);
                }
            }
            assert(fold_steps(f, z, self.keys(), self@, ws, w));
        }
        Ok(w)
    }

    /// Folds every value into an accumulator seeded with `z`, as [`Self::fold`]
    /// but with the tokens left out.
    pub fn fold_values<W, G: Fn(W, &V) -> W>(&self, z: W, f: G) -> (r: Result<
        W,
        ThreadMapLockError,
    >)
        requires
            self.wf(),
            forall|w: W, i: int|
                0 <= i < self.keys().len() ==> call_requires(f, (w, &self@[self.keys()[i]])),
        ensures
            (self.poisoned() || self.any_entry_poisoned()) <==> r is Err,
            r matches Err(e) ==> e == ThreadMapLockError,
            r matches Ok(w) ==> folds_values(f, z, self.keys(), self@, w),
    {
        if self.lock_poisoned {
            return Err(ThreadMapLockError);
        }
        let n = self.state.len();
        let mut w = z;
        let ghost mut ws: Seq<W> = seq![z];
        let mut i: usize = 0;
        while i < n
            invariant
                self.wf(),
                !self.poisoned(),
                n == self.state@.len(),
                forall|acc: W, j: int|
                    0 <= j < self.keys().len() ==> call_requires(
                        f,
                        (acc, &self@[self.keys()[j]]),
                    ),
                i <= n,
                ws.len() == i + 1,
                ws[0] == z,
                w == ws[i as int],
                forall|j: int| 0 <= j < i ==> !self.state@[j].poisoned,
                forall|j: int|
                    0 <= j < i ==> call_ensures(f, (ws[j], &self@[self.keys()[j]]), ws[j + 1]),
            decreases n - i,
        {
            proof {
                lemma_assoc_map_index(self.pairs(), i as int);
                assert(self.keys()[i as int] == self.state@[i as int].key);
            }
            let p = &self.state[i];
            if p.poisoned {
                proof {
                    assert(self.entry_poisoned(p.key));
                }
                return Err(ThreadMapLockError);
            }
            w = f(w, &p.value);
            proof {
                ws = ws.push(w);
            }
            i += 1;
        }
        proof {
            assert(!self.any_entry_poisoned()) by {
                if self.any_entry_poisoned() {
                    let t = choose|t: u64| self.entry_poisoned(t);
                    let j = choose|j: int|
                        0 <= j < self.state@.len() && self.state@[j].key == t
                            && self.state@[j].poisoned;
                    assert(!self.state@[j].poisoned);
                }
            }
            assert(fold_values_steps(f, z, self.keys(), self@, ws, w));
        }
        Ok(w)
    }

    /// Returns a fresh keyed map holding a clone of every association's value
    /// at the moment of the call, leaving the map itself untouched; fails
    /// when the object-level lock or any association's own lock is poisoned.
    pub fn probe(&self) -> (r: Result<HashMap<u64, V>, ThreadMapLockError>) where V: Clone
        requires
            self.wf(),
        ensures
            (self.poisoned() || self.any_entry_poisoned()) <==> r is Err,
            r matches Err(e) ==> e == ThreadMapLockError,
            r matches Ok(m) ==> probe_relates(self@, m@),
    {
        if self.lock_poisoned {
            return Err(ThreadMapLockError);
        }
        let n = self.state.len();
        let mut m: HashMap<u64, V> = HashMap::new();
        let mut i: usize = 0;
        while i < n
            invariant
                self.wf(),
                !self.poisoned(),
                n == self.state@.len(),
                i <= n,
                forall|j: int| 0 <= j < i ==> !self.state@[j].poisoned,
                forall|j: int|
                    0 <= j < i ==> m@.contains_key(#[trigger] self.state@[j].key) && cloned::<V>(
                        self.state@[j].value,
                        m@[self.state@[j].key],
                    ),
                forall|t: u64| #[trigger]
                    m@.contains_key(t) ==> exists|j: int| 0 <= j < i && self.state@[j].key == t,
            decreases n - i,
        {
            proof {
                assert forall|j: int|
                    0 <= j < i implies self.state@[j].key != self.state@[i as int].key by {
                    assert(self.pairs()[j].0 == self.state@[j].key);
                    assert(self.pairs()[i as int].0 == self.state@[i as int].key);
                }
            }
            let p = &self.state[i];
            if p.poisoned {
                proof {
                    assert(self.entry_poisoned(p.key));
                }
                return Err(ThreadMapLockError);
            }
            let c = p.value.clone();
            m.insert(p.key, c);
            i += 1;
        }
        proof {
            assert(!self.any_entry_poisoned()) by {
                if self.any_entry_poisoned() {
                    let t = choose|t: u64| self.entry_poisoned(t);
                    let j = choose|j: int|
                        0 <= j < self.state@.len() && self.state@[j].key == t
                            && self.state@[j].poisoned;
                    assert(!self.state@[j].poisoned);
                }
            }
            assert forall|t: u64| self@.contains_key(t) implies m@.contains_key(t) by {
                lemma_assoc_map_contains(self.pairs(), t);
                let j = choose|j: int| 0 <= j < self.pairs().len() && self.pairs()[j].0 == t;
                assert(self.state@[j].key == t);
            }
            assert forall|t: u64| m@.contains_key(t) implies self@.contains_key(t) by {
                lemma_assoc_map_contains(self.pairs(), t);
                let j = choose|j: int| 0 <= j < n && self.state@[j].key == t;
                assert(self.pairs()[j].0 == t);
            }
            assert(m@.dom() =~= self@.dom());
            assert forall|t: u64| m@.contains_key(t) implies cloned::<V>(self@[t], m@[t]) by {
                let j = choose|j: int| 0 <= j < n && self.state@[j].key == t;
                lemma_assoc_map_index(self.pairs(), j);
                assert(self@[t] == self.pairs()[j].1);
            }
        }
        Ok(m)
    }

    /// Empties the map and hands every association back in a fresh keyed
    /// map. A poisoned object-level lock fails the call and leaves the map
    /// untouched; a poisoned association's own lock still lets the map be
    /// emptied but fails the call, and those associations are lost.
    pub fn drain(&mut self) -> (r: Result<HashMap<u64, V>, ThreadMapLockError>)
        requires
            old(self).wf(),
        ensures
            final(self).wf(),
            final(self).poisoned() == old(self).poisoned(),
            final(self).initializer() == old(self).initializer(),
            final(self).init_calls() == old(self).init_calls(),
            r matches Err(e) ==> e == ThreadMapLockError,
            old(self).poisoned() ==> r is Err && final(self)@ == old(self)@ && final(self).keys()
                == old(self).keys() && forall|t: u64|
                final(self).entry_poisoned(t) == old(self).entry_poisoned(t),
            !old(self).poisoned() ==> {
                &&& final(self).keys() == Seq::<u64>::empty()
                &&& final(self)@ == Map::<u64, V>::empty()
                &&& forall|t: u64| !final(self).entry_poisoned(t)
                &&& ((r is Err) <==> old(self).any_entry_poisoned())
            },
            !old(self).poisoned() && !old(self).any_entry_poisoned() ==> (r matches Ok(m) && m@
                == old(self)@),
    {
        if self.lock_poisoned {
            return Err(ThreadMapLockError);
        }
        let mut m: HashMap<u64, V> = HashMap::new();
        let mut bad = false;
        while self.state.len() != 0
            invariant
                keys_unique(self.pairs()),
                self.value_init == old(self).value_init,
                self.lock_poisoned == old(self).lock_poisoned,
                !self.lock_poisoned,
                self.init_tally == old(self).init_tally,
                self.state@.len() <= old(self).state@.len(),
                self.state@ =~= old(self).state@.take(self.state@.len() as int),
                bad ==> old(self).any_entry_poisoned(),
                !bad ==> forall|j: int|
                    self.state@.len() <= j < old(self).state@.len() ==> !old(
                        self,
                    ).state@[j].poisoned,
                !bad ==> forall|t: u64| #[trigger]
                    old(self)@.contains_key(t) <==> m@.contains_key(t) || assoc_map(
                        self.pairs(),
                    ).contains_key(t),
                !bad ==> forall|t: u64| #[trigger] m@.contains_key(t) ==> !assoc_map(
                    self.pairs(),
                ).contains_key(t),
                !bad ==> forall|t: u64| #[trigger] m@.contains_key(t) ==> m@[t] == old(self)@[t],
                !bad ==> forall|t: u64| #[trigger]
                    assoc_map(self.pairs()).contains_key(t) ==> assoc_map(self.pairs())[t] == old(
                        self,
                    )@[t],
            decreases self.state@.len(),
        {
            let ghost s = self.pairs();
            let ghost k = self.state@.len() as int;
            proof {
                lemma_assoc_map_index(s, s.len() - 1);
                lemma_assoc_map_contains(s.drop_last(), s.last().0);
                assert(!assoc_map(s.drop_last()).contains_key(s.last().0));
                assert(assoc_map(s.drop_last()) =~= assoc_map(s).remove(s.last().0));
            }
            let slot = self.state.pop().unwrap();
            proof {
                assert(self.pairs() =~= s.drop_last());
                assert(old(self).state@.take(k).drop_last() =~= old(self).state@.take(k - 1));
                assert(self.state@ =~= old(self).state@.take(self.state@.len() as int));
                assert(old(self).state@.take(k)[k - 1] == old(self).state@[k - 1]);
                assert(old(self).state@[k - 1] == slot);
                if slot.poisoned {
                    assert(slot_has_poison(old(self).state@, slot.key));
                    assert(old(self).entry_poisoned(slot.key));
                    assert(old(self).any_entry_poisoned());
                }
            }
            if slot.poisoned {
                bad = true;
            } else {
                m.insert(slot.key, slot.value);
            }
        }
        proof {
            assert(self.keys() =~= Seq::<u64>::empty());
            assert(self@ =~= Map::<u64, V>::empty());
            if !bad {
                assert(!old(self).any_entry_poisoned()) by {
                    if old(self).any_entry_poisoned() {
                        let t = choose|t: u64| old(self).entry_poisoned(t);
                        let j = choose|j: int|
                            0 <= j < old(self).state@.len() && old(self).state@[j].key == t && old(
                                self,
                            ).state@[j].poisoned;
                        assert(!old(self).state@[j].poisoned);
                    }
                }
                assert(m@ =~= old(self)@);
            }
        }
        if bad {
            Err(ThreadMapLockError)
        } else {
            Ok(m)
        }
    }

    /// Marks the object-level lock poisoned, as a panic in a previous holder
    /// of the lock would; the surrounding runtime drives this transition.
    pub fn poison(&mut self)
        ensures
            final(self).wf() == old(self).wf(),
            final(self).poisoned(),
            forall|t: u64| final(self).entry_poisoned(t) == old(self).entry_poisoned(t),
            final(self)@ == old(self)@,
            final(self).keys() == old(self).keys(),
            final(self).initializer() == old(self).initializer(),
            final(self).init_calls() == old(self).init_calls(),
    {
        self.lock_poisoned = true;
    }

    /// Marks the lock of `tid`'s own association poisoned, as a panic while
    /// that association was held would; the surrounding runtime drives this
    /// transition.
    pub fn poison_entry(&mut self, tid: u64)
        requires
            old(self).wf(),
            old(self)@.contains_key(tid),
        ensures
            final(self).wf(),
            final(self).poisoned() == old(self).poisoned(),
            final(self).entry_poisoned(tid),
            forall|t: u64|
                t != tid ==> final(self).entry_poisoned(t) == old(self).entry_poisoned(t),
            final(self)@ == old(self)@,
            final(self).keys() == old(self).keys(),
            final(self).initializer() == old(self).initializer(),
            final(self).init_calls() == old(self).init_calls(),
    {
        match self.position_of(tid) {
            Some(i) => {
                let slot = self.state.remove(i);
                self.state.insert(i, Slot { key: slot.key, value: slot.value, poisoned: true });
                proof {
                    let a = old(self).state@;
                    let b = self.state@;
                    assert(b =~= a.update(i as int, b[i as int]));
                    assert(self.pairs() =~= old(self).pairs());
                    assert(self.keys() =~= old(self).keys());
                    assert(self.entry_poisoned(tid));
                    assert forall|t: u64|
                        t != tid implies self.entry_poisoned(t) == old(self).entry_poisoned(
                        t,
                    ) by {
                        if old(self).entry_poisoned(t) {
                            let j = choose|j: int|
                                0 <= j < a.len() && a[j].key == t && a[j].poisoned;
                            assert(b[j].key == t && b[j].poisoned);
                        }
                        if self.entry_poisoned(t) {
                            let j = choose|j: int|
                                0 <= j < b.len() && b[j].key == t && b[j].poisoned;
                            assert(a[j].key == t && a[j].poisoned);
                        }
                    }
                }
            },
            None => {
                proof {
                    lemma_assoc_map_contains(self.pairs(), tid);
                    assert(false);
                }
            },
        }
    }
}

} // verus!
