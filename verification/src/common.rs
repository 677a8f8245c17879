//! The shared error type and the association model used by both map variants.
//!
//! A map state is described by two views: the sequence of thread identity
//! tokens in creation order (`Seq<u64>`) and the mathematical map from token
//! to current value (`Map<u64, V>`). The spec functions here say what a fold
//! run, a snapshot, or a per-thread touch looks like over those views.

use vstd::prelude::*;

verus! {

/// Error returned by the whole-map operations of [`ThreadMap`](crate::ThreadMap)
/// and [`ThreadMapX`](crate::ThreadMapX) when an internal lock has been
/// poisoned by a panic in a previous holder.
#[derive(Clone, Copy, Debug, PartialEq, Eq, Structural)]
pub struct ThreadMapLockError;

/// The mathematical map described by an association sequence.
pub open spec fn assoc_map<V>(s: Seq<(u64, V)>) -> Map<u64, V>
    decreases s.len(),
{
    if s.len() == 0 {
        Map::empty()
    } else {
        assoc_map(s.drop_last()).insert(s.last().0, s.last().1)
    }
}

/// The keys of an association sequence, in association order.
pub open spec fn keys_of<V>(s: Seq<(u64, V)>) -> Seq<u64> {
    s.map_values(|p: (u64, V)| p.0)
}

/// Whether no key occurs twice in an association sequence.
pub open spec fn keys_unique<V>(s: Seq<(u64, V)>) -> bool {
    forall|i: int, j: int| 0 <= i < j < s.len() ==> s[i].0 != s[j].0
}

/// How many times the initializer has run for `tid` according to tally `t`:
/// a token never tallied has run it zero times.
pub open spec fn tally(t: Map<u64, int>, tid: u64) -> int {
    if t.contains_key(tid) {
        t[tid]
    } else {
        0
    }
}

/// The effect of one per-thread touch of `tid` on the map view and on the
/// initializer tally: afterwards `tid` is present, and the tally grew by one
/// exactly when the touch created the association.
pub open spec fn touch_tally<V>(
    pre_m: Map<u64, V>,
    pre_t: Map<u64, int>,
    post_m: Map<u64, V>,
    post_t: Map<u64, int>,
    tid: u64,
) -> bool {
    &&& post_m.contains_key(tid)
    &&& post_m == pre_m.insert(tid, post_m[tid])
    &&& (pre_m.contains_key(tid) ==> post_t == pre_t)
    &&& (!pre_m.contains_key(tid) ==> post_t == pre_t.insert(tid, tally(pre_t, tid) + 1))
}

/// One accepted run of a keyed fold: `ws` lists the accumulator before and
/// after every step, each step being one accepted call of `g` on the token at
/// that position and its value in `m`.
pub open spec fn fold_steps<V, W, G: Fn(W, (u64, &V)) -> W>(
    g: G,
    z: W,
    ks: Seq<u64>,
    m: Map<u64, V>,
    ws: Seq<W>,
    r: W,
) -> bool {
    &&& ws.len() == ks.len() + 1
    &&& ws[0] == z
    &&& r == ws[ks.len() as int]
    &&& forall|i: int|
        0 <= i < ks.len() ==> call_ensures(g, (ws[i], (ks[i], &m[ks[i]])), ws[i + 1])
}

/// Whether `r` is a result that a keyed fold of `g` over the associations
/// `(ks, m)`, seeded with `z`, can produce.
pub open spec fn folds<V, W, G: Fn(W, (u64, &V)) -> W>(
    g: G,
    z: W,
    ks: Seq<u64>,
    m: Map<u64, V>,
    r: W,
) -> bool {
    exists|ws: Seq<W>| fold_steps(g, z, ks, m, ws, r)
}

/// One accepted run of a values-only fold, as [`fold_steps`] but with `g`
/// applied to the values alone.
pub open spec fn fold_values_steps<V, W, G: Fn(W, &V) -> W>(
    g: G,
    z: W,
    ks: Seq<u64>,
    m: Map<u64, V>,
    ws: Seq<W>,
    r: W,
) -> bool {
    &&& ws.len() == ks.len() + 1
    &&& ws[0] == z
    &&& r == ws[ks.len() as int]
    &&& forall|i: int| 0 <= i < ks.len() ==> call_ensures(g, (ws[i], &m[ks[i]]), ws[i + 1])
}

/// Whether `r` is a result that a values-only fold of `g` over `(ks, m)`,
/// seeded with `z`, can produce.
pub open spec fn folds_values<V, W, G: Fn(W, &V) -> W>(
    g: G,
    z: W,
    ks: Seq<u64>,
    m: Map<u64, V>,
    r: W,
) -> bool {
    exists|ws: Seq<W>| fold_values_steps(g, z, ks, m, ws, r)
}

/// What a snapshot holds: the same tokens as the source, each mapped to a
/// clone of the source's value.
pub open spec fn probe_relates<V: Clone>(src: Map<u64, V>, snap: Map<u64, V>) -> bool {
    &&& snap.dom() == src.dom()
    &&& forall|t: u64| snap.contains_key(t) ==> cloned::<V>(src[t], snap[t])
}

/// A key is in the association map exactly when some pair carries it.
pub proof fn lemma_assoc_map_contains<V>(s: Seq<(u64, V)>, tid: u64)
    ensures
        assoc_map(s).contains_key(tid) <==> exists|i: int| 0 <= i < s.len() && s[i].0 == tid,
    decreases s.len(),
{
    if s.len() > 0 {
        lemma_assoc_map_contains(s.drop_last(), tid);
        if s.last().0 == tid {
            assert(s[s.len() - 1].0 == tid);
        } else if assoc_map(s).contains_key(tid) {
            let i = choose|i: int| 0 <= i < s.len() - 1 && s.drop_last()[i].0 == tid;
            assert(s[i].0 == tid);
        } else if exists|i: int| 0 <= i < s.len() && s[i].0 == tid {
            let i = choose|i: int| 0 <= i < s.len() && s[i].0 == tid;
            assert(s.drop_last()[i].0 == tid);
        }
    }
}

/// Under unique keys, the association map sends each listed key to the value
/// paired with it.
pub proof fn lemma_assoc_map_index<V>(s: Seq<(u64, V)>, i: int)
    requires
        keys_unique(s),
        0 <= i < s.len(),
    ensures
        assoc_map(s).contains_key(s[i].0),
        assoc_map(s)[s[i].0] == s[i].1,
    decreases s.len(),
{
    lemma_assoc_map_contains(s, s[i].0);
    if i < s.len() - 1 {
        assert(keys_unique(s.drop_last()));
        lemma_assoc_map_index(s.drop_last(), i);
        assert(s.last().0 != s[i].0);
    }
}

/// Under unique keys, the association map has exactly as many keys as the
/// sequence has pairs.
pub proof fn lemma_assoc_map_len<V>(s: Seq<(u64, V)>)
    requires
        keys_unique(s),
    ensures
        assoc_map(s).dom().finite(),
        assoc_map(s).dom().len() == s.len(),
    decreases s.len(),
{
    if s.len() > 0 {
        assert(keys_unique(s.drop_last()));
        lemma_assoc_map_len(s.drop_last());
        lemma_assoc_map_contains(s.drop_last(), s.last().0);
        assert(!assoc_map(s.drop_last()).contains_key(s.last().0));
    }
}

/// Replacing the value paired with a listed key updates the association map
/// at that key alone.
pub proof fn lemma_assoc_map_update<V>(s: Seq<(u64, V)>, i: int, v: V)
    requires
        keys_unique(s),
        0 <= i < s.len(),
    ensures
        assoc_map(s.update(i, (s[i].0, v))) == assoc_map(s).insert(s[i].0, v),
    decreases s.len(),
{
    let t = s[i].0;
    let s2 = s.update(i, (t, v));
    if i == s.len() - 1 {
        assert(s2.drop_last() =~= s.drop_last());
        assert(s2.last() == (t, v));
        assert(assoc_map(s2) =~= assoc_map(s).insert(t, v));
    } else {
        assert(keys_unique(s.drop_last()));
        assert(s2.drop_last() =~= s.drop_last().update(i, (t, v)));
        lemma_assoc_map_update(s.drop_last(), i, v);
        assert(s.last().0 != t);
        assert(s2.last() == s.last());
        assert(assoc_map(s2) =~= assoc_map(s).insert(t, v));
    }
}

} // verus!
