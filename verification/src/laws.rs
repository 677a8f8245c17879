//! Laws of the map, stated over the views that the operations' contracts use
//! and proved once for every state, token, and value.

use crate::common::{fold_values_steps, folds_values, probe_relates, tally, touch_tally};
use vstd::prelude::*;

verus! {

/// Exclusivity of per-thread access: a touch of one token, seen on the map
/// view as an insertion at that token, neither adds, removes, nor changes any
/// other token's association, so no touch can expose another thread's entry
/// in a half-updated state.
pub proof fn lemma_update_preserves_others<V>(pre: Map<u64, V>, tid: u64, v: V, other: u64)
    requires
        other != tid,
    ensures
        pre.insert(tid, v).contains_key(other) == pre.contains_key(other),
        pre.contains_key(other) ==> pre.insert(tid, v)[other] == pre[other],
{
}

/// Touches of two distinct tokens commute: the map ends the same whichever
/// thread's update lands first.
pub proof fn lemma_updates_commute<V>(pre: Map<u64, V>, t1: u64, v1: V, t2: u64, v2: V)
    requires
        t1 != t2,
    ensures
        pre.insert(t1, v1).insert(t2, v2) == pre.insert(t2, v2).insert(t1, v1),
{
    assert(pre.insert(t1, v1).insert(t2, v2) =~= pre.insert(t2, v2).insert(t1, v1));
}

/// Lazy initialization happens once per token: of two successive touches of
/// the same token, only the first can run the initializer, since the first
/// leaves the token present; the tally therefore grows by one at the touch
/// that creates the association and never again.
pub proof fn lemma_lazy_init_once<V>(
    m0: Map<u64, V>,
    t0: Map<u64, int>,
    m1: Map<u64, V>,
    t1: Map<u64, int>,
    m2: Map<u64, V>,
    t2: Map<u64, int>,
    tid: u64,
)
    requires
        touch_tally(m0, t0, m1, t1, tid),
        touch_tally(m1, t1, m2, t2, tid),
    ensures
        t2 == t1,
        !m0.contains_key(tid) ==> tally(t1, tid) == tally(t0, tid) + 1,
        m0.contains_key(tid) ==> t1 == t0,
{
}

/// The total of an integer sequence.
pub open spec fn sum_int(s: Seq<int>) -> int
    decreases s.len(),
{
    if s.len() == 0 {
        0
    } else {
        sum_int(s.drop_last()) + s.last()
    }
}

/// An accumulator threaded through additions ends at the seed plus the
/// total: the heart of fold completeness.
pub proof fn lemma_fold_chain_sum(ws: Seq<int>, vs: Seq<int>)
    requires
        ws.len() == vs.len() + 1,
        forall|i: int| 0 <= i < vs.len() ==> ws[i + 1] == ws[i] + vs[i],
    ensures
        ws[vs.len() as int] == ws[0] + sum_int(vs),
    decreases vs.len(),
{
    if vs.len() > 0 {
        assert(forall|i: int|
            0 <= i < vs.len() - 1 ==> ws.drop_last()[i + 1] == ws.drop_last()[i]
                + vs.drop_last()[i]);
        lemma_fold_chain_sum(ws.drop_last(), vs.drop_last());
    }
}

/// Fold completeness: any result a values-only fold with an adding step can
/// produce is the seed plus the sum of every association's value, whatever
/// order the associations were visited in.
pub proof fn lemma_fold_values_sum<G: Fn(i64, &i64) -> i64>(
    g: G,
    z: i64,
    ks: Seq<u64>,
    m: Map<u64, i64>,
    r: i64,
)
    requires
        folds_values(g, z, ks, m, r),
        forall|w: i64, v: &i64, w2: i64| call_ensures(g, (w, v), w2) ==> w2 == w + *v,
    ensures
        r == z + sum_int(ks.map_values(|t: u64| m[t] as int)),
{
    let ws = choose|ws: Seq<i64>| fold_values_steps(g, z, ks, m, ws, r);
    let wsi = ws.map_values(|w: i64| w as int);
    let vsi = ks.map_values(|t: u64| m[t] as int);
    assert forall|i: int| 0 <= i < vsi.len() implies wsi[i + 1] == wsi[i] + vsi[i] by {
        assert(call_ensures(g, (ws[i], &m[ks[i]]), ws[i + 1]));
    }
    lemma_fold_chain_sum(wsi, vsi);
    assert(r == wsi[vsi.len() as int]);
}

/// The accumulator after `k` steps of a chain of bounded additions: it
/// equals the seed plus the partial total, and stays small enough that the
/// next addition cannot overflow.
proof fn lemma_bounded_prefix<G: Fn(i64, &i64) -> i64>(
    g: G,
    z: i64,
    ks: Seq<u64>,
    m: Map<u64, i64>,
    ws: Seq<i64>,
    k: int,
    bound: int,
)
    requires
        ws.len() == ks.len() + 1,
        ws[0] == z,
        forall|i: int| 0 <= i < ks.len() ==> call_ensures(g, (ws[i], &m[ks[i]]), ws[i + 1]),
        0 <= z,
        0 <= bound,
        forall|i: int| 0 <= i < ks.len() ==> 0 <= #[trigger] m[ks[i]] <= bound,
        z + ks.len() * bound <= i64::MAX,
        forall|w: i64, v: &i64, w2: i64|
            call_ensures(g, (w, v), w2) && i64::MIN <= w + *v <= i64::MAX ==> w2 == w + *v,
        0 <= k <= ks.len(),
    ensures
        ws[k] == z + sum_int(ks.map_values(|t: u64| m[t] as int).take(k)),
        z <= ws[k] <= z + k * bound,
    decreases k,
{
    let vsi = ks.map_values(|t: u64| m[t] as int);
    if k == 0 {
        assert(vsi.take(0) =~= Seq::<int>::empty());
    } else {
        lemma_bounded_prefix(g, z, ks, m, ws, k - 1, bound);
        let w = ws[k - 1];
        let v = m[ks[k - 1]];
        assert(call_ensures(g, (w, &v), ws[k]));
        assert((k - 1) * bound + bound == k * bound) by (nonlinear_arith);
        assert(z + k * bound <= z + ks.len() * bound) by (nonlinear_arith)
            requires
                k <= ks.len(),
                0 <= bound,
        ;
        assert(i64::MIN <= w + v <= i64::MAX);
        assert(ws[k] == w + v);
        assert(vsi.take(k).drop_last() =~= vsi.take(k - 1));
        assert(vsi.take(k).last() == vsi[k - 1]);
    }
}

/// Fold completeness under real arithmetic: when every value lies in
/// `0..=bound`, the seed is non-negative, and seed plus the largest possible
/// total fits in an `i64`, a values-only fold whose step adds exactly
/// whenever the exact sum fits — as a step built on a checked addition
/// promises — returns the seed plus the sum of every association's value.
pub proof fn lemma_fold_values_sum_bounded<G: Fn(i64, &i64) -> i64>(
    g: G,
    z: i64,
    ks: Seq<u64>,
    m: Map<u64, i64>,
    r: i64,
    bound: int,
)
    requires
        folds_values(g, z, ks, m, r),
        0 <= z,
        0 <= bound,
        forall|i: int| 0 <= i < ks.len() ==> 0 <= #[trigger] m[ks[i]] <= bound,
        z + ks.len() * bound <= i64::MAX,
        forall|w: i64, v: &i64, w2: i64|
            call_ensures(g, (w, v), w2) && i64::MIN <= w + *v <= i64::MAX ==> w2 == w + *v,
    ensures
        r == z + sum_int(ks.map_values(|t: u64| m[t] as int)),
{
    let ws = choose|ws: Seq<i64>| fold_values_steps(g, z, ks, m, ws, r);
    lemma_bounded_prefix(g, z, ks, m, ws, ks.len() as int, bound);
    assert(ks.map_values(|t: u64| m[t] as int).take(ks.len() as int) =~= ks.map_values(
        |t: u64| m[t] as int,
    ));
}

/// Draining leaves nothing to see: a snapshot taken of an emptied map is
/// itself empty.
pub proof fn lemma_probe_after_drain<V: Clone>(r: Map<u64, V>)
    requires
        probe_relates(Map::<u64, V>::empty(), r),
    ensures
        r == Map::<u64, V>::empty(),
{
    assert(r =~= Map::<u64, V>::empty());
}

/// Probing is non-destructive: when cloning a value always reproduces it,
/// two snapshots of the same state are one and the same map.
pub proof fn lemma_probe_repeatable<V: Clone>(src: Map<u64, V>, r1: Map<u64, V>, r2: Map<u64, V>)
    requires
        probe_relates(src, r1),
        probe_relates(src, r2),
        forall|a: V, b: V| cloned::<V>(a, b) ==> b == a,
    ensures
        r1 == r2,
{
    assert forall|t: u64| r1.contains_key(t) implies r1[t] == r2[t] by {
        assert(cloned::<V>(src[t], r1[t]));
        assert(cloned::<V>(src[t], r2[t]));
    }
    assert(r1 =~= r2);
}

} // verus!
