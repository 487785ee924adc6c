//! Reachability by steps of a relation on node indices: the sets of nodes within `k` steps
//! of a start node, the breadth-first layers they form, and walks.
use vstd::prelude::*;

verus! {

/// The nodes that one step of `step` leads to from some node of `from`.
pub open spec fn succ(step: spec_fn(nat, nat) -> bool, from: Set<nat>) -> Set<nat> {
    Set::new(|v: nat| exists|u: nat| from.contains(u) && #[trigger] step(u, v))
}

/// The nodes reachable from `start` in at most `k` steps.
pub open spec fn reach(step: spec_fn(nat, nat) -> bool, start: nat, k: nat) -> Set<nat>
    decreases k,
{
    if k == 0 {
        set![start]
    } else {
        let r = reach(step, start, (k - 1) as nat);
        r.union(succ(step, r))
    }
}

/// `v` is exactly `d` steps from `start`: reachable in `d` steps and not in fewer.
pub open spec fn at_distance(step: spec_fn(nat, nat) -> bool, start: nat, v: nat, d: nat) -> bool {
    reach(step, start, d).contains(v) && (d == 0 || !reach(step, start, (d - 1) as nat).contains(v))
}

/// `v` is reachable from `start` in some number of steps.
pub open spec fn reachable(step: spec_fn(nat, nat) -> bool, start: nat, v: nat) -> bool {
    exists|k: nat| #[trigger] reach(step, start, k).contains(v)
}

/// `w` is a walk along `step`.
pub open spec fn is_walk(step: spec_fn(nat, nat) -> bool, w: Seq<nat>) -> bool {
    forall|k: int| 0 <= k < w.len() - 1 ==> #[trigger] step(w[k], w[k + 1])
}

pub proof fn lemma_reach_start(step: spec_fn(nat, nat) -> bool, start: nat, k: nat)
    ensures
        reach(step, start, k).contains(start),
    decreases k,
{
    if k > 0 {
        lemma_reach_start(step, start, (k - 1) as nat);
    }
}

pub proof fn lemma_reach_mono(step: spec_fn(nat, nat) -> bool, start: nat, a: nat, b: nat)
    requires
        a <= b,
    ensures
        reach(step, start, a).subset_of(reach(step, start, b)),
    decreases b - a,
{
    if a < b {
        lemma_reach_mono(step, start, a, (b - 1) as nat);
    }
}

/// One more step adds exactly the successors of the outermost layer.
pub proof fn lemma_reach_next(step: spec_fn(nat, nat) -> bool, start: nat, d: nat)
    ensures
        forall|v: nat| #[trigger] reach(step, start, d + 1).contains(v) <==> (reach(step, start, d).contains(v)
            || exists|u: nat| at_distance(step, start, u, d) && #[trigger] step(u, v)),
{
    let r = reach(step, start, d);
    assert forall|v: nat| #[trigger] reach(step, start, d + 1).contains(v) <==> (r.contains(v) || exists|u: nat|
        at_distance(step, start, u, d) && #[trigger] step(u, v)) by {
        if reach(step, start, d + 1).contains(v) && !r.contains(v) {
            let u = choose|u: nat| r.contains(u) && #[trigger] step(u, v);
            if d > 0 && reach(step, start, (d - 1) as nat).contains(u) {
                assert(succ(step, reach(step, start, (d - 1) as nat)).contains(v));
                assert(false);
            }
            assert(at_distance(step, start, u, d));
        }
        if exists|u: nat| at_distance(step, start, u, d) && #[trigger] step(u, v) {
            let u = choose|u: nat| at_distance(step, start, u, d) && #[trigger] step(u, v);
            assert(succ(step, r).contains(v));
        }
    }
}

/// A node at distance `d > 0` has a predecessor at distance `d - 1`.
pub proof fn lemma_predecessor(step: spec_fn(nat, nat) -> bool, start: nat, v: nat, d: nat)
    requires
        d > 0,
        at_distance(step, start, v, d),
    ensures
        exists|u: nat| at_distance(step, start, u, (d - 1) as nat) && #[trigger] step(u, v),
{
    lemma_reach_next(step, start, (d - 1) as nat);
    assert(reach(step, start, d).contains(v));
    assert(reach(step, start, ((d - 1) + 1) as nat).contains(v));
}

/// Every node has at most one distance.
pub proof fn lemma_distance_unique(step: spec_fn(nat, nat) -> bool, start: nat, v: nat, d1: nat, d2: nat)
    requires
        at_distance(step, start, v, d1),
        at_distance(step, start, v, d2),
    ensures
        d1 == d2,
{
    if d1 < d2 {
        lemma_reach_mono(step, start, d1, (d2 - 1) as nat);
    } else if d2 < d1 {
        lemma_reach_mono(step, start, d2, (d1 - 1) as nat);
    }
}

/// A reachable node has a distance, and no node closer than its distance.
pub proof fn lemma_has_distance(step: spec_fn(nat, nat) -> bool, start: nat, v: nat, k: nat)
    requires
        reach(step, start, k).contains(v),
    ensures
        exists|d: nat| d <= k && #[trigger] at_distance(step, start, v, d),
    decreases k,
{
    if k == 0 || !reach(step, start, (k - 1) as nat).contains(v) {
        assert(at_distance(step, start, v, k));
    } else {
        lemma_has_distance(step, start, v, (k - 1) as nat);
        let d = choose|d: nat| d <= (k - 1) as nat && #[trigger] at_distance(step, start, v, d);
        assert(at_distance(step, start, v, d));
    }
}

/// Once a layer is empty, no later step reaches anything new.
pub proof fn lemma_reach_stable(step: spec_fn(nat, nat) -> bool, start: nat, d: nat, k: nat)
    requires
        forall|u: nat| !#[trigger] at_distance(step, start, u, d),
        d <= k,
    ensures
        reach(step, start, k) == reach(step, start, d),
    decreases k - d,
{
    if k > d {
        lemma_reach_stable(step, start, d, (k - 1) as nat);
        lemma_reach_next(step, start, (k - 1) as nat);
        let r = reach(step, start, (k - 1) as nat);
        assert forall|u: nat| !#[trigger] at_distance(step, start, u, (k - 1) as nat) by {
            if at_distance(step, start, u, (k - 1) as nat) {
                if k - 1 > d {
                    lemma_reach_stable(step, start, d, (k - 2) as nat);
                    assert(reach(step, start, (k - 2) as nat) == reach(step, start, d));
                    assert(reach(step, start, (k - 1) as nat) == reach(step, start, d));
                }
            }
        }
        assert forall|v: nat| #[trigger] reach(step, start, k).contains(v) implies r.contains(v) by {
            if !r.contains(v) {
                assert(reach(step, start, ((k - 1) + 1) as nat).contains(v));
                let u = choose|u: nat| at_distance(step, start, u, (k - 1) as nat) && #[trigger] step(u, v);
                assert(!at_distance(step, start, u, (k - 1) as nat));
            }
        }
        assert(reach(step, start, k) =~= r);
    }
}

/// Nodes reachable in `k` steps are reachable; an unreachable node is in no `reach` set.
pub proof fn lemma_unreachable(step: spec_fn(nat, nat) -> bool, start: nat, v: nat, d: nat)
    requires
        forall|u: nat| !#[trigger] at_distance(step, start, u, d),
        !reach(step, start, d).contains(v),
    ensures
        !reachable(step, start, v),
{
    assert forall|k: nat| !#[trigger] reach(step, start, k).contains(v) by {
        if k <= d {
            lemma_reach_mono(step, start, k, d);
        } else {
            lemma_reach_stable(step, start, d, k);
        }
    }
}

/// The nodes of `reach` lie below `n` when `start` does and every step ends below `n`.
pub proof fn lemma_reach_bounded(step: spec_fn(nat, nat) -> bool, start: nat, n: nat, k: nat)
    requires
        start < n,
        forall|u: nat, v: nat| #[trigger] step(u, v) ==> v < n,
    ensures
        forall|v: nat| #[trigger] reach(step, start, k).contains(v) ==> v < n,
    decreases k,
{
    if k > 0 {
        lemma_reach_bounded(step, start, n, (k - 1) as nat);
        let r = reach(step, start, (k - 1) as nat);
        assert forall|v: nat| #[trigger] reach(step, start, k).contains(v) implies v < n by {
            if !r.contains(v) {
                let u = choose|u: nat| r.contains(u) && #[trigger] step(u, v);
            }
        }
    }
}

/// A walk of `d` steps from `start` ends in `reach(d)`.
pub proof fn lemma_walk_reach(step: spec_fn(nat, nat) -> bool, w: Seq<nat>)
    requires
        w.len() >= 1,
        is_walk(step, w),
    ensures
        reach(step, w[0], (w.len() - 1) as nat).contains(w.last()),
    decreases w.len(),
{
    if w.len() > 1 {
        let w2 = w.drop_last();
        assert forall|k: int| 0 <= k < w2.len() - 1 implies #[trigger] step(w2[k], w2[k + 1]) by {
            assert(step(w[k], w[k + 1]));
        }
        lemma_walk_reach(step, w2);
        let k = w.len() - 2;
        assert(step(w[k], w[k + 1]));
        assert(w2.last() == w[k]);
        assert(succ(step, reach(step, w[0], (w2.len() - 1) as nat)).contains(w.last()));
    } else {
        lemma_reach_start(step, w[0], 0);
    }
}

} // verus!
