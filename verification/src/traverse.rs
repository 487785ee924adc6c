//! Traversals of the knowledge graph: breadth-first and depth-first walks, shortest paths
//! and lineage chains, each stated over the layers of reachability by filtered steps.
use vstd::prelude::*;

use crate::graph::{
    graph_wf, has_path, incident_in, lemma_path_index, path_index, paths_unique, EdgeClass, EdgeData,
    EdgeView, KnowledgeGraph, NodeView,
};
use crate::reach::{
    at_distance, is_walk, lemma_distance_unique, lemma_has_distance, lemma_predecessor, lemma_reach_bounded,
    lemma_reach_mono, lemma_reach_next, lemma_reach_stable, lemma_reach_start, lemma_unreachable, lemma_walk_reach,
    reach, reachable,
};

verus! {

// ---------------------------------------------------------------------------
// Traversal filters and steps
// ---------------------------------------------------------------------------
/// The edge-type filter as text.
pub open spec fn filter_view(f: Option<&[String]>) -> Option<Seq<Seq<char>>> {
    match f {
        Some(ts) => Some(ts@.map_values(|x: String| x@)),
        None => None,
    }
}

/// An edge with data `d` passes the edge-type filter and the class filter.
pub open spec fn edge_allowed(d: EdgeData, types: Option<Seq<Seq<char>>>, class: Option<EdgeClass>) -> bool {
    &&& match types {
        Some(ts) => ts.contains(d.0),
        None => true,
    }
    &&& match class {
        Some(c) => d.3 == c,
        None => true,
    }
}

/// Each filter narrows on its own: an edge passes exactly when its type is among the listed
/// types (if a type filter is given) and, independently, its class is the one asked for (if
/// a class filter is given).
pub proof fn law_edge_filters(d: EdgeData, types: Option<Seq<Seq<char>>>, class: Option<EdgeClass>)
    ensures
        edge_allowed(d, types, class) ==> (class matches Some(c) ==> d.3 == c),
        edge_allowed(d, types, class) ==> (types matches Some(ts) ==> ts.contains(d.0)),
        edge_allowed(d, types, class) ==> edge_allowed(d, types, None) && edge_allowed(d, None, class),
        edge_allowed(d, types, None) && edge_allowed(d, None, class) ==> edge_allowed(d, types, class),
        edge_allowed(d, None, None),
        edge_allowed(d, Some(seq![d.0]), Some(d.3)),
{
    assert(seq![d.0][0] == d.0);
}

/// A filtered step goes along one edge that passes both filters: of a listed type (when
/// types are given) and of the asked class (when a class is given); and it is a step of
/// the traversal with either filter dropped.
pub proof fn law_filtered_step(es: Seq<EdgeView>, types: Option<Seq<Seq<char>>>, class: Option<EdgeClass>, u: nat, v: nat)
    ensures
        forward_step(es, types, class)(u, v) <==> exists|e: int| 0 <= e < es.len() && #[trigger] es[e].0 == u && es[e].1 == v
            && (types matches Some(ts) ==> ts.contains(es[e].2.0)) && (class matches Some(c) ==> es[e].2.3 == c),
        forward_step(es, types, class)(u, v) ==> forward_step(es, types, None)(u, v) && forward_step(es, None, class)(u, v),
{
    if forward_step(es, types, class)(u, v) {
        let e = choose|e: int| 0 <= e < es.len() && #[trigger] es[e].0 == u && es[e].1 == v && edge_allowed(es[e].2, types, class);
        law_edge_filters(es[e].2, types, class);
        assert(es[e].0 == u);
    }
    if exists|e: int| 0 <= e < es.len() && #[trigger] es[e].0 == u && es[e].1 == v && (types matches Some(ts) ==> ts.contains(
        es[e].2.0,
    )) && (class matches Some(c) ==> es[e].2.3 == c) {
        let e = choose|e: int| 0 <= e < es.len() && #[trigger] es[e].0 == u && es[e].1 == v && (types matches Some(ts) ==> ts.contains(
            es[e].2.0,
        )) && (class matches Some(c) ==> es[e].2.3 == c);
        assert(edge_allowed(es[e].2, types, class));
    }
}

/// One step forward along an edge that passes the filters.
pub open spec fn forward_step(es: Seq<EdgeView>, types: Option<Seq<Seq<char>>>, class: Option<EdgeClass>) -> spec_fn(nat, nat) -> bool {
    |u: nat, v: nat| exists|e: int| 0 <= e < es.len() && #[trigger] es[e].0 == u && es[e].1 == v && edge_allowed(es[e].2, types, class)
}

/// `out` lists, as `(path, depth)`, exactly the nodes at distance 1 to `max_depth` from
/// `start`, each once, in order of distance.
pub open spec fn layered_listing(
    ns: Seq<NodeView>,
    step: spec_fn(nat, nat) -> bool,
    start: nat,
    max_depth: nat,
    out: Seq<(String, usize)>,
) -> bool {
    &&& forall|k: int| 0 <= k < out.len() ==> 1 <= #[trigger] out[k].1 <= max_depth && exists|v: nat| v < ns.len()
        && ns[v as int].0 == out[k].0@ && at_distance(step, start, v, out[k].1 as nat)
    &&& forall|v: nat, d: nat| v < ns.len() && 1 <= d <= max_depth && #[trigger] at_distance(step, start, v, d)
        ==> exists|k: int| 0 <= k < out.len() && #[trigger] out[k].0@ == ns[v as int].0 && out[k].1 == d
    &&& forall|k: int, l: int| 0 <= k < l < out.len() ==> #[trigger] out[k].0@ != #[trigger] out[l].0@
    &&& forall|k: int, l: int| 0 <= k < l < out.len() ==> #[trigger] out[k].1 <= #[trigger] out[l].1
}

/// The edge type `t` is one of `types`.
fn type_listed(types: &[String], t: &str) -> (r: bool)
    ensures
        r == types@.map_values(|x: String| x@).contains(t@),
{
    let mut i: usize = 0;
    while i < types.len()
        invariant
            i <= types.len(),
            forall|j: int| 0 <= j < i ==> types@[j]@ != t@,
        decreases types.len() - i,
    {
        if crate::text::str_eq(types[i].as_str(), t) {
            proof {
                assert(types@.map_values(|x: String| x@)[i as int] == t@);
            }
            return true;
        }
        i += 1;
    }
    proof {
        let tv = types@.map_values(|x: String| x@);
        if tv.contains(t@) {
            let j = choose|j: int| 0 <= j < tv.len() && #[trigger] tv[j] == t@;
            assert(types@[j]@ == t@);
        }
    }
    false
}

/// A vector of `n` times `false`.
pub(crate) fn all_false(n: usize) -> (v: Vec<bool>)
    ensures
        v.len() == n,
        forall|i: int| 0 <= i < n ==> !v[i],
{
    let mut v: Vec<bool> = Vec::new();
    while v.len() < n
        invariant
            v.len() <= n,
            forall|i: int| 0 <= i < v.len() ==> !v[i],
        decreases n - v.len(),
    {
        v.push(false);
    }
    v
}

/// A filtered step ends at an existing node.
pub proof fn lemma_step_bounded(ns: Seq<NodeView>, es: Seq<EdgeView>, types: Option<Seq<Seq<char>>>, class: Option<EdgeClass>)
    requires
        graph_wf(ns, es),
    ensures
        forall|u: nat, v: nat| #[trigger] forward_step(es, types, class)(u, v) ==> v < ns.len(),
{
    assert forall|u: nat, v: nat| #[trigger] forward_step(es, types, class)(u, v) implies v < ns.len() by {
        let e = choose|e: int| 0 <= e < es.len() && #[trigger] es[e].0 == u && es[e].1 == v && edge_allowed(es[e].2, types, class);
    }
}

/// Appending the next layer to a listing of layers `1..=depth` lists layers `1..=depth+1`.
proof fn lemma_layered_extend_members(
    ns: Seq<NodeView>,
    step: spec_fn(nat, nat) -> bool,
    st: nat,
    depth: nat,
    d1: nat,
    res0: Seq<(String, usize)>,
    next: Seq<usize>,
    res1: Seq<(String, usize)>,
)
    requires
        d1 == depth + 1,
        ns.len() <= u32::MAX,
        paths_unique(ns),
        layered_listing(ns, step, st, depth, res0),
        forall|m: int| 0 <= m < next.len() ==> #[trigger] next[m] < ns.len() && at_distance(step, st, next[m] as nat, d1),
        forall|v: nat| #[trigger] at_distance(step, st, v, d1) ==> next.contains(v as usize),
        forall|m: int, l: int| 0 <= m < l < next.len() ==> #[trigger] next[m] != #[trigger] next[l],
        res1.len() == res0.len() + next.len(),
        forall|k: int| 0 <= k < res0.len() ==> #[trigger] res1[k] == res0[k],
        forall|m: int| 0 <= m < next.len() ==> #[trigger] res1[res0.len() + m].0@ == ns[next[m] as int].0
            && res1[res0.len() + m].1 == d1,
    ensures
        forall|k: int| 0 <= k < res1.len() ==> 1 <= #[trigger] res1[k].1 <= d1 && exists|v: nat| v < ns.len()
            && ns[v as int].0 == res1[k].0@ && at_distance(step, st, v, res1[k].1 as nat),
        forall|v: nat, d: nat| v < ns.len() && 1 <= d <= d1 && #[trigger] at_distance(step, st, v, d)
            ==> exists|k: int| 0 <= k < res1.len() && #[trigger] res1[k].0@ == ns[v as int].0 && res1[k].1 == d,
{
    let b = res0.len() as int;
    assert forall|k: int| 0 <= k < res1.len() implies 1 <= #[trigger] res1[k].1 <= d1 && exists|v: nat| v < ns.len()
        && ns[v as int].0 == res1[k].0@ && at_distance(step, st, v, res1[k].1 as nat) by {
        if k >= b {
            let m = k - b;
            assert(res1[b + m].0@ == ns[next[m] as int].0);
            let v = next[m] as nat;
            assert(ns[v as int].0 == res1[k].0@);
        } else {
            assert(res1[k] == res0[k]);
            assert(1 <= res0[k].1 <= depth);
        }
    }
    assert forall|v: nat, d: nat| v < ns.len() && 1 <= d <= d1 && #[trigger] at_distance(step, st, v, d)
        implies exists|k: int| 0 <= k < res1.len() && #[trigger] res1[k].0@ == ns[v as int].0 && res1[k].1 == d by {
        if d == d1 {
            assert(next.contains(v as usize));
            let m = choose|m: int| 0 <= m < next.len() && next[m] == v as usize;
            assert(res1[b + m].0@ == ns[next[m] as int].0);
            assert(res1[b + m].1 == d);
            assert(res1[b + m].0@ == ns[v as int].0);
        } else {
            let k = choose|k: int| 0 <= k < res0.len() && #[trigger] res0[k].0@ == ns[v as int].0 && res0[k].1 == d;
            assert(res1[k] == res0[k]);
        }
    }
}

/// Appending the next layer to a listing of layers `1..=depth` lists layers `1..=depth+1`.
proof fn lemma_layered_extend_order(
    ns: Seq<NodeView>,
    step: spec_fn(nat, nat) -> bool,
    st: nat,
    depth: nat,
    d1: nat,
    res0: Seq<(String, usize)>,
    next: Seq<usize>,
    res1: Seq<(String, usize)>,
)
    requires
        d1 == depth + 1,
        ns.len() <= u32::MAX,
        paths_unique(ns),
        layered_listing(ns, step, st, depth, res0),
        forall|m: int| 0 <= m < next.len() ==> #[trigger] next[m] < ns.len() && at_distance(step, st, next[m] as nat, d1),
        forall|v: nat| #[trigger] at_distance(step, st, v, d1) ==> next.contains(v as usize),
        forall|m: int, l: int| 0 <= m < l < next.len() ==> #[trigger] next[m] != #[trigger] next[l],
        res1.len() == res0.len() + next.len(),
        forall|k: int| 0 <= k < res0.len() ==> #[trigger] res1[k] == res0[k],
        forall|m: int| 0 <= m < next.len() ==> #[trigger] res1[res0.len() + m].0@ == ns[next[m] as int].0
            && res1[res0.len() + m].1 == d1,
    ensures
        forall|k: int, l: int| 0 <= k < l < res1.len() ==> #[trigger] res1[k].0@ != #[trigger] res1[l].0@,
        forall|k: int, l: int| 0 <= k < l < res1.len() ==> #[trigger] res1[k].1 <= #[trigger] res1[l].1,
{
    let b = res0.len() as int;
    assert forall|k: int, l: int| 0 <= k < l < res1.len() implies #[trigger] res1[k].0@ != #[trigger] res1[l].0@ by {
        if l >= b {
            let ml = l - b;
            assert(res1[b + ml].0@ == ns[next[ml] as int].0);
            let vl = next[ml] as nat;
            if k >= b {
                let mk = k - b;
                assert(res1[b + mk].0@ == ns[next[mk] as int].0);
                if next[mk] != next[ml] && ns[next[mk] as int].0 == ns[next[ml] as int].0 {
                    if next[mk] < next[ml] {
                        assert(ns[next[mk] as int].0 != ns[next[ml] as int].0);
                    } else {
                        assert(ns[next[ml] as int].0 != ns[next[mk] as int].0);
                    }
                }
            } else {
                assert(res1[k] == res0[k]);
                assert(1 <= res0[k].1 <= depth);
                let u = choose|u: nat| u < ns.len() && ns[u as int].0 == res0[k].0@ && at_distance(step, st, u, res0[k].1 as nat);
                if res1[k].0@ == res1[l].0@ {
                    if u != vl {
                        if u < vl {
                            assert(ns[u as int].0 != ns[vl as int].0);
                        } else {
                            assert(ns[vl as int].0 != ns[u as int].0);
                        }
                    }
                    lemma_distance_unique(step, st, u, res0[k].1 as nat, d1);
                }
            }
        } else {
            assert(res1[k] == res0[k] && res1[l] == res0[l]);
        }
    }
    assert forall|k: int, l: int| 0 <= k < l < res1.len() implies #[trigger] res1[k].1 <= #[trigger] res1[l].1 by {
        if l >= b {
            assert(res1[b + (l - b)].0@ == ns[next[l - b] as int].0);
            assert(res1[b + (l - b)].1 == d1);
            if k >= b {
                assert(res1[b + (k - b)].0@ == ns[next[k - b] as int].0);
                assert(res1[b + (k - b)].1 == d1);
            } else {
                assert(res1[k] == res0[k]);
                assert(res0[k].1 <= depth);
            }
        } else {
            assert(res1[k] == res0[k] && res1[l] == res0[l]);
        }
    }
}

/// Appending the next layer to a listing of layers `1..=depth` lists layers `1..=depth+1`.
pub proof fn lemma_layered_extend(
    ns: Seq<NodeView>,
    step: spec_fn(nat, nat) -> bool,
    st: nat,
    depth: nat,
    d1: nat,
    res0: Seq<(String, usize)>,
    next: Seq<usize>,
    res1: Seq<(String, usize)>,
)
    requires
        d1 == depth + 1,
        ns.len() <= u32::MAX,
        paths_unique(ns),
        layered_listing(ns, step, st, depth, res0),
        forall|m: int| 0 <= m < next.len() ==> #[trigger] next[m] < ns.len() && at_distance(step, st, next[m] as nat, d1),
        forall|v: nat| #[trigger] at_distance(step, st, v, d1) ==> next.contains(v as usize),
        forall|m: int, l: int| 0 <= m < l < next.len() ==> #[trigger] next[m] != #[trigger] next[l],
        res1.len() == res0.len() + next.len(),
        forall|k: int| 0 <= k < res0.len() ==> #[trigger] res1[k] == res0[k],
        forall|m: int| 0 <= m < next.len() ==> #[trigger] res1[res0.len() + m].0@ == ns[next[m] as int].0
            && res1[res0.len() + m].1 == d1,
    ensures
        layered_listing(ns, step, st, d1, res1),
{
    lemma_layered_extend_members(ns, step, st, depth, d1, res0, next, res1);
    lemma_layered_extend_order(ns, step, st, depth, d1, res0, next, res1);
}

/// When no node is at distance `depth`, a listing of layers `1..=depth` lists all layers up
/// to any larger bound.
pub proof fn lemma_layered_saturate(
    ns: Seq<NodeView>,
    step: spec_fn(nat, nat) -> bool,
    st: nat,
    depth: nat,
    max_depth: nat,
    res: Seq<(String, usize)>,
)
    requires
        layered_listing(ns, step, st, depth, res),
        forall|u: nat| !#[trigger] at_distance(step, st, u, depth),
        depth <= max_depth,
    ensures
        layered_listing(ns, step, st, max_depth, res),
{
    assert forall|v: nat, d: nat| v < ns.len() && 1 <= d <= max_depth && #[trigger] at_distance(step, st, v, d)
        implies exists|k: int| 0 <= k < res.len() && #[trigger] res[k].0@ == ns[v as int].0 && res[k].1 == d by {
        if d > depth {
            lemma_reach_stable(step, st, depth, d);
            lemma_reach_stable(step, st, depth, (d - 1) as nat);
        }
    }
}


/// The number of `false` entries.
pub open spec fn count_false(s: Seq<bool>) -> nat
    decreases s.len(),
{
    if s.len() == 0 {
        0
    } else {
        count_false(s.drop_last()) + if s.last() { 0nat } else { 1nat }
    }
}

pub proof fn lemma_count_false_set(s: Seq<bool>, i: int)
    requires
        0 <= i < s.len(),
        !s[i],
    ensures
        count_false(s.update(i, true)) + 1 == count_false(s),
    decreases s.len(),
{
    let t = s.update(i, true);
    if i < s.len() - 1 {
        lemma_count_false_set(s.drop_last(), i);
        assert(t.drop_last() == s.drop_last().update(i, true));
    } else {
        assert(t.drop_last() == s.drop_last());
    }
}

/// `out` lists, as `(path, depth)`, distinct nodes other than `start`, each reachable within
/// its depth, with depths from 1 to `max_depth`; every node one step from `start` is listed
/// with depth 1 when `max_depth` is at least 1; and every node one step from a node listed
/// below `max_depth` is listed too (but for `start`).
pub open spec fn reached_listing(
    ns: Seq<NodeView>,
    step: spec_fn(nat, nat) -> bool,
    start: nat,
    max_depth: nat,
    out: Seq<(String, usize)>,
) -> bool {
    &&& forall|k: int| 0 <= k < out.len() ==> 1 <= #[trigger] out[k].1 <= max_depth && exists|v: nat| v < ns.len()
        && v != start && ns[v as int].0 == out[k].0@ && reach(step, start, out[k].1 as nat).contains(v)
    &&& forall|k: int, l: int| 0 <= k < l < out.len() ==> #[trigger] out[k].0@ != #[trigger] out[l].0@
    &&& max_depth >= 1 ==> forall|v: nat| v < ns.len() && v != start && #[trigger] step(start, v)
        ==> exists|k: int| 0 <= k < out.len() && out[k].0@ == ns[v as int].0 && out[k].1 == 1
    &&& forall|k: int, u: nat, v: nat| #![trigger out[k], step(u, v)] 0 <= k < out.len() && u < ns.len() && ns[u as int].0 == out[k].0@
        && out[k].1 < max_depth && v < ns.len() && v != start && step(u, v) ==> exists|l: int| 0 <= l < out.len() && out[l].0@
        == ns[v as int].0
}


/// The state of the depth-first walk: a stack of `(node, depth)` and the nodes listed so far
/// (`ri`, with their `(path, depth)` in `res`).
pub open spec fn dfs_inv(
    ns: Seq<NodeView>,
    step: spec_fn(nat, nat) -> bool,
    stn: nat,
    n: nat,
    maxd: nat,
    first: bool,
    vis: Seq<bool>,
    stack: Seq<(usize, usize)>,
    ri: Seq<nat>,
    res: Seq<(String, usize)>,
) -> bool {
    &&& ns.len() == n
    &&& n <= u32::MAX
    &&& stn < n
    &&& vis.len() == n
    &&& vis[stn as int]
    &&& first ==> stack == seq![(stn as usize, 0usize)] && ri.len() == 0 && forall|v: nat| v < n ==> (#[trigger] vis[v as int] <==> v == stn)
    &&& forall|k: int| 0 <= k < stack.len() ==> #[trigger] stack[k].0 < n && vis[stack[k].0 as int] && stack[k].1 <= maxd
        && reach(step, stn, stack[k].1 as nat).contains(stack[k].0 as nat)
        && (!first ==> stack[k].0 != stn && stack[k].1 >= 1)
    &&& ri.len() == res.len()
    &&& forall|k: int| 0 <= k < ri.len() ==> #[trigger] ri[k] < n && ri[k] != stn && vis[ri[k] as int]
        && res[k].0@ == ns[ri[k] as int].0 && 1 <= res[k].1 <= maxd
        && reach(step, stn, res[k].1 as nat).contains(ri[k])
    &&& forall|k: int, l: int| 0 <= k < l < ri.len() ==> #[trigger] ri[k] != #[trigger] ri[l]
    &&& forall|k: int, l: int| 0 <= k < l < stack.len() ==> #[trigger] stack[k].0 != #[trigger] stack[l].0
    &&& forall|k: int, l: int| 0 <= k < ri.len() && 0 <= l < stack.len() ==> #[trigger] ri[k] != #[trigger] stack[l].0 as nat
    &&& forall|v: nat| v < n && #[trigger] vis[v as int] ==> v == stn || ri.contains(v) || exists|l: int|
        0 <= l < stack.len() && stack[l].0 == v
    &&& !first && maxd >= 1 ==> forall|v: nat| v < n && v != stn && #[trigger] step(stn, v) ==> (exists|k: int|
        0 <= k < ri.len() && ri[k] == v && res[k].1 == 1) || (exists|l: int| 0 <= l < stack.len() && stack[l] == (
        v as usize,
        1usize,
    ))
    &&& forall|k: int, v: nat| #![trigger ri[k], step(ri[k], v)] 0 <= k < ri.len() && res[k].1 < maxd && step(ri[k], v) ==> vis[v as int]
}

/// One round of the depth-first walk keeps its state: pop `(cur, depth)`, list it when
/// `depth > 0`, and below `maxd` push its newly marked successors with depth `d1`.
#[verifier::rlimit(60)]
pub proof fn lemma_dfs_step(
    ns: Seq<NodeView>,
    step: spec_fn(nat, nat) -> bool,
    stn: nat,
    n: nat,
    maxd: nat,
    cur: nat,
    depth: nat,
    d1: nat,
    first: bool,
    vis0: Seq<bool>,
    vis1: Seq<bool>,
    stack0: Seq<(usize, usize)>,
    stack1: Seq<(usize, usize)>,
    next: Seq<usize>,
    stack2: Seq<(usize, usize)>,
    ri0: Seq<nat>,
    ri1: Seq<nat>,
    res0: Seq<(String, usize)>,
    res1: Seq<(String, usize)>,
)
    requires
        dfs_inv(ns, step, stn, n, maxd, first, vis0, stack0, ri0, res0),
        forall|u: nat, v: nat| #[trigger] step(u, v) ==> v < n,
        stack0.len() > 0,
        cur == stack0.last().0 as nat,
        depth == stack0.last().1 as nat,
        stack1 == stack0.drop_last(),
        depth > 0 ==> ri1 == ri0.push(cur) && res1.len() == res0.len() + 1 && res1.drop_last() == res0
            && res1.last().0@ == ns[cur as int].0 && res1.last().1 == depth,
        depth == 0 ==> ri1 == ri0 && res1 == res0,
        depth < maxd ==> d1 == depth + 1,
        vis1.len() == n,
        forall|v: nat| v < n ==> (#[trigger] vis1[v as int] <==> (vis0[v as int] || (depth < maxd && step(cur, v)))),
        forall|m: int| 0 <= m < next.len() ==> #[trigger] next[m] < n && !vis0[next[m] as int] && depth < maxd
            && step(cur, next[m] as nat) && reach(step, stn, d1).contains(next[m] as nat),
        forall|m: int, l: int| 0 <= m < l < next.len() ==> #[trigger] next[m] != #[trigger] next[l],
        forall|v: nat| v < n && depth < maxd && step(cur, v) && !vis0[v as int] ==> #[trigger] next.contains(v as usize),
        stack2.len() == stack1.len() + next.len(),
        forall|k: int| 0 <= k < stack1.len() ==> #[trigger] stack2[k] == stack1[k],
        forall|m: int| 0 <= m < next.len() ==> #[trigger] stack2[stack1.len() + m] == (next[m], d1 as usize),
        d1 <= usize::MAX,
    ensures
        dfs_inv(ns, step, stn, n, maxd, false, vis1, stack2, ri1, res1),
{
    let b = stack1.len() as int;
    let top = stack0.len() - 1;
    assert(stack0.last() == stack0[top]);
    assert(stack0[top].0 < n && vis0[cur as int]);
    assert(first ==> cur == stn && depth == 0);
    assert(!first ==> cur != stn && depth >= 1);
    // the stack
    assert forall|k: int| 0 <= k < stack2.len() implies #[trigger] stack2[k].0 < n && vis1[stack2[k].0 as int] && stack2[k].1 <= maxd
        && reach(step, stn, stack2[k].1 as nat).contains(stack2[k].0 as nat)
        && stack2[k].0 != stn && stack2[k].1 >= 1 by {
        if k < b {
            assert(stack2[k] == stack0[k]);
            assert(!first);
        } else {
            let m = k - b;
            assert(stack2[b + m] == (next[m], d1 as usize));
            assert(vis0[stn as int]);
        }
    }
    // the listing
    assert forall|k: int| 0 <= k < ri1.len() implies #[trigger] ri1[k] < n && ri1[k] != stn && vis1[ri1[k] as int]
        && res1[k].0@ == ns[ri1[k] as int].0 && 1 <= res1[k].1 <= maxd
        && reach(step, stn, res1[k].1 as nat).contains(ri1[k]) by {
        if k < ri0.len() {
            assert(ri1[k] == ri0[k]);
            if depth > 0 {
                assert(res1[k] == res1.drop_last()[k]);
            }
        } else {
            assert(depth > 0);
            assert(res1[k] == res1.last());
        }
    }
    assert forall|k: int, l: int| 0 <= k < l < ri1.len() implies #[trigger] ri1[k] != #[trigger] ri1[l] by {
        if l >= ri0.len() {
            assert(ri1[l] == cur);
            assert(ri1[k] == ri0[k]);
            assert(ri0[k] != stack0[top].0 as nat);
        } else {
            assert(ri1[k] == ri0[k] && ri1[l] == ri0[l]);
        }
    }
    assert forall|k: int, l: int| 0 <= k < l < stack2.len() implies #[trigger] stack2[k].0 != #[trigger] stack2[l].0 by {
        if l >= b {
            assert(stack2[b + (l - b)] == (next[l - b], d1 as usize));
            if k >= b {
                assert(stack2[b + (k - b)] == (next[k - b], d1 as usize));
            } else {
                assert(stack2[k] == stack0[k]);
            }
        } else {
            assert(stack2[k] == stack0[k] && stack2[l] == stack0[l]);
        }
    }
    assert forall|k: int, l: int| 0 <= k < ri1.len() && 0 <= l < stack2.len() implies #[trigger] ri1[k] != #[trigger] stack2[l].0 as nat by {
        if l >= b {
            assert(stack2[b + (l - b)] == (next[l - b], d1 as usize));
            if k < ri0.len() {
                assert(ri1[k] == ri0[k]);
            } else {
                assert(ri1[k] == cur);
            }
        } else {
            assert(stack2[l] == stack0[l]);
            if k < ri0.len() {
                assert(ri1[k] == ri0[k]);
            } else {
                assert(ri1[k] == cur);
            }
        }
    }
    assert forall|v: nat| v < n && #[trigger] vis1[v as int] implies v == stn || ri1.contains(v) || exists|l: int|
        0 <= l < stack2.len() && stack2[l].0 == v by {
        if vis0[v as int] {
            if v != stn && !ri0.contains(v) {
                let l = choose|l: int| 0 <= l < stack0.len() && stack0[l].0 == v;
                if l == top {
                    if depth > 0 {
                        assert(ri1[ri0.len() as int] == v);
                    }
                } else {
                    assert(stack2[l] == stack0[l]);
                }
            } else if ri0.contains(v) {
                let k = choose|k: int| 0 <= k < ri0.len() && ri0[k] == v;
                assert(ri1[k] == v);
            }
        } else {
            assert(next.contains(v as usize));
            let m = choose|m: int| 0 <= m < next.len() && next[m] == v as usize;
            assert(stack2[b + m] == (next[m], d1 as usize));
        }
    }
    assert forall|k: int, v: nat| #![trigger ri1[k], step(ri1[k], v)] 0 <= k < ri1.len() && res1[k].1 < maxd && step(ri1[k], v)
        implies vis1[v as int] by {
        assert(v < n);
        if k < ri0.len() {
            assert(ri1[k] == ri0[k]);
            if depth > 0 {
                assert(res1[k] == res1.drop_last()[k]);
            }
            assert(vis0[v as int]);
        } else {
            assert(ri1[k] == cur);
            assert(res1[k] == res1.last());
        }
    }
    if maxd >= 1 {
        assert forall|v: nat| v < n && v != stn && #[trigger] step(stn, v) implies (exists|k: int|
            0 <= k < ri1.len() && ri1[k] == v && res1[k].1 == 1) || (exists|l: int| 0 <= l < stack2.len() && stack2[l] == (
            v as usize,
            1usize,
        )) by {
            if first {
                assert(!vis0[v as int]);
                assert(next.contains(v as usize));
                let m = choose|m: int| 0 <= m < next.len() && next[m] == v as usize;
                assert(stack2[b + m] == (next[m], d1 as usize));
            } else {
                if exists|k: int| 0 <= k < ri0.len() && ri0[k] == v && res0[k].1 == 1 {
                    let k = choose|k: int| 0 <= k < ri0.len() && ri0[k] == v && res0[k].1 == 1;
                    assert(ri1[k] == v);
                    if depth > 0 {
                        assert(res1[k] == res1.drop_last()[k]);
                    }
                } else {
                    let l = choose|l: int| 0 <= l < stack0.len() && stack0[l] == (v as usize, 1usize);
                    if l == top {
                        assert(ri1[ri0.len() as int] == v);
                        assert(res1[ri0.len() as int] == res1.last());
                    } else {
                        assert(stack2[l] == stack0[l]);
                    }
                }
            }
        }
    }
}


/// When the stack is empty the listing is complete.
pub proof fn lemma_dfs_done(
    ns: Seq<NodeView>,
    step: spec_fn(nat, nat) -> bool,
    stn: nat,
    n: nat,
    maxd: nat,
    first: bool,
    vis: Seq<bool>,
    stack: Seq<(usize, usize)>,
    ri: Seq<nat>,
    res: Seq<(String, usize)>,
)
    requires
        dfs_inv(ns, step, stn, n, maxd, first, vis, stack, ri, res),
        stack.len() == 0,
        paths_unique(ns),
    ensures
        reached_listing(ns, step, stn, maxd, res),
{
    assert(!first);
    assert forall|k: int| 0 <= k < res.len() implies 1 <= #[trigger] res[k].1 <= maxd && exists|v: nat| v < ns.len()
        && v != stn && ns[v as int].0 == res[k].0@ && reach(step, stn, res[k].1 as nat).contains(v) by {
        assert(ri[k] < n);
    }
    assert forall|k: int, l: int| 0 <= k < l < res.len() implies #[trigger] res[k].0@ != #[trigger] res[l].0@ by {
        assert(ri[k] != ri[l]);
        assert(ri[k] < n && ri[l] < n);
        if ri[k] < ri[l] {
            assert(ns[ri[k] as int].0 != ns[ri[l] as int].0);
        } else {
            assert(ns[ri[l] as int].0 != ns[ri[k] as int].0);
        }
    }
    if maxd >= 1 {
        assert forall|v: nat| v < ns.len() && v != stn && #[trigger] step(stn, v) implies exists|k: int|
            0 <= k < res.len() && res[k].0@ == ns[v as int].0 && res[k].1 == 1 by {
            let k = choose|k: int| 0 <= k < ri.len() && ri[k] == v && res[k].1 == 1;
            assert(res[k].0@ == ns[ri[k] as int].0);
        }
    }
    assert forall|k: int, u: nat, v: nat| #![trigger res[k], step(u, v)] 0 <= k < res.len() && u < ns.len() && ns[u as int].0
        == res[k].0@ && res[k].1 < maxd && v < ns.len() && v != stn && step(u, v) implies exists|l: int| 0 <= l < res.len()
        && res[l].0@ == ns[v as int].0 by {
        assert(ri[k] < n);
        assert(u == ri[k]) by {
            if u < ri[k] {
                assert(ns[u as int].0 != ns[ri[k] as int].0);
            } else if u > ri[k] {
                assert(ns[ri[k] as int].0 != ns[u as int].0);
            }
        }
        assert(step(ri[k], v));
        assert(vis[v as int]);
        assert(ri.contains(v));
        let l = choose|l: int| 0 <= l < ri.len() && ri[l] == v;
        assert(res[l].0@ == ns[ri[l] as int].0);
    }
}


pub proof fn lemma_count_false_all(s: Seq<bool>)
    requires
        forall|i: int| 0 <= i < s.len() ==> !s[i],
    ensures
        count_false(s) == s.len(),
    decreases s.len(),
{
    if s.len() > 0 {
        lemma_count_false_all(s.drop_last());
    }
}

/// `w` is a shortest walk along `step` from `st` to `tg` and `p` names its nodes.
pub open spec fn names_shortest_walk(
    ns: Seq<NodeView>,
    step: spec_fn(nat, nat) -> bool,
    st: nat,
    tg: nat,
    p: Seq<String>,
    w: Seq<nat>,
) -> bool {
    &&& w.len() == p.len()
    &&& w.len() >= 1
    &&& w[0] == st
    &&& w.last() == tg
    &&& is_walk(step, w)
    &&& forall|k: int| 0 <= k < w.len() ==> #[trigger] w[k] < ns.len() && p[k]@ == ns[w[k] as int].0
    &&& at_distance(step, st, tg, (w.len() - 1) as nat)
}

/// `p` names the nodes of a shortest walk along `step` from `st` to `tg`.
#[verifier::opaque]
pub open spec fn names_a_shortest_walk(
    ns: Seq<NodeView>,
    step: spec_fn(nat, nat) -> bool,
    st: nat,
    tg: nat,
    p: Seq<String>,
) -> bool {
    exists|w: Seq<nat>| #[trigger] names_shortest_walk(ns, step, st, tg, p, w)
}

impl KnowledgeGraph {
    /// The edge `e` passes the edge-type filter and the class filter.
    fn passes(&self, e: usize, types: Option<&[String]>, class: Option<EdgeClass>) -> (r: bool)
        requires
            e < self.edges().len(),
        ensures
            r == edge_allowed(self.edges()[e as int].2, filter_view(types), class),
    {
        let w = self.edge_at(e);
        let type_ok = match types {
            Some(ts) => type_listed(ts, w.edge_type.as_str()),
            None => true,
        };
        let class_ok = match class {
            Some(c) => w.class.accepts(c),
            None => true,
        };
        type_ok && class_ok
    }

    /// Marks the unvisited nodes that one filtered step leads to from `u`, appending them to
    /// `next` in the order petgraph lists the edges of `u`.
    fn expand_forward(
        &self,
        u: usize,
        types: Option<&[String]>,
        class: Option<EdgeClass>,
        visited: &mut Vec<bool>,
        next: &mut Vec<usize>,
    )
        requires
            self.wf(),
            u < self.nodes().len(),
            old(visited).len() == self.nodes().len(),
        ensures
            final(visited).len() == self.nodes().len(),
            forall|v: nat| v < self.nodes().len() ==> (#[trigger] final(visited)[v as int] <==> (old(visited)[v as int]
                || forward_step(self.edges(), filter_view(types), class)(u as nat, v))),
            final(next).len() >= old(next).len(),
            forall|m: int| 0 <= m < old(next).len() ==> #[trigger] final(next)[m] == old(next)[m],
            forall|m: int| old(next).len() <= m < final(next).len() ==> #[trigger] final(next)[m] < self.nodes().len()
                && !old(visited)[final(next)[m] as int]
                && forward_step(self.edges(), filter_view(types), class)(u as nat, final(next)[m] as nat),
            forall|m: int, l: int| old(next).len() <= m < l < final(next).len() ==> #[trigger] final(next)[m] != #[trigger] final(next)[l],
            forall|v: nat| v < self.nodes().len() && forward_step(self.edges(), filter_view(types), class)(u as nat, v)
                && !old(visited)[v as int] ==> #[trigger] final(next)@.subrange(old(next).len() as int, final(next).len() as int).contains(v as usize),
            count_false(final(visited)@) + final(next).len() == count_false(old(visited)@) + old(next).len(),
    {
        let ghost step = forward_step(self.edges(), filter_view(types), class);
        let ghost vis0 = visited@;
        let ghost nx0 = next@;
        let out = self.edges_at(u, true);
        let mut k: usize = 0;
        while k < out.len()
            invariant
                self.wf(),
                u < self.nodes().len(),
                step == forward_step(self.edges(), filter_view(types), class),
                vis0.len() == self.nodes().len(),
                visited.len() == self.nodes().len(),
                k <= out.len(),
                forall|j: int| 0 <= j < out.len() ==> {
                    &&& #[trigger] out[j].0 < self.edges().len()
                    &&& out[j].1 == self.edges()[out[j].0 as int].0
                    &&& out[j].2 == self.edges()[out[j].0 as int].1
                    &&& incident_in(self.edges(), out[j].0 as int, u as nat, true)
                },
                forall|e: int| 0 <= e < self.edges().len() && incident_in(self.edges(), e, u as nat, true)
                    ==> exists|j: int| 0 <= j < out.len() && #[trigger] out[j].0 == e,
                next.len() >= nx0.len(),
                forall|m: int| 0 <= m < nx0.len() ==> #[trigger] next[m] == nx0[m],
                forall|v: nat| v < self.nodes().len() ==> (#[trigger] visited[v as int] <==> (vis0[v as int]
                    || next@.subrange(nx0.len() as int, next.len() as int).contains(v as usize))),
                forall|m: int| nx0.len() <= m < next.len() ==> #[trigger] next[m] < self.nodes().len()
                    && !vis0[next[m] as int] && step(u as nat, next[m] as nat),
                forall|m: int, l: int| nx0.len() <= m < l < next.len() ==> #[trigger] next[m] != #[trigger] next[l],
                forall|j: int| 0 <= j < k && edge_allowed(self.edges()[out[j].0 as int].2, filter_view(types), class)
                    ==> #[trigger] visited[out[j].2 as int],
                count_false(visited@) + next.len() == count_false(vis0) + nx0.len(),
            decreases out.len() - k,
        {
            let (e, _src, v) = out[k];
            if self.passes(e, types, class) && !visited[v] {
                let ghost nx1 = next@;
                proof {
                    lemma_count_false_set(visited@, v as int);
                }
                visited.set(v, true);
                next.push(v);
                proof {
                    assert(step(u as nat, v as nat)) by {
                        assert(self.edges()[e as int].0 == u && self.edges()[e as int].1 == v);
                    }
                    assert forall|w: nat| w < self.nodes().len() implies (#[trigger] visited[w as int] <==> (vis0[w as int]
                        || next@.subrange(nx0.len() as int, next.len() as int).contains(w as usize))) by {
                        let sub0 = nx1.subrange(nx0.len() as int, nx1.len() as int);
                        let sub1 = next@.subrange(nx0.len() as int, next.len() as int);
                        assert(sub1 == sub0.push(v));
                        if sub0.contains(w as usize) {
                            let m = choose|m: int| 0 <= m < sub0.len() && sub0[m] == w as usize;
                            assert(sub1[m] == w as usize);
                        }
                        if sub1.contains(w as usize) && w != v {
                            let m = choose|m: int| 0 <= m < sub1.len() && sub1[m] == w as usize;
                            assert(sub0[m] == w as usize);
                        }
                        assert(sub1[sub0.len() as int] == v);
                    }
                    assert forall|m: int| nx0.len() <= m < next.len() - 1 implies next[m] != v by {
                        assert(nx1.subrange(nx0.len() as int, nx1.len() as int)[m - nx0.len()] == next[m]);
                    }
                }
            }
            k += 1;
        }
        proof {
            assert forall|v: nat| v < self.nodes().len() && step(u as nat, v) && !vis0[v as int]
                implies #[trigger] next@.subrange(nx0.len() as int, next.len() as int).contains(v as usize) by {
                let e = choose|e: int| 0 <= e < self.edges().len() && #[trigger] self.edges()[e].0 == u as nat
                    && self.edges()[e].1 == v && edge_allowed(self.edges()[e].2, filter_view(types), class);
                assert(incident_in(self.edges(), e, u as nat, true));
                let j = choose|j: int| 0 <= j < out.len() && #[trigger] out[j].0 == e;
                assert(visited[out[j].2 as int]);
            }
            assert forall|v: nat| v < self.nodes().len() implies (#[trigger] visited[v as int] <==> (vis0[v as int]
                || step(u as nat, v))) by {
                if next@.subrange(nx0.len() as int, next.len() as int).contains(v as usize) {
                    let m = choose|m: int| 0 <= m < next.len() - nx0.len()
                        && next@.subrange(nx0.len() as int, next.len() as int)[m] == v as usize;
                    assert(next[m + nx0.len()] == v as usize);
                }
            }
        }
    }

    /// The next breadth-first layer: the unvisited nodes one filtered step from `frontier`,
    /// which holds exactly the nodes at distance `depth`; they are marked visited.
    fn next_layer(
        &self,
        st: usize,
        depth: usize,
        frontier: &Vec<usize>,
        types: Option<&[String]>,
        class: Option<EdgeClass>,
        visited: &mut Vec<bool>,
    ) -> (next: Vec<usize>)
        requires
            self.wf(),
            st < self.nodes().len(),
            old(visited).len() == self.nodes().len(),
            forall|v: nat| v < self.nodes().len() ==> (#[trigger] old(visited)[v as int] <==> reach(
                forward_step(self.edges(), filter_view(types), class), st as nat, depth as nat).contains(v)),
            forall|j: int| 0 <= j < frontier.len() ==> #[trigger] frontier[j] < self.nodes().len() && at_distance(
                forward_step(self.edges(), filter_view(types), class), st as nat, frontier[j] as nat, depth as nat),
            forall|v: nat| #[trigger] at_distance(forward_step(self.edges(), filter_view(types), class), st as nat, v, depth as nat)
                ==> frontier@.contains(v as usize),
        ensures
            final(visited).len() == self.nodes().len(),
            forall|v: nat| v < self.nodes().len() ==> (#[trigger] final(visited)[v as int] <==> reach(
                forward_step(self.edges(), filter_view(types), class), st as nat, (depth + 1) as nat).contains(v)),
            forall|m: int| 0 <= m < next.len() ==> #[trigger] next[m] < self.nodes().len() && at_distance(
                forward_step(self.edges(), filter_view(types), class), st as nat, next[m] as nat, (depth + 1) as nat),
            forall|v: nat| #[trigger] at_distance(forward_step(self.edges(), filter_view(types), class), st as nat, v, (depth + 1) as nat)
                ==> next@.contains(v as usize),
            forall|m: int, l: int| 0 <= m < l < next.len() ==> #[trigger] next[m] != #[trigger] next[l],
            count_false(final(visited)@) + next.len() == count_false(old(visited)@),
    {
        let ghost step = forward_step(self.edges(), filter_view(types), class);
        let ghost n = self.nodes().len();
        let ghost cf0 = count_false(visited@);
        let mut next: Vec<usize> = Vec::new();
        let mut j: usize = 0;
        proof {
            lemma_reach_next(step, st as nat, depth as nat);
            lemma_step_bounded(self.nodes(), self.edges(), filter_view(types), class);
            lemma_reach_bounded(step, st as nat, n, (depth + 1) as nat);
        }
        while j < frontier.len()
            invariant
                self.wf(),
                n == self.nodes().len(),
                st < n,
                step == forward_step(self.edges(), filter_view(types), class),
                forall|u: nat, v: nat| #[trigger] step(u, v) ==> v < n,
                j <= frontier.len(),
                visited.len() == n,
                forall|jj: int| 0 <= jj < frontier.len() ==> #[trigger] frontier[jj] < n && at_distance(step, st as nat, frontier[jj] as nat, depth as nat),
                forall|v: nat| v < n ==> (#[trigger] visited[v as int] <==> (reach(step, st as nat, depth as nat).contains(v)
                    || next@.contains(v as usize))),
                forall|m: int| 0 <= m < next.len() ==> #[trigger] next[m] < n && at_distance(step, st as nat, next[m] as nat, (depth + 1) as nat),
                forall|m: int, l: int| 0 <= m < l < next.len() ==> #[trigger] next[m] != #[trigger] next[l],
                forall|jj: int, v: nat| 0 <= jj < j && v < n && #[trigger] step(frontier[jj] as nat, v) ==> visited[v as int],
                forall|v: nat| #[trigger] reach(step, st as nat, (depth + 1) as nat).contains(v) <==> (reach(step, st as nat, depth as nat).contains(v)
                    || exists|u: nat| at_distance(step, st as nat, u, depth as nat) && #[trigger] step(u, v)),
                count_false(visited@) + next.len() == cf0,
            decreases frontier.len() - j,
        {
            let ghost vis0 = visited@;
            let ghost nx0 = next@;
            let u = frontier[j];
            self.expand_forward(u, types, class, visited, &mut next);
            proof {
                assert forall|v: nat| v < n implies (#[trigger] visited[v as int] <==> (reach(step, st as nat, depth as nat).contains(v)
                    || next@.contains(v as usize))) by {
                    let sub = next@.subrange(nx0.len() as int, next.len() as int);
                    if next@.contains(v as usize) {
                        let m = choose|m: int| 0 <= m < next.len() && next[m] == v as usize;
                        if m < nx0.len() {
                            assert(nx0[m] == v as usize);
                        } else {
                            assert(sub[m - nx0.len()] == v as usize);
                        }
                    }
                    if nx0.contains(v as usize) {
                        let m = choose|m: int| 0 <= m < nx0.len() && nx0[m] == v as usize;
                        assert(next[m] == v as usize);
                    }
                    if sub.contains(v as usize) {
                        let m = choose|m: int| 0 <= m < sub.len() && sub[m] == v as usize;
                        assert(next[m + nx0.len()] == v as usize);
                    }
                }
                assert forall|m: int| 0 <= m < next.len() implies #[trigger] next[m] < n && at_distance(step, st as nat, next[m] as nat, (depth + 1) as nat) by {
                    if m >= nx0.len() {
                        let v = next[m] as nat;
                        assert(step(u as nat, v));
                        assert(reach(step, st as nat, (depth + 1) as nat).contains(v));
                        assert(!vis0[v as int]);
                    }
                }
                assert forall|m: int, l: int| 0 <= m < l < next.len() implies #[trigger] next[m] != #[trigger] next[l] by {
                    if m < nx0.len() && l >= nx0.len() {
                        let v = next[l];
                        assert(!vis0[v as int]);
                        assert(nx0[m] == next[m]);
                        assert(nx0.contains(next[m]));
                    }
                }
            }
            j += 1;
        }
        proof {
            assert forall|v: nat| v < n implies (#[trigger] visited[v as int] <==> reach(step, st as nat, (depth + 1) as nat).contains(v)) by {
                if reach(step, st as nat, (depth + 1) as nat).contains(v) && !reach(step, st as nat, depth as nat).contains(v) {
                    let u = choose|u: nat| at_distance(step, st as nat, u, depth as nat) && #[trigger] step(u, v);
                    assert(frontier@.contains(u as usize));
                    let jj = choose|jj: int| 0 <= jj < frontier.len() && frontier[jj] == u as usize;
                    assert(step(frontier[jj] as nat, v));
                }
                if next@.contains(v as usize) {
                    let m = choose|m: int| 0 <= m < next.len() && next[m] == v as usize;
                    assert(at_distance(step, st as nat, next[m] as nat, (depth + 1) as nat));
                }
            }
            assert forall|v: nat| #[trigger] at_distance(step, st as nat, v, (depth + 1) as nat) implies next@.contains(v as usize) by {
                assert(v < n);
                assert(visited[v as int]);
            }
        }
        next
    }

    /// Appends `(path, d)` for each node of `layer`, in order.
    fn append_layer(&self, results: &mut Vec<(String, usize)>, layer: &Vec<usize>, d: usize)
        requires
            forall|m: int| 0 <= m < layer.len() ==> #[trigger] layer[m] < self.nodes().len(),
        ensures
            final(results).len() == old(results).len() + layer.len(),
            forall|k: int| 0 <= k < old(results).len() ==> #[trigger] final(results)[k] == old(results)[k],
            forall|m: int| 0 <= m < layer.len() ==> #[trigger] final(results)[old(results).len() + m] == (
                final(results)[old(results).len() + m].0,
                d,
            ) && final(results)[old(results).len() + m].0@ == self.nodes()[layer[m] as int].0,
    {
        let ghost res0 = results@;
        let mut m: usize = 0;
        while m < layer.len()
            invariant
                m <= layer.len(),
                forall|mm: int| 0 <= mm < layer.len() ==> #[trigger] layer[mm] < self.nodes().len(),
                results.len() == res0.len() + m,
                forall|k: int| 0 <= k < res0.len() ==> #[trigger] results[k] == res0[k],
                forall|mm: int| 0 <= mm < m ==> #[trigger] results[res0.len() + mm] == (results[res0.len() + mm].0, d)
                    && results[res0.len() + mm].0@ == self.nodes()[layer[mm] as int].0,
            decreases layer.len() - m,
        {
            let node = self.node_at(layer[m]);
            let ghost r0 = results@;
            results.push((node.path.clone(), d));
            proof {
                assert forall|mm: int| 0 <= mm <= m implies #[trigger] results[res0.len() + mm] == (results[res0.len() + mm].0, d)
                    && results[res0.len() + mm].0@ == self.nodes()[layer[mm] as int].0 by {
                    if mm < m {
                        assert(results[res0.len() + mm] == r0[res0.len() + mm]);
                    }
                }
            }
            m += 1;
        }
    }

    /// Breadth-first traversal from `start` up to `max_depth` hops along the edges that pass
    /// the optional edge-type and class filters. Returns `(path, hops_from_start)` for every
    /// node reached except the start, nearest first.
    pub fn traverse_bfs(
        &self,
        start: &str,
        max_depth: usize,
        edge_type_filter: Option<&[String]>,
        edge_class_filter: Option<EdgeClass>,
    ) -> (r: Vec<(String, usize)>)
        requires
            self.wf(),
        ensures
            !has_path(self.nodes(), start@) ==> r.len() == 0,
            has_path(self.nodes(), start@) ==> layered_listing(
                self.nodes(),
                forward_step(self.edges(), filter_view(edge_type_filter), edge_class_filter),
                path_index(self.nodes(), start@) as nat,
                max_depth as nat,
                r@,
            ),
    {
        let st = match self.get_node(start) {
            Some(i) => i,
            None => {
                return Vec::new();
            },
        };
        proof {
            lemma_path_index(self.nodes(), start@, st as int);
        }
        let ghost step = forward_step(self.edges(), filter_view(edge_type_filter), edge_class_filter);
        let n = self.node_count();
        let mut visited = all_false(n);
        visited.set(st, true);
        let mut frontier: Vec<usize> = Vec::new();
        frontier.push(st);
        let mut results: Vec<(String, usize)> = Vec::new();
        let mut depth: usize = 0;
        proof {
            assert(reach(step, st as nat, 0) == set![st as nat]);
            assert forall|v: nat| at_distance(step, st as nat, v, 0) implies #[trigger] frontier@.contains(v as usize) by {
                assert(frontier[0] == st);
            }
        }
        while depth < max_depth && frontier.len() > 0
            invariant
                self.wf(),
                n == self.nodes().len(),
                st < n,
                step == forward_step(self.edges(), filter_view(edge_type_filter), edge_class_filter),
                depth <= max_depth,
                visited.len() == n,
                forall|v: nat| v < n ==> (#[trigger] visited[v as int] <==> reach(step, st as nat, depth as nat).contains(v)),
                forall|j: int| 0 <= j < frontier.len() ==> #[trigger] frontier[j] < n && at_distance(step, st as nat, frontier[j] as nat, depth as nat),
                forall|v: nat| #[trigger] at_distance(step, st as nat, v, depth as nat) ==> frontier@.contains(v as usize),
                layered_listing(self.nodes(), step, st as nat, depth as nat, results@),
            decreases max_depth - depth,
        {
            let next = self.next_layer(st, depth, &frontier, edge_type_filter, edge_class_filter, &mut visited);
            let ghost res0 = results@;
            self.append_layer(&mut results, &next, depth + 1);
            proof {
                assert forall|m: int| 0 <= m < next@.len() implies #[trigger] results@[res0.len() + m].0@ == self.nodes()[next@[m] as int].0
                    && results@[res0.len() + m].1 == (depth + 1) as nat by {
                    assert(results[res0.len() + m].0@ == self.nodes()[next[m] as int].0);
                    assert(results[res0.len() + m].1 == depth + 1);
                }
                lemma_layered_extend(self.nodes(), step, st as nat, depth as nat, (depth + 1) as nat, res0, next@, results@);
            }
            depth += 1;
            frontier = next;
        }
        proof {
            if depth < max_depth {
                assert forall|u: nat| !#[trigger] at_distance(step, st as nat, u, depth as nat) by {
                    if at_distance(step, st as nat, u, depth as nat) {
                        assert(frontier@.contains(u as usize));
                    }
                }
                lemma_layered_saturate(self.nodes(), step, st as nat, depth as nat, max_depth as nat, results@);
            }
        }
        results
    }
    /// Depth-first traversal from `start` up to `max_depth` hops along the edges that pass
    /// the optional edge-type and class filters. Returns `(path, hops_from_start)` for the
    /// nodes reached, except the start, in the order they leave the stack; a node's depth is
    /// that of the path by which it was first found.
    pub fn traverse_dfs(
        &self,
        start: &str,
        max_depth: usize,
        edge_type_filter: Option<&[String]>,
        edge_class_filter: Option<EdgeClass>,
    ) -> (r: Vec<(String, usize)>)
        requires
            self.wf(),
        ensures
            !has_path(self.nodes(), start@) ==> r.len() == 0,
            has_path(self.nodes(), start@) ==> reached_listing(
                self.nodes(),
                forward_step(self.edges(), filter_view(edge_type_filter), edge_class_filter),
                path_index(self.nodes(), start@) as nat,
                max_depth as nat,
                r@,
            ),
    {
        let st = match self.get_node(start) {
            Some(i) => i,
            None => {
                return Vec::new();
            },
        };
        proof {
            lemma_path_index(self.nodes(), start@, st as int);
            lemma_step_bounded(self.nodes(), self.edges(), filter_view(edge_type_filter), edge_class_filter);
        }
        let ghost step = forward_step(self.edges(), filter_view(edge_type_filter), edge_class_filter);
        let ghost stn = st as nat;
        let n = self.node_count();
        let mut visited = all_false(n);
        proof {
            lemma_count_false_set(visited@, st as int);
        }
        visited.set(st, true);
        let mut stack: Vec<(usize, usize)> = Vec::new();
        stack.push((st, 0));
        let mut results: Vec<(String, usize)> = Vec::new();
        let ghost mut ri: Seq<nat> = Seq::empty();
        let ghost mut first = true;
        proof {
            lemma_reach_start(step, stn, 0);
        }
        while stack.len() > 0
            invariant
                self.wf(),
                n == self.nodes().len(),
                st < n,
                stn == st as nat,
                step == forward_step(self.edges(), filter_view(edge_type_filter), edge_class_filter),
                forall|u: nat, v: nat| #[trigger] step(u, v) ==> v < n,
                dfs_inv(self.nodes(), step, stn, n as nat, max_depth as nat, first, visited@, stack@, ri, results@),
            decreases 2 * count_false(visited@) + stack.len(),
        {
            let ghost stack0 = stack@;
            let ghost vis0 = visited@;
            let ghost ri0 = ri;
            let ghost res0 = results@;
            let (cur, depth) = stack.pop().unwrap();
            proof {
                assert(stack@ == stack0.drop_last());
                assert((cur, depth) == stack0.last());
            }
            if depth > 0 {
                let node = self.node_at(cur);
                results.push((node.path.clone(), depth));
                proof {
                    ri = ri.push(cur as nat);
                    assert(results@.drop_last() == res0);
                }
            }
            let mut next: Vec<usize> = Vec::new();
            if depth < max_depth {
                self.expand_forward(cur, edge_type_filter, edge_class_filter, &mut visited, &mut next);
                proof {
                    assert(next@.subrange(0, next.len() as int) == next@);
                }
            }
            let ghost stack1 = stack@;
            let ghost vis1 = visited@;
            let d1: usize = if depth < max_depth { depth + 1 } else { depth };
            proof {
                if depth < max_depth {
                    lemma_reach_mono(step, stn, depth as nat, (depth + 1) as nat);
                    assert forall|m: int| 0 <= m < next.len() implies reach(step, stn, (depth + 1) as nat).contains(#[trigger] next[m] as nat) by {
                        let v = next[m] as nat;
                        assert(step(cur as nat, v));
                        assert(reach(step, stn, depth as nat).contains(cur as nat));
                        assert(crate::reach::succ(step, reach(step, stn, depth as nat)).contains(v));
                    }
                }
            }
            let mut m: usize = 0;
            while m < next.len()
                invariant
                    m <= next.len(),
                    next.len() > 0 ==> depth < max_depth && d1 == depth + 1,
                    stack.len() == stack1.len() + m,
                    forall|k: int| 0 <= k < stack1.len() ==> #[trigger] stack[k] == stack1[k],
                    forall|mm: int| 0 <= mm < m ==> #[trigger] stack[stack1.len() + mm] == (next[mm], d1),
                decreases next.len() - m,
            {
                stack.push((next[m], d1));
                m += 1;
            }
            proof {
                assert(vis1 == visited@);
                lemma_dfs_step(self.nodes(), step, stn, n as nat, max_depth as nat, cur as nat, depth as nat, d1 as nat, first,
                    vis0, visited@, stack0, stack1, next@, stack@, ri0, ri, res0, results@);
            }
            proof {
                first = false;
            }
        }
        proof {
            lemma_dfs_done(self.nodes(), step, stn, n as nat, max_depth as nat, first, visited@, stack@, ri, results@);
        }
        results
    }
    /// One filtered step leads from `u` to `v`.
    fn has_step(&self, u: usize, v: usize, types: Option<&[String]>, class: Option<EdgeClass>) -> (r: bool)
        requires
            u < self.nodes().len(),
        ensures
            r == forward_step(self.edges(), filter_view(types), class)(u as nat, v as nat),
    {
        let out = self.edges_at(u, true);
        let mut k: usize = 0;
        while k < out.len()
            invariant
                k <= out.len(),
                u < self.nodes().len(),
                forall|j: int| 0 <= j < out.len() ==> {
                    &&& #[trigger] out[j].0 < self.edges().len()
                    &&& out[j].1 == self.edges()[out[j].0 as int].0
                    &&& out[j].2 == self.edges()[out[j].0 as int].1
                    &&& incident_in(self.edges(), out[j].0 as int, u as nat, true)
                },
                forall|e: int| 0 <= e < self.edges().len() && incident_in(self.edges(), e, u as nat, true)
                    ==> exists|j: int| 0 <= j < out.len() && #[trigger] out[j].0 == e,
                forall|j: int| 0 <= j < k ==> !(#[trigger] out[j].2 == v && edge_allowed(self.edges()[out[j].0 as int].2, filter_view(types), class)),
            decreases out.len() - k,
        {
            let (e, _src, t) = out[k];
            if t == v && self.passes(e, types, class) {
                return true;
            }
            k += 1;
        }
        proof {
            let step = forward_step(self.edges(), filter_view(types), class);
            if step(u as nat, v as nat) {
                let e = choose|e: int| 0 <= e < self.edges().len() && #[trigger] self.edges()[e].0 == u as nat
                    && self.edges()[e].1 == v as nat && edge_allowed(self.edges()[e].2, filter_view(types), class);
                assert(incident_in(self.edges(), e, u as nat, true));
                let j = choose|j: int| 0 <= j < out.len() && #[trigger] out[j].0 == e;
                assert(out[j].2 == v);
            }
        }
        false
    }

    /// The first node of `layer` with a filtered step to `v`.
    fn first_parent(&self, layer: &Vec<usize>, v: usize, types: Option<&[String]>, class: Option<EdgeClass>) -> (u: usize)
        requires
            forall|j: int| 0 <= j < layer.len() ==> #[trigger] layer[j] < self.nodes().len(),
            exists|j: int| 0 <= j < layer.len() && forward_step(self.edges(), filter_view(types), class)(#[trigger] layer[j] as nat, v as nat),
        ensures
            layer@.contains(u),
            forward_step(self.edges(), filter_view(types), class)(u as nat, v as nat),
    {
        let mut j: usize = 0;
        while j < layer.len()
            invariant
                j <= layer.len(),
                forall|jj: int| 0 <= jj < layer.len() ==> #[trigger] layer[jj] < self.nodes().len(),
                forall|jj: int| 0 <= jj < j ==> !forward_step(self.edges(), filter_view(types), class)(#[trigger] layer[jj] as nat, v as nat),
                exists|jj: int| 0 <= jj < layer.len() && forward_step(self.edges(), filter_view(types), class)(#[trigger] layer[jj] as nat, v as nat),
            decreases layer.len() - j,
        {
            if self.has_step(layer[j], v, types, class) {
                return layer[j];
            }
            j += 1;
        }
        proof {
            let jj = choose|jj: int| 0 <= jj < layer.len() && forward_step(self.edges(), filter_view(types), class)(#[trigger] layer[jj] as nat, v as nat);
        }
        layer[0]
    }

    /// Find a shortest path between two nodes along the edges that pass the optional filters.
    /// Returns the path as a list of document paths, or `None` if a node is missing or
    /// no path exists. Of several shortest paths, the one that breadth-first search finds
    /// first is returned.
    pub fn shortest_path(
        &self,
        from: &str,
        to: &str,
        edge_type_filter: Option<&[String]>,
        edge_class_filter: Option<EdgeClass>,
    ) -> (r: Option<Vec<String>>)
        requires
            self.wf(),
        ensures
            !has_path(self.nodes(), from@) || !has_path(self.nodes(), to@) ==> r is None,
            has_path(self.nodes(), from@) && has_path(self.nodes(), to@) ==> (r is None <==> !reachable(
                forward_step(self.edges(), filter_view(edge_type_filter), edge_class_filter),
                path_index(self.nodes(), from@) as nat,
                path_index(self.nodes(), to@) as nat,
            )),
            r matches Some(p) ==> names_a_shortest_walk(
                self.nodes(),
                forward_step(self.edges(), filter_view(edge_type_filter), edge_class_filter),
                path_index(self.nodes(), from@) as nat,
                path_index(self.nodes(), to@) as nat,
                p@,
            ),
    {
        let st = match self.get_node(from) {
            Some(i) => i,
            None => {
                return None;
            },
        };
        let tg = match self.get_node(to) {
            Some(i) => i,
            None => {
                return None;
            },
        };
        proof {
            lemma_path_index(self.nodes(), from@, st as int);
            lemma_path_index(self.nodes(), to@, tg as int);
            lemma_step_bounded(self.nodes(), self.edges(), filter_view(edge_type_filter), edge_class_filter);
        }
        let ghost step = forward_step(self.edges(), filter_view(edge_type_filter), edge_class_filter);
        let ghost stn = st as nat;
        let n = self.node_count();
        let mut visited = all_false(n);
        proof {
            lemma_count_false_all(visited@);
            lemma_count_false_set(visited@, st as int);
        }
        visited.set(st, true);
        let mut first_layer: Vec<usize> = Vec::new();
        first_layer.push(st);
        let mut layers: Vec<Vec<usize>> = Vec::new();
        layers.push(first_layer);
        let mut depth: usize = 0;
        proof {
            assert(reach(step, stn, 0) == set![stn]);
            assert forall|dd: nat, v: nat| dd <= 0 && #[trigger] at_distance(step, stn, v, dd) implies layers[dd as int]@.contains(v as usize) by {
                assert(layers[0][0] == st);
            }
        }
        while layers[depth].len() > 0 && !visited[tg]
            invariant
                self.wf(),
                n == self.nodes().len(),
                st < n,
                tg < n,
                stn == st as nat,
                step == forward_step(self.edges(), filter_view(edge_type_filter), edge_class_filter),
                forall|u: nat, v: nat| #[trigger] step(u, v) ==> v < n,
                layers.len() == depth + 1,
                visited.len() == n,
                forall|v: nat| v < n ==> (#[trigger] visited[v as int] <==> reach(step, stn, depth as nat).contains(v)),
                forall|dd: int, j: int| 0 <= dd <= depth && 0 <= j < layers[dd].len() ==> #[trigger] layers[dd][j] < n
                    && at_distance(step, stn, layers[dd][j] as nat, dd as nat),
                forall|dd: nat, v: nat| dd <= depth && #[trigger] at_distance(step, stn, v, dd) ==> layers[dd as int]@.contains(v as usize),
                layers[depth as int].len() > 0 ==> depth + count_false(visited@) < n,
                layers[depth as int].len() == 0 ==> depth + count_false(visited@) <= n,
                depth > 0 ==> !reach(step, stn, (depth - 1) as nat).contains(tg as nat),
            decreases count_false(visited@) + layers[depth as int].len(),
        {
            let next = self.next_layer(st, depth, &layers[depth], edge_type_filter, edge_class_filter, &mut visited);
            layers.push(next);
            depth += 1;
        }
        if !visited[tg] {
            proof {
                if layers[depth as int].len() == 0 {
                    assert forall|u: nat| !#[trigger] at_distance(step, stn, u, depth as nat) by {
                        if at_distance(step, stn, u, depth as nat) {
                            assert(layers[depth as int]@.contains(u as usize));
                        }
                    }
                    lemma_unreachable(step, stn, tg as nat, depth as nat);
                }
            }
            return None;
        }
        // `tg` is at distance `depth`: walk back through the layers.
        let mut rev: Vec<usize> = Vec::new();
        rev.push(tg);
        let mut cur = tg;
        let mut d = depth;
        proof {
            assert(at_distance(step, stn, tg as nat, depth as nat));
        }
        while d > 0
            invariant
                self.wf(),
                n == self.nodes().len(),
                step == forward_step(self.edges(), filter_view(edge_type_filter), edge_class_filter),
                layers.len() == depth + 1,
                d <= depth,
                forall|dd: int, j: int| 0 <= dd <= depth && 0 <= j < layers[dd].len() ==> #[trigger] layers[dd][j] < n
                    && at_distance(step, stn, layers[dd][j] as nat, dd as nat),
                forall|dd: nat, v: nat| dd <= depth && #[trigger] at_distance(step, stn, v, dd) ==> layers[dd as int]@.contains(v as usize),
                cur < n,
                at_distance(step, stn, cur as nat, d as nat),
                rev.len() == depth - d + 1,
                rev[0] == tg,
                rev@.last() == cur,
                forall|k: int| 0 <= k < rev.len() ==> #[trigger] rev[k] < n,
                forall|k: int| 0 <= k < rev.len() - 1 ==> #[trigger] step(rev[k + 1] as nat, rev[k] as nat),
            decreases d,
        {
            proof {
                lemma_predecessor(step, stn, cur as nat, d as nat);
                let u = choose|u: nat| at_distance(step, stn, u, (d - 1) as nat) && #[trigger] step(u, cur as nat);
                let lay = layers[d - 1]@;
                assert(lay.contains(u as usize));
                let j = choose|j: int| 0 <= j < lay.len() && #[trigger] lay[j] == u as usize;
                assert(step(lay[j] as nat, cur as nat));
            }
            let u = self.first_parent(&layers[d - 1], cur, edge_type_filter, edge_class_filter);
            let ghost rev0 = rev@;
            rev.push(u);
            proof {
                let lay = layers[d - 1]@;
                let j = choose|j: int| 0 <= j < lay.len() && #[trigger] lay[j] == u;
                assert(at_distance(step, stn, u as nat, (d - 1) as nat));
                assert forall|k: int| 0 <= k < rev.len() - 1 implies #[trigger] step(rev[k + 1] as nat, rev[k] as nat) by {
                    if k < rev.len() - 2 {
                        assert(rev[k] == rev0[k] && rev[k + 1] == rev0[k + 1]);
                    } else {
                        assert(rev[k] == rev0.last());
                    }
                }
            }
            cur = u;
            d -= 1;
        }
        proof {
            assert(reach(step, stn, 0).contains(cur as nat));
            assert(cur == st);
        }
        let mut path: Vec<String> = Vec::new();
        let mut k: usize = rev.len();
        let ghost w: Seq<nat> = Seq::new(rev.len() as nat, |i: int| rev[rev.len() - 1 - i] as nat);
        while k > 0
            invariant
                k <= rev.len(),
                rev.len() >= 1,
                w.len() == rev.len(),
                forall|i: int| 0 <= i < w.len() ==> #[trigger] w[i] == rev[rev.len() - 1 - i] as nat,
                forall|i: int| 0 <= i < rev.len() ==> #[trigger] rev[i] < self.nodes().len(),
                path.len() == rev.len() - k,
                forall|i: int| 0 <= i < path.len() ==> #[trigger] path[i]@ == self.nodes()[w[i] as int].0,
            decreases k,
        {
            k -= 1;
            let node = self.node_at(rev[k]);
            let ghost p0 = path@;
            path.push(node.path.clone());
            proof {
                assert forall|i: int| 0 <= i < path.len() implies #[trigger] path[i]@ == self.nodes()[w[i] as int].0 by {
                    if i < p0.len() {
                        assert(path[i] == p0[i]);
                    } else {
                        assert(w[i] == rev[rev.len() - 1 - i] as nat);
                    }
                }
            }
        }
        proof {
            assert(w[0] == stn);
            assert(w.last() == tg as nat);
            assert forall|i: int| 0 <= i < w.len() - 1 implies #[trigger] step(w[i], w[i + 1]) by {
                let k2 = rev.len() - 2 - i;
                assert(step(rev[k2 + 1] as nat, rev[k2] as nat));
            }
            assert(names_shortest_walk(self.nodes(), step, stn, tg as nat, path@, w));
            reveal(names_a_shortest_walk);
            assert(names_a_shortest_walk(self.nodes(), step, stn, tg as nat, path@));
        }
        Some(path)
    }
}

} // verus!
