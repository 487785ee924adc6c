//! Laws of the knowledge graph that relate several operations: what an update leaves
//! behind, what a second identical update changes, and what a removal undoes.
use vstd::prelude::*;

use crate::graph_report::{count_type, lists_type, type_distribution};
use crate::reach::{at_distance, lemma_has_distance, reach};
use crate::traverse::{layered_listing, reached_listing};
use crate::graph::{
    after_add_edge, graph_wf, has_key, has_path, key_index, lemma_key_index, lemma_path_index, lemma_swap_remove,
    lemma_upsert_edge_wf, lemma_upsert_node_wf, path_index, relabel_edge, same_key, swap_remove, touches, upsert_edge,
    upsert_node, EdgeData, EdgeView, NodeView,
};

verus! {

/// Upserting a node with the path and title it already has changes nothing.
pub(crate) proof fn lemma_upsert_node_same(ns: Seq<NodeView>, p: Seq<char>, t: Option<Seq<char>>)
    requires
        has_path(ns, p),
        ns[path_index(ns, p)] == (p, t),
    ensures
        upsert_node(ns, p, t) == ns,
{
    let i = path_index(ns, p);
    assert(ns.update(i, (p, t)) =~= ns);
}

/// Upserting an edge with the data it already has changes nothing.
proof fn lemma_upsert_edge_same(es: Seq<EdgeView>, s: nat, t: nat, d: EdgeData)
    requires
        has_key(es, s, t, d.0),
        es[key_index(es, s, t, d.0)] == (s, t, d),
    ensures
        upsert_edge(es, s, t, d) == es,
{
    let k = key_index(es, s, t, d.0);
    assert(es.update(k, (s, t, d)) =~= es);
}

/// The nodes after upserting both endpoints: both paths are present with no title, every
/// old node keeps its path, and the invariant holds.
pub(crate) proof fn lemma_endpoints(ns: Seq<NodeView>, es: Seq<EdgeView>, s: Seq<char>, t: Seq<char>)
    requires
        graph_wf(ns, es),
        ns.len() + 2 <= u32::MAX,
    ensures
        ({
            let ns1 = upsert_node(upsert_node(ns, s, None), t, None);
            &&& graph_wf(ns1, es)
            &&& has_path(ns1, s)
            &&& has_path(ns1, t)
            &&& ns1[path_index(ns1, s)] == (s, None::<Seq<char>>)
            &&& ns1[path_index(ns1, t)] == (t, None::<Seq<char>>)
            &&& ns1.len() >= ns.len()
            &&& forall|i: int| 0 <= i < ns.len() ==> #[trigger] ns1[i].0 == ns[i].0
        }),
{
    let na = upsert_node(ns, s, None);
    lemma_upsert_node_wf(ns, es, s, None);
    lemma_upsert_node_wf(na, es, t, None);
    let ns1 = upsert_node(na, t, None);
    if s != t {
        let k = path_index(na, s);
        assert(path_index(ns1, s) == k);
        if has_path(na, t) {
            let j = path_index(na, t);
            assert(j != k);
            assert(ns1[k] == na[k]);
        } else {
            assert(ns1[k] == na[k]);
        }
    }
    assert forall|i: int| 0 <= i < ns.len() implies #[trigger] ns1[i].0 == ns[i].0 by {
        assert(na[i].0 == ns[i].0);
        assert(ns1[i].0 == na[i].0);
    }
}

/// After `add_edge(source, target, d)` the graph holds both endpoints and exactly one edge
/// from `source` to `target` of `d`'s type, carrying `d`; every node keeps its path and
/// index, and every edge of another key is unchanged.
pub proof fn law_add_edge_stores_edge(ns: Seq<NodeView>, es: Seq<EdgeView>, source: Seq<char>, target: Seq<char>, d: EdgeData)
    requires
        graph_wf(ns, es),
        ns.len() + 2 <= u32::MAX,
        es.len() < u32::MAX,
    ensures
        ({
            let (ns1, es1) = after_add_edge(ns, es, source, target, d);
            let s = path_index(ns1, source) as nat;
            let t = path_index(ns1, target) as nat;
            &&& graph_wf(ns1, es1)
            &&& has_path(ns1, source) && has_path(ns1, target)
            &&& has_key(es1, s, t, d.0)
            &&& es1[key_index(es1, s, t, d.0)] == (s, t, d)
            &&& forall|i: int| 0 <= i < ns.len() ==> #[trigger] ns1[i].0 == ns[i].0
            &&& forall|e: int| 0 <= e < es.len() && !same_key(#[trigger] es[e], (s, t, d)) ==> es1[e] == es[e]
        }),
{
    lemma_endpoints(ns, es, source, target);
    let ns1 = upsert_node(upsert_node(ns, source, None), target, None);
    let s = path_index(ns1, source) as nat;
    let t = path_index(ns1, target) as nat;
    let es1 = upsert_edge(es, s, t, d);
    lemma_upsert_edge_wf(ns1, es, s, t, d);
    if has_key(es, s, t, d.0) {
        let k = key_index(es, s, t, d.0);
        lemma_key_index(es1, k);
        assert forall|e: int| 0 <= e < es.len() && !same_key(#[trigger] es[e], (s, t, d)) implies es1[e] == es[e] by {
            assert(e != k);
        }
    } else {
        let k = es.len() as int;
        assert(es1[k] == (s, t, d));
        lemma_key_index(es1, k);
    }
}

/// Adding the same edge twice leaves the graph as adding it once: parallel edges of one
/// type are merged, and the endpoints are not duplicated.
pub proof fn law_add_edge_idempotent(ns: Seq<NodeView>, es: Seq<EdgeView>, source: Seq<char>, target: Seq<char>, d: EdgeData)
    requires
        graph_wf(ns, es),
        ns.len() + 2 <= u32::MAX,
        es.len() < u32::MAX,
    ensures
        ({
            let (ns1, es1) = after_add_edge(ns, es, source, target, d);
            after_add_edge(ns1, es1, source, target, d) == (ns1, es1)
        }),
{
    lemma_endpoints(ns, es, source, target);
    law_add_edge_stores_edge(ns, es, source, target, d);
    let ns1 = upsert_node(upsert_node(ns, source, None), target, None);
    let s = path_index(ns1, source) as nat;
    let t = path_index(ns1, target) as nat;
    let es1 = upsert_edge(es, s, t, d);
    lemma_upsert_node_same(ns1, source, None);
    lemma_upsert_node_same(ns1, target, None);
    lemma_upsert_edge_same(es1, s, t, d);
}

/// After `add_node(path, title)` the node with that path carries that title, and every other
/// node keeps its path and title.
pub proof fn law_add_node_then_lookup(ns: Seq<NodeView>, es: Seq<EdgeView>, p: Seq<char>, t: Option<Seq<char>>)
    requires
        graph_wf(ns, es),
        has_path(ns, p) || ns.len() < u32::MAX,
    ensures
        ({
            let ns1 = upsert_node(ns, p, t);
            &&& graph_wf(ns1, es)
            &&& has_path(ns1, p)
            &&& ns1[path_index(ns1, p)] == (p, t)
            &&& forall|i: int| 0 <= i < ns.len() && ns[i].0 != p ==> #[trigger] ns1[i] == ns[i]
        }),
{
    lemma_upsert_node_wf(ns, es, p, t);
    let ns1 = upsert_node(ns, p, t);
    if has_path(ns, p) {
        let k = path_index(ns, p);
        assert forall|i: int| 0 <= i < ns.len() && ns[i].0 != p implies #[trigger] ns1[i] == ns[i] by {
            assert(i != k);
        }
    }
}

/// Removing a node removes its path and keeps every other path.
pub proof fn law_remove_node_removes_path(ns: Seq<NodeView>, es: Seq<EdgeView>, p: Seq<char>)
    requires
        graph_wf(ns, es),
        has_path(ns, p),
    ensures
        ({
            let ns1 = swap_remove(ns, path_index(ns, p));
            &&& ns1.len() == ns.len() - 1
            &&& !has_path(ns1, p)
            &&& forall|q: Seq<char>| q != p ==> (#[trigger] has_path(ns1, q) <==> has_path(ns, q))
        }),
{
    let i = path_index(ns, p);
    let last = ns.len() - 1;
    let ns1 = swap_remove(ns, i);
    lemma_swap_remove(ns, i);
    if has_path(ns1, p) {
        let k = choose|k: int| 0 <= k < ns1.len() && #[trigger] ns1[k].0 == p;
        let k0 = if k == i { last } else { k };
        assert(ns1[k] == ns[k0]);
        lemma_path_index(ns, p, k0);
    }
    assert forall|q: Seq<char>| q != p implies (#[trigger] has_path(ns1, q) <==> has_path(ns, q)) by {
        if has_path(ns1, q) {
            let k = choose|k: int| 0 <= k < ns1.len() && #[trigger] ns1[k].0 == q;
            let k0 = if k == i { last } else { k };
            assert(ns1[k] == ns[k0]);
        }
        if has_path(ns, q) {
            let k = choose|k: int| 0 <= k < ns.len() && #[trigger] ns[k].0 == q;
            assert(k != i);
            if k == last {
                assert(ns1[i].0 == q);
            } else {
                assert(ns1[k].0 == q);
            }
        }
    }
}

/// Removing a node that was just added under a new path restores the nodes and the edges
/// as they were: `remove_node` undoes `add_node`.
pub proof fn law_remove_node_undoes_add_node(ns: Seq<NodeView>, es: Seq<EdgeView>, p: Seq<char>, t: Option<Seq<char>>)
    requires
        graph_wf(ns, es),
        !has_path(ns, p),
        ns.len() < u32::MAX,
    ensures
        ({
            let ns1 = upsert_node(ns, p, t);
            let i = path_index(ns1, p);
            &&& has_path(ns1, p)
            &&& swap_remove(ns1, i) == ns
            &&& forall|x: EdgeView| (exists|y: EdgeView| es.contains(y) && !touches(y, i as nat)
                && x == #[trigger] relabel_edge(y, i as nat, (ns1.len() - 1) as nat)) <==> es.contains(x)
        }),
{
    lemma_upsert_node_wf(ns, es, p, t);
    let ns1 = upsert_node(ns, p, t);
    let i = ns.len() as int;
    assert(ns1[i].0 == p);
    lemma_path_index(ns1, p, i);
    assert(swap_remove(ns1, i) =~= ns);
    assert forall|x: EdgeView| (exists|y: EdgeView| es.contains(y) && !touches(y, i as nat)
        && x == #[trigger] relabel_edge(y, i as nat, (ns1.len() - 1) as nat)) <==> es.contains(x) by {
        if es.contains(x) {
            let k = choose|k: int| 0 <= k < es.len() && es[k] == x;
            assert(es[k].0 < ns.len() && es[k].1 < ns.len());
            assert(relabel_edge(x, i as nat, (ns1.len() - 1) as nat) == x);
        }
    }
}

/// The sum of the counts of a type distribution.
pub open spec fn total_count(dist: Seq<(String, usize)>) -> nat
    decreases dist.len(),
{
    if dist.len() == 0 {
        0
    } else {
        total_count(dist.drop_last()) + dist.last().1 as nat
    }
}

/// The number of edges of `es` whose type is one of the types of `dist`, each type counted
/// once per entry.
spec fn counted(es: Seq<EdgeView>, dist: Seq<(String, usize)>) -> nat
    decreases dist.len(),
{
    if dist.len() == 0 {
        0
    } else {
        counted(es, dist.drop_last()) + count_type(es, dist.last().0@)
    }
}

/// How many entries of `dist` are for type `t`.
spec fn entries_for(dist: Seq<(String, usize)>, t: Seq<char>) -> nat
    decreases dist.len(),
{
    if dist.len() == 0 {
        0
    } else {
        entries_for(dist.drop_last(), t) + if dist.last().0@ == t { 1nat } else { 0nat }
    }
}

proof fn lemma_counted_push(es: Seq<EdgeView>, x: EdgeView, dist: Seq<(String, usize)>)
    ensures
        counted(es.push(x), dist) == counted(es, dist) + entries_for(dist, x.2.0),
    decreases dist.len(),
{
    if dist.len() > 0 {
        lemma_counted_push(es, x, dist.drop_last());
        assert(es.push(x).drop_last() =~= es);
    }
}

/// In a list of distinct types, a type has one entry when listed and none otherwise.
proof fn lemma_entries_for(dist: Seq<(String, usize)>, t: Seq<char>)
    requires
        forall|k: int, l: int| 0 <= k < l < dist.len() ==> #[trigger] dist[k].0@ != #[trigger] dist[l].0@,
    ensures
        entries_for(dist, t) == if lists_type(dist, t) { 1nat } else { 0nat },
    decreases dist.len(),
{
    if dist.len() > 0 {
        let d2 = dist.drop_last();
        assert forall|k: int, l: int| 0 <= k < l < d2.len() implies #[trigger] d2[k].0@ != #[trigger] d2[l].0@ by {
            assert(dist[k].0@ != dist[l].0@);
        }
        lemma_entries_for(d2, t);
        let last = dist.len() - 1;
        if lists_type(d2, t) {
            let k = choose|k: int| 0 <= k < d2.len() && #[trigger] d2[k].0@ == t;
            assert(dist[k].0@ == t);
            assert(dist[k].0@ != dist[last].0@);
        }
        if lists_type(dist, t) && !lists_type(d2, t) {
            let k = choose|k: int| 0 <= k < dist.len() && #[trigger] dist[k].0@ == t;
            if k < last {
                assert(d2[k].0@ == t);
            }
        }
        if lists_type(d2, t) {
            let k = choose|k: int| 0 <= k < d2.len() && #[trigger] d2[k].0@ == t;
            assert(dist[k].0@ == t);
        }
    }
}

/// Counting, over distinct types that cover every edge, the edges of each type counts every
/// edge once.
proof fn lemma_counted_all(es: Seq<EdgeView>, dist: Seq<(String, usize)>)
    requires
        forall|k: int, l: int| 0 <= k < l < dist.len() ==> #[trigger] dist[k].0@ != #[trigger] dist[l].0@,
        forall|e: int| 0 <= e < es.len() ==> lists_type(dist, (#[trigger] es[e]).2.0),
    ensures
        counted(es, dist) == es.len(),
    decreases es.len(),
{
    if es.len() == 0 {
        assert(es =~= Seq::<EdgeView>::empty());
        lemma_counted_empty(dist);
    } else {
        let es2 = es.drop_last();
        let x = es.last();
        assert forall|e: int| 0 <= e < es2.len() implies lists_type(dist, (#[trigger] es2[e]).2.0) by {
            assert(es2[e] == es[e]);
        }
        lemma_counted_all(es2, dist);
        assert(es2.push(x) =~= es);
        lemma_counted_push(es2, x, dist);
        assert(lists_type(dist, es[es.len() - 1].2.0));
        lemma_entries_for(dist, x.2.0);
    }
}

proof fn lemma_counted_empty(dist: Seq<(String, usize)>)
    ensures
        counted(Seq::<EdgeView>::empty(), dist) == 0,
    decreases dist.len(),
{
    if dist.len() > 0 {
        lemma_counted_empty(dist.drop_last());
    }
}

proof fn lemma_total_is_counted(es: Seq<EdgeView>, dist: Seq<(String, usize)>)
    requires
        forall|k: int| 0 <= k < dist.len() ==> #[trigger] dist[k].1 == count_type(es, dist[k].0@),
    ensures
        total_count(dist) == counted(es, dist),
    decreases dist.len(),
{
    if dist.len() > 0 {
        let d2 = dist.drop_last();
        assert forall|k: int| 0 <= k < d2.len() implies #[trigger] d2[k].1 == count_type(es, d2[k].0@) by {
            assert(d2[k] == dist[k]);
        }
        lemma_total_is_counted(es, d2);
        assert(dist[dist.len() - 1].1 == count_type(es, dist[dist.len() - 1].0@));
    }
}

/// The counts of the edge-type distribution that `stats` reports add up to the number of
/// edges: every edge is counted under exactly one type.
pub proof fn law_type_distribution_total(es: Seq<EdgeView>, dist: Seq<(String, usize)>)
    requires
        type_distribution(es, dist),
    ensures
        total_count(dist) == es.len(),
{
    lemma_total_is_counted(es, dist);
    lemma_counted_all(es, dist);
}

/// Some entry of a traversal listing is for path `p` at depth at most `d`.
pub open spec fn listed_within(out: Seq<(String, usize)>, p: Seq<char>, d: usize) -> bool {
    exists|j: int| 0 <= j < out.len() && #[trigger] out[j].0@ == p && out[j].1 <= d
}

/// What the depth-first traversal lists, the breadth-first traversal with the same start,
/// depth bound and filters lists too, at the same or a smaller depth.
pub proof fn law_dfs_within_bfs(
    ns: Seq<NodeView>,
    step: spec_fn(nat, nat) -> bool,
    start: nat,
    max_depth: nat,
    dfs: Seq<(String, usize)>,
    bfs: Seq<(String, usize)>,
)
    requires
        reached_listing(ns, step, start, max_depth, dfs),
        layered_listing(ns, step, start, max_depth, bfs),
    ensures
        forall|k: int| 0 <= k < dfs.len() ==> listed_within(bfs, (#[trigger] dfs[k]).0@, dfs[k].1),
{
    assert forall|k: int| 0 <= k < dfs.len() implies listed_within(bfs, (#[trigger] dfs[k]).0@, dfs[k].1) by {
        let dk = dfs[k].1 as nat;
        assert(1 <= dfs[k].1 <= max_depth);
        let v = choose|v: nat| v < ns.len() && v != start && ns[v as int].0 == dfs[k].0@ && reach(step, start, dk).contains(v);
        lemma_has_distance(step, start, v, dk);
        let d = choose|d: nat| d <= dk && #[trigger] at_distance(step, start, v, d);
        assert(d != 0);
        assert(at_distance(step, start, v, d));
        let j = choose|j: int| 0 <= j < bfs.len() && #[trigger] bfs[j].0@ == ns[v as int].0 && bfs[j].1 == d;
        assert(bfs[j].0@ == dfs[k].0@ && bfs[j].1 <= dfs[k].1);
    }
}

} // verus!
