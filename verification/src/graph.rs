//! Knowledge graph of documents: typed, weighted, directed edges kept in a petgraph `Graph`.
//!
//! The graph is seen through two sequences: its nodes `(path, title)` in node-index order and
//! its edges `(source, target, weight)` in edge-index order. Paths identify nodes (no path
//! occurs twice), and no two edges share source, target and edge type.
use vstd::prelude::*;

use petgraph::graph::{EdgeIndex, Graph, NodeIndex};
use petgraph::visit::EdgeRef;
use petgraph::{Directed, Direction};
use std::collections::HashMap;

use crate::reach::{
    at_distance, is_walk, lemma_distance_unique, lemma_has_distance, lemma_predecessor, lemma_reach_bounded,
    lemma_reach_mono, lemma_reach_next, lemma_reach_stable, lemma_reach_start, lemma_unreachable, lemma_walk_reach,
    reach, reachable,
};
use crate::text::{opt_view, string_eq};

verus! {

// ---------------------------------------------------------------------------
// Edge metadata
// ---------------------------------------------------------------------------
/// How an edge was created.
#[derive(Debug, Clone, Copy, PartialEq, Eq, Structural)]
pub enum EdgeProvenance {
    /// A `[[wikilink]]` in the source document.
    Wikilink,
    /// Tags shared by two documents.
    SharedTag,
    /// A reference in a frontmatter field.
    Frontmatter,
    /// A call found in source code.
    CodeCalls,
    /// A definition found in source code.
    CodeDefines,
    /// A trait implementation found in source code.
    CodeImplementsTrait,
    /// An import found in source code.
    CodeImports,
    /// A document that describes a code symbol.
    DocumentsCode,
}

/// Coarse class of an edge, used to filter traversals.
#[derive(Debug, Clone, Copy, PartialEq, Eq, Structural)]
pub enum EdgeClass {
    /// Explicit links written by an author (wikilinks, frontmatter, code structure).
    StructuralLink,
    /// Links inferred from content (shared tags, similarity).
    Semantic,
}

impl EdgeClass {
    /// An edge of class `self` passes a filter for class `filter` exactly when the classes
    /// are the same.
    pub fn accepts(self, filter: EdgeClass) -> (r: bool)
        ensures
            r == (self == filter),
    {
        self == filter
    }
}

// ---------------------------------------------------------------------------
// Node and edge data
// ---------------------------------------------------------------------------
/// Node data stored in the graph.
#[derive(Debug, Clone)]
pub struct GraphNode {
    /// Relative path within the corpus.
    pub path: String,
    /// Document title (if known).
    pub title: Option<String>,
}

/// What a node holds: its path and its title.
pub type NodeView = (Seq<char>, Option<Seq<char>>);

/// What an edge carries: edge type, weight (bit pattern of an IEEE-754 `f32`), provenance
/// and class.
pub type EdgeData = (Seq<char>, u32, EdgeProvenance, EdgeClass);

/// An edge: source index, target index and its data.
pub type EdgeView = (nat, nat, EdgeData);

impl View for GraphNode {
    type V = NodeView;

    open spec fn view(&self) -> NodeView {
        (self.path@, opt_view(self.title))
    }
}

/// Edge data stored in the graph.
#[derive(Debug, Clone)]
pub struct GraphEdge {
    /// Edge type name.
    pub edge_type: String,
    /// Weight of this edge, as the bit pattern of an IEEE-754 `f32`.
    pub weight_bits: u32,
    /// How this edge was created.
    pub provenance: EdgeProvenance,
    /// Edge class for filtering purposes.
    pub class: EdgeClass,
}

impl View for GraphEdge {
    type V = EdgeData;

    open spec fn view(&self) -> EdgeData {
        (self.edge_type@, self.weight_bits, self.provenance, self.class)
    }
}

// ---------------------------------------------------------------------------
// petgraph
// ---------------------------------------------------------------------------
#[verifier::external_type_specification]
#[verifier::external_body]
#[verifier::reject_recursive_types(N)]
#[verifier::reject_recursive_types(E)]
#[verifier::reject_recursive_types(Ty)]
#[verifier::reject_recursive_types(Ix)]
pub struct ExPetGraph<N, E, Ty, Ix>(Graph<N, E, Ty, Ix>);

#[verifier::external_type_specification]
#[verifier::external_body]
pub struct ExPetDirected(Directed);

/// The nodes of a petgraph graph, in node-index order.
pub uninterp spec fn graph_nodes(g: Graph<GraphNode, GraphEdge, Directed, u32>) -> Seq<(Seq<char>, Option<Seq<char>>)>;

/// The edges of a petgraph graph `(source, target, data)`, in edge-index order.
pub uninterp spec fn graph_edges(g: Graph<GraphNode, GraphEdge, Directed, u32>) -> Seq<(nat, nat, (Seq<char>, u32, EdgeProvenance, EdgeClass))>;

/// `s` with its element at `i` removed by moving the last element into its place.
pub open spec fn swap_remove<A>(s: Seq<A>, i: int) -> Seq<A> {
    if i == s.len() - 1 {
        s.drop_last()
    } else {
        s.update(i, s.last()).drop_last()
    }
}

/// `Graph::new`: an empty graph.
#[verifier::external_body]
fn pg_new() -> (g: Graph<GraphNode, GraphEdge, Directed, u32>)
    ensures
        graph_nodes(g) == Seq::<NodeView>::empty(),
        graph_edges(g) == Seq::<EdgeView>::empty(),
{
    Graph::new()
}

/// `Graph::add_node`: appends a node and returns its index. petgraph panics when the node
/// count reaches the largest `u32`, which `requires` rules out.
#[verifier::external_body]
fn pg_add_node(g: &mut Graph<GraphNode, GraphEdge, Directed, u32>, w: GraphNode) -> (i: usize)
    requires
        graph_nodes(*old(g)).len() < u32::MAX,
    ensures
        i == graph_nodes(*old(g)).len(),
        graph_nodes(*final(g)) == graph_nodes(*old(g)).push(w@),
        graph_edges(*final(g)) == graph_edges(*old(g)),
{
    g.add_node(w).index()
}

/// `Graph::add_edge`: appends an edge from `a` to `b` and returns its index. petgraph panics
/// when a node does not exist or the edge count reaches the largest `u32`.
#[verifier::external_body]
fn pg_add_edge(g: &mut Graph<GraphNode, GraphEdge, Directed, u32>, a: usize, b: usize, w: GraphEdge) -> (e: usize)
    requires
        a < graph_nodes(*old(g)).len(),
        b < graph_nodes(*old(g)).len(),
        graph_edges(*old(g)).len() < u32::MAX,
    ensures
        e == graph_edges(*old(g)).len(),
        graph_edges(*final(g)) == graph_edges(*old(g)).push((a as nat, b as nat, w@)),
        graph_nodes(*final(g)) == graph_nodes(*old(g)),
{
    g.add_edge(NodeIndex::new(a), NodeIndex::new(b), w).index()
}

/// `Graph::node_weight`: the data of node `i`.
#[verifier::external_body]
fn pg_node_weight(g: &Graph<GraphNode, GraphEdge, Directed, u32>, i: usize) -> (r: Option<&GraphNode>)
    requires
        i < graph_nodes(*g).len(),
    ensures
        r.is_some(),
        r.unwrap()@ == graph_nodes(*g)[i as int],
{
    g.node_weight(NodeIndex::new(i))
}

/// `Graph::node_weight_mut`: replaces the data of node `i`.
#[verifier::external_body]
fn pg_set_node_weight(g: &mut Graph<GraphNode, GraphEdge, Directed, u32>, i: usize, w: GraphNode)
    requires
        i < graph_nodes(*old(g)).len(),
    ensures
        graph_nodes(*final(g)) == graph_nodes(*old(g)).update(i as int, w@),
        graph_edges(*final(g)) == graph_edges(*old(g)),
{
    if let Some(slot) = g.node_weight_mut(NodeIndex::new(i)) {
        *slot = w;
    }
}

/// `Graph::edge_weight`: the data of edge `e`.
#[verifier::external_body]
fn pg_edge_weight(g: &Graph<GraphNode, GraphEdge, Directed, u32>, e: usize) -> (r: Option<&GraphEdge>)
    requires
        e < graph_edges(*g).len(),
    ensures
        r.is_some(),
        r.unwrap()@ == graph_edges(*g)[e as int].2,
{
    g.edge_weight(EdgeIndex::new(e))
}

/// `Graph::edge_weight_mut`: replaces the data of edge `e`.
#[verifier::external_body]
fn pg_set_edge_weight(g: &mut Graph<GraphNode, GraphEdge, Directed, u32>, e: usize, w: GraphEdge)
    requires
        e < graph_edges(*old(g)).len(),
    ensures
        graph_edges(*final(g)) == graph_edges(*old(g)).update(
            e as int,
            (graph_edges(*old(g))[e as int].0, graph_edges(*old(g))[e as int].1, w@),
        ),
        graph_nodes(*final(g)) == graph_nodes(*old(g)),
{
    if let Some(slot) = g.edge_weight_mut(EdgeIndex::new(e)) {
        *slot = w;
    }
}

/// `Graph::edge_endpoints`: source and target of edge `e`.
#[verifier::external_body]
fn pg_edge_endpoints(g: &Graph<GraphNode, GraphEdge, Directed, u32>, e: usize) -> (r: Option<(usize, usize)>)
    requires
        e < graph_edges(*g).len(),
    ensures
        r.is_some(),
        r.unwrap().0 == graph_edges(*g)[e as int].0,
        r.unwrap().1 == graph_edges(*g)[e as int].1,
{
    g.edge_endpoints(EdgeIndex::new(e)).map(|(a, b)| (a.index(), b.index()))
}

/// The edge `e` leaves node `i` (`outgoing`) or enters it (`!outgoing`).
pub open spec fn incident_in(es: Seq<EdgeView>, e: int, i: nat, outgoing: bool) -> bool {
    if outgoing { es[e].0 == i } else { es[e].1 == i }
}

/// `Graph::edges_directed`: the edges that leave (`outgoing`) or enter node `i`, each as
/// `(edge index, source, target)`. Every such edge is listed exactly once. petgraph lists
/// them in the order of its per-node edge lists (most recently added first while no edge
/// has been removed); that order is not stated here.
#[verifier::external_body]
fn pg_edges_directed(g: &Graph<GraphNode, GraphEdge, Directed, u32>, i: usize, outgoing: bool) -> (r: Vec<(usize, usize, usize)>)
    requires
        i < graph_nodes(*g).len(),
    ensures
        forall|k: int| 0 <= k < r.len() ==> {
            &&& #[trigger] r[k].0 < graph_edges(*g).len()
            &&& r[k].1 == graph_edges(*g)[r[k].0 as int].0
            &&& r[k].2 == graph_edges(*g)[r[k].0 as int].1
            &&& incident_in(graph_edges(*g), r[k].0 as int, i as nat, outgoing)
        },
        forall|e: int| 0 <= e < graph_edges(*g).len() && incident_in(graph_edges(*g), e, i as nat, outgoing)
            ==> exists|k: int| 0 <= k < r.len() && #[trigger] r[k].0 == e,
        forall|k: int, l: int| 0 <= k < l < r.len() ==> r[k].0 != r[l].0,
{
    let dir = if outgoing { Direction::Outgoing } else { Direction::Incoming };
    g.edges_directed(NodeIndex::new(i), dir).map(|e| (e.id().index(), e.source().index(), e.target().index())).collect()
}

/// `Graph::remove_edge`: removes edge `e`; the last edge takes its index.
#[verifier::external_body]
fn pg_remove_edge(g: &mut Graph<GraphNode, GraphEdge, Directed, u32>, e: usize) -> (r: Option<GraphEdge>)
    requires
        e < graph_edges(*old(g)).len(),
    ensures
        r.is_some(),
        r.unwrap()@ == graph_edges(*old(g))[e as int].2,
        graph_edges(*final(g)) == swap_remove(graph_edges(*old(g)), e as int),
        graph_nodes(*final(g)) == graph_nodes(*old(g)),
{
    g.remove_edge(EdgeIndex::new(e))
}

/// Node index `v` after the last node has moved into the place of node `i`.
pub open spec fn moved_index(v: nat, i: nat, last: nat) -> nat {
    if v == last { i } else { v }
}

/// Edge `x` after the last node has moved into the place of node `i`.
pub open spec fn relabel_edge(x: EdgeView, i: nat, last: nat) -> EdgeView {
    (moved_index(x.0, i, last), moved_index(x.1, i, last), x.2)
}

/// `Graph::remove_node` on a node without edges: the last node takes its index, and the
/// edges of the moved node are renumbered in place.
#[verifier::external_body]
fn pg_remove_node(g: &mut Graph<GraphNode, GraphEdge, Directed, u32>, i: usize) -> (r: Option<GraphNode>)
    requires
        i < graph_nodes(*old(g)).len(),
        forall|e: int| 0 <= e < graph_edges(*old(g)).len() ==> graph_edges(*old(g))[e].0 != i
            && graph_edges(*old(g))[e].1 != i,
    ensures
        r.is_some(),
        r.unwrap()@ == graph_nodes(*old(g))[i as int],
        graph_nodes(*final(g)) == swap_remove(graph_nodes(*old(g)), i as int),
        graph_edges(*final(g)) == graph_edges(*old(g)).map_values(
            |x: EdgeView| relabel_edge(x, i as nat, (graph_nodes(*old(g)).len() - 1) as nat),
        ),
{
    g.remove_node(NodeIndex::new(i))
}

/// `Graph::node_count`.
#[verifier::external_body]
fn pg_node_count(g: &Graph<GraphNode, GraphEdge, Directed, u32>) -> (n: usize)
    ensures
        n == graph_nodes(*g).len(),
{
    g.node_count()
}

/// `Graph::edge_count`.
#[verifier::external_body]
fn pg_edge_count(g: &Graph<GraphNode, GraphEdge, Directed, u32>) -> (n: usize)
    ensures
        n == graph_edges(*g).len(),
{
    g.edge_count()
}

// ---------------------------------------------------------------------------
// The shape of a well-formed graph
// ---------------------------------------------------------------------------
/// No path names two nodes.
pub open spec fn paths_unique(ns: Seq<NodeView>) -> bool {
    forall|i: int, j: int| 0 <= i < j < ns.len() ==> ns[i].0 != ns[j].0
}

/// Every edge joins two existing nodes.
pub open spec fn edges_in_range(es: Seq<EdgeView>, n: nat) -> bool {
    forall|e: int| 0 <= e < es.len() ==> #[trigger] es[e].0 < n && es[e].1 < n
}

/// Two edges share source, target and edge type.
pub open spec fn same_key(a: EdgeView, b: EdgeView) -> bool {
    a.0 == b.0 && a.1 == b.1 && a.2.0 == b.2.0
}

/// No two edges share source, target and edge type.
pub open spec fn keys_unique(es: Seq<EdgeView>) -> bool {
    forall|e: int, f: int| 0 <= e < f < es.len() ==> !same_key(#[trigger] es[e], #[trigger] es[f])
}

/// The invariant of a knowledge graph.
pub open spec fn graph_wf(ns: Seq<NodeView>, es: Seq<EdgeView>) -> bool {
    &&& paths_unique(ns)
    &&& edges_in_range(es, ns.len())
    &&& keys_unique(es)
    &&& ns.len() <= u32::MAX
    &&& es.len() <= u32::MAX
}

/// Some node has path `p`.
pub open spec fn has_path(ns: Seq<NodeView>, p: Seq<char>) -> bool {
    exists|i: int| 0 <= i < ns.len() && #[trigger] ns[i].0 == p
}

/// The index of the node with path `p` (meaningful when `has_path(ns, p)`).
pub open spec fn path_index(ns: Seq<NodeView>, p: Seq<char>) -> int {
    choose|i: int| 0 <= i < ns.len() && #[trigger] ns[i].0 == p
}

/// The nodes after adding a node, or setting the title of the node that has its path.
pub open spec fn upsert_node(ns: Seq<NodeView>, p: Seq<char>, t: Option<Seq<char>>) -> Seq<NodeView> {
    if has_path(ns, p) {
        ns.update(path_index(ns, p), (p, t))
    } else {
        ns.push((p, t))
    }
}

/// Some edge goes from `s` to `t` with type `ty`.
pub open spec fn has_key(es: Seq<EdgeView>, s: nat, t: nat, ty: Seq<char>) -> bool {
    exists|e: int| 0 <= e < es.len() && #[trigger] es[e].0 == s && es[e].1 == t && es[e].2.0 == ty
}

/// The index of the edge from `s` to `t` with type `ty` (meaningful when `has_key`).
pub open spec fn key_index(es: Seq<EdgeView>, s: nat, t: nat, ty: Seq<char>) -> int {
    choose|e: int| 0 <= e < es.len() && #[trigger] es[e].0 == s && es[e].1 == t && es[e].2.0 == ty
}

/// The edges after adding an edge, or replacing the data of the edge with its key.
pub open spec fn upsert_edge(es: Seq<EdgeView>, s: nat, t: nat, d: EdgeData) -> Seq<EdgeView> {
    if has_key(es, s, t, d.0) {
        es.update(key_index(es, s, t, d.0), (s, t, d))
    } else {
        es.push((s, t, d))
    }
}

/// Nodes and edges after `add_edge(source, target, d)`: both endpoints are upserted with
/// no title, then the edge is upserted by key.
pub open spec fn after_add_edge(
    ns: Seq<NodeView>,
    es: Seq<EdgeView>,
    source: Seq<char>,
    target: Seq<char>,
    d: EdgeData,
) -> (Seq<NodeView>, Seq<EdgeView>) {
    let ns2 = upsert_node(upsert_node(ns, source, None), target, None);
    (ns2, upsert_edge(es, path_index(ns2, source) as nat, path_index(ns2, target) as nat, d))
}

/// The edge `x` touches node `i`.
pub open spec fn touches(x: EdgeView, i: nat) -> bool {
    x.0 == i || x.1 == i
}

/// The view of an optional string slice.
pub open spec fn opt_str_view(o: Option<&str>) -> Option<Seq<char>> {
    match o {
        Some(s) => Some(s@),
        None => None,
    }
}

pub proof fn lemma_path_index(ns: Seq<NodeView>, p: Seq<char>, i: int)
    requires
        paths_unique(ns),
        0 <= i < ns.len(),
        ns[i].0 == p,
    ensures
        has_path(ns, p),
        path_index(ns, p) == i,
{
    let j = path_index(ns, p);
    assert(ns[i].0 == p);
}

pub proof fn lemma_key_index(es: Seq<EdgeView>, e: int)
    requires
        keys_unique(es),
        0 <= e < es.len(),
    ensures
        has_key(es, es[e].0, es[e].1, es[e].2.0),
        key_index(es, es[e].0, es[e].1, es[e].2.0) == e,
{
    let f = key_index(es, es[e].0, es[e].1, es[e].2.0);
    assert(es[e].0 == es[e].0);
    if f != e {
        if f < e {
            assert(!same_key(es[f], es[e]));
        } else {
            assert(!same_key(es[e], es[f]));
        }
    }
}

/// Upserting a node keeps the invariant.
pub proof fn lemma_upsert_node_wf(ns: Seq<NodeView>, es: Seq<EdgeView>, p: Seq<char>, t: Option<Seq<char>>)
    requires
        graph_wf(ns, es),
        has_path(ns, p) || ns.len() < u32::MAX,
    ensures
        graph_wf(upsert_node(ns, p, t), es),
        has_path(upsert_node(ns, p, t), p),
        upsert_node(ns, p, t)[path_index(upsert_node(ns, p, t), p)] == (p, t),
        forall|q: Seq<char>| #[trigger] has_path(upsert_node(ns, p, t), q) <==> (q == p || has_path(ns, q)),
        forall|q: Seq<char>| q != p && has_path(ns, q) ==> #[trigger] path_index(upsert_node(ns, p, t), q) == path_index(ns, q),
        upsert_node(ns, p, t).len() >= ns.len(),
{
    let ns2 = upsert_node(ns, p, t);
    if has_path(ns, p) {
        let i = path_index(ns, p);
        assert(ns2.len() == ns.len());
        assert forall|a: int, b: int| 0 <= a < b < ns2.len() implies ns2[a].0 != ns2[b].0 by {
            assert(ns2[a].0 == ns[a].0);
            assert(ns2[b].0 == ns[b].0);
        }
        lemma_path_index(ns2, p, i);
        assert forall|q: Seq<char>| #[trigger] has_path(ns2, q) <==> (q == p || has_path(ns, q)) by {
            if has_path(ns2, q) {
                let k = choose|k: int| 0 <= k < ns2.len() && #[trigger] ns2[k].0 == q;
                assert(ns[k].0 == q);
            }
            if has_path(ns, q) {
                let k = choose|k: int| 0 <= k < ns.len() && #[trigger] ns[k].0 == q;
                assert(ns2[k].0 == q);
            }
        }
        assert forall|q: Seq<char>| q != p && has_path(ns, q) implies #[trigger] path_index(ns2, q) == path_index(ns, q) by {
            let k = path_index(ns, q);
            assert(ns2[k].0 == q);
            lemma_path_index(ns2, q, k);
        }
    } else {
        let i = ns.len() as int;
        assert forall|a: int, b: int| 0 <= a < b < ns2.len() implies ns2[a].0 != ns2[b].0 by {
            if b == i {
                assert(ns[a].0 != p);
            }
        }
        assert(ns2[i].0 == p);
        lemma_path_index(ns2, p, i);
        assert forall|q: Seq<char>| #[trigger] has_path(ns2, q) <==> (q == p || has_path(ns, q)) by {
            if has_path(ns2, q) {
                let k = choose|k: int| 0 <= k < ns2.len() && #[trigger] ns2[k].0 == q;
                if k < i {
                    assert(ns[k].0 == q);
                }
            }
            if has_path(ns, q) {
                let k = choose|k: int| 0 <= k < ns.len() && #[trigger] ns[k].0 == q;
                assert(ns2[k].0 == q);
            }
        }
        assert forall|q: Seq<char>| q != p && has_path(ns, q) implies #[trigger] path_index(ns2, q) == path_index(ns, q) by {
            let k = path_index(ns, q);
            assert(ns2[k].0 == q);
            lemma_path_index(ns2, q, k);
        }
    }
}

/// Upserting an edge between existing nodes keeps the invariant.
pub proof fn lemma_upsert_edge_wf(ns: Seq<NodeView>, es: Seq<EdgeView>, s: nat, t: nat, d: EdgeData)
    requires
        graph_wf(ns, es),
        s < ns.len(),
        t < ns.len(),
        has_key(es, s, t, d.0) || es.len() < u32::MAX,
    ensures
        graph_wf(ns, upsert_edge(es, s, t, d)),
{
    let es2 = upsert_edge(es, s, t, d);
    if has_key(es, s, t, d.0) {
        let k = key_index(es, s, t, d.0);
        assert forall|e: int, f: int| 0 <= e < f < es2.len() implies !same_key(#[trigger] es2[e], #[trigger] es2[f]) by {
            if e != k && f != k {
                assert(!same_key(es[e], es[f]));
            } else if e == k {
                assert(!same_key(es[k], es[f]));
            } else {
                assert(!same_key(es[e], es[k]));
            }
        }
        assert forall|e: int| 0 <= e < es2.len() implies #[trigger] es2[e].0 < ns.len() && es2[e].1 < ns.len() by {
            if e != k {
                assert(es2[e] == es[e]);
            }
        }
    } else {
        let k = es.len() as int;
        assert forall|e: int, f: int| 0 <= e < f < es2.len() implies !same_key(#[trigger] es2[e], #[trigger] es2[f]) by {
            if f == k {
                if same_key(es[e], es2[f]) {
                    assert(es[e].0 == s && es[e].1 == t && es[e].2.0 == d.0);
                }
            } else {
                assert(!same_key(es[e], es[f]));
            }
        }
        assert forall|e: int| 0 <= e < es2.len() implies #[trigger] es2[e].0 < ns.len() && es2[e].1 < ns.len() by {
            if e < k {
                assert(es2[e] == es[e]);
            }
        }
    }
}

pub proof fn lemma_swap_remove<A>(s: Seq<A>, i: int)
    requires
        0 <= i < s.len(),
    ensures
        swap_remove(s, i).len() == s.len() - 1,
        forall|k: int| 0 <= k < s.len() - 1 ==> #[trigger] swap_remove(s, i)[k] == if k == i { s.last() } else { s[k] },
{
}

/// Removing an edge by swapping keeps the invariant.
pub proof fn lemma_swap_remove_edge_wf(ns: Seq<NodeView>, es: Seq<EdgeView>, e: int)
    requires
        graph_wf(ns, es),
        0 <= e < es.len(),
    ensures
        graph_wf(ns, swap_remove(es, e)),
        forall|x: EdgeView| swap_remove(es, e).contains(x) ==> es.contains(x),
        forall|x: EdgeView| es.contains(x) && x != es[e] ==> swap_remove(es, e).contains(x),
{
    let es2 = swap_remove(es, e);
    lemma_swap_remove(es, e);
    let last = es.len() - 1;
    assert forall|a: int, b: int| 0 <= a < b < es2.len() implies !same_key(#[trigger] es2[a], #[trigger] es2[b]) by {
        let a0 = if a == e { last } else { a };
        let b0 = if b == e { last } else { b };
        assert(es2[a] == es[a0]);
        assert(es2[b] == es[b0]);
        if a0 < b0 {
            assert(!same_key(es[a0], es[b0]));
        } else {
            assert(!same_key(es[b0], es[a0]));
        }
    }
    assert forall|k: int| 0 <= k < es2.len() implies #[trigger] es2[k].0 < ns.len() && es2[k].1 < ns.len() by {
        let k0 = if k == e { last } else { k };
        assert(es2[k] == es[k0]);
    }
    assert forall|x: EdgeView| es2.contains(x) implies es.contains(x) by {
        let k = choose|k: int| 0 <= k < es2.len() && es2[k] == x;
        let k0 = if k == e { last } else { k };
        assert(es[k0] == x);
    }
    assert forall|x: EdgeView| es.contains(x) && x != es[e] implies es2.contains(x) by {
        let k = choose|k: int| 0 <= k < es.len() && es[k] == x;
        if k == last {
            assert(es2[e] == x);
        } else {
            assert(es2[k] == x);
        }
    }
}

/// Removing a node that no edge touches keeps the invariant; the edges are renumbered.
pub proof fn lemma_remove_isolated_node(ns: Seq<NodeView>, es0: Seq<EdgeView>, es1: Seq<EdgeView>, es2: Seq<EdgeView>, i: int)
    requires
        graph_wf(ns, es1),
        0 <= i < ns.len(),
        forall|x: EdgeView| #[trigger] es1.contains(x) <==> (es0.contains(x) && !touches(x, i as nat)),
        es2.len() == es1.len(),
        forall|k: int| 0 <= k < es1.len() ==> #[trigger] es2[k] == relabel_edge(es1[k], i as nat, (ns.len() - 1) as nat),
    ensures
        graph_wf(swap_remove(ns, i), es2),
        forall|x: EdgeView| #[trigger] es2.contains(x) <==> exists|y: EdgeView|
            es0.contains(y) && !touches(y, i as nat) && x == relabel_edge(y, i as nat, (ns.len() - 1) as nat),
{
    let last = (ns.len() - 1) as nat;
    let ns2 = swap_remove(ns, i);
    lemma_swap_remove(ns, i);
    assert forall|k: int| 0 <= k < es1.len() implies !touches(#[trigger] es1[k], i as nat) by {
        assert(es1.contains(es1[k]));
    }
    assert forall|a: int, b: int| 0 <= a < b < ns2.len() implies ns2[a].0 != ns2[b].0 by {
        let a0 = if a == i { last as int } else { a };
        let b0 = if b == i { last as int } else { b };
        assert(ns2[a] == ns[a0]);
        assert(ns2[b] == ns[b0]);
    }
    assert forall|k: int| 0 <= k < es2.len() implies #[trigger] es2[k].0 < ns2.len() && es2[k].1 < ns2.len() by {
        assert(es2[k] == relabel_edge(es1[k], i as nat, last));
        assert(!touches(es1[k], i as nat));
    }
    assert forall|a: int, b: int| 0 <= a < b < es2.len() implies !same_key(#[trigger] es2[a], #[trigger] es2[b]) by {
        assert(!same_key(es1[a], es1[b]));
        assert(!touches(es1[a], i as nat));
        assert(!touches(es1[b], i as nat));
        assert(es2[a] == relabel_edge(es1[a], i as nat, last));
        assert(es2[b] == relabel_edge(es1[b], i as nat, last));
    }
    assert forall|x: EdgeView| #[trigger] es2.contains(x) <==> exists|y: EdgeView|
        es0.contains(y) && !touches(y, i as nat) && x == relabel_edge(y, i as nat, last) by {
        if es2.contains(x) {
            let k = choose|k: int| 0 <= k < es2.len() && es2[k] == x;
            assert(es1.contains(es1[k]));
            assert(es2[k] == relabel_edge(es1[k], i as nat, last));
        }
        if exists|y: EdgeView| es0.contains(y) && !touches(y, i as nat) && x == relabel_edge(y, i as nat, last) {
            let y = choose|y: EdgeView| es0.contains(y) && !touches(y, i as nat) && x == relabel_edge(y, i as nat, last);
            assert(es1.contains(y));
            let k = choose|k: int| 0 <= k < es1.len() && es1[k] == y;
            assert(es2[k] == x);
        }
    }
}

// ---------------------------------------------------------------------------
// The knowledge graph
// ---------------------------------------------------------------------------
/// Error of a graph operation.
#[derive(Debug, Clone)]
pub enum GraphError {
    /// No node has the given path.
    NodeNotFound(String),
}

/// The name for the path-to-index mapping that a `HashMap<String, usize>` holds.
pub uninterp spec fn index_map_contents(m: HashMap<String, usize>) -> Map<Seq<char>, usize>;

/// `HashMap::new`: an empty map.
#[verifier::external_body]
fn index_map_new() -> (m: HashMap<String, usize>)
    ensures
        index_map_contents(m).dom() == Set::<Seq<char>>::empty(),
{
    HashMap::new()
}

/// `HashMap::clear`: removes every entry.
#[verifier::external_body]
fn index_map_clear(m: &mut HashMap<String, usize>)
    ensures
        index_map_contents(*final(m)).dom() == Set::<Seq<char>>::empty(),
{
    m.clear()
}

/// `HashMap::get` (copying the value): the index bound to `key`, if any.
#[verifier::external_body]
fn index_map_get(m: &HashMap<String, usize>, key: &str) -> (r: Option<usize>)
    ensures
        match r {
            Some(v) => index_map_contents(*m).dom().contains(key@) && index_map_contents(*m)[key@] == v,
            None => !index_map_contents(*m).dom().contains(key@),
        },
{
    m.get(key).copied()
}

/// `HashMap::insert`: binds `key` to `v`, replacing any earlier binding.
#[verifier::external_body]
fn index_map_insert(m: &mut HashMap<String, usize>, key: String, v: usize)
    ensures
        index_map_contents(*final(m)) == index_map_contents(*old(m)).insert(key@, v),
{
    let _ = m.insert(key, v);
}

/// `HashMap::remove`: drops the binding of `key`, if any.
#[verifier::external_body]
fn index_map_remove(m: &mut HashMap<String, usize>, key: &str)
    ensures
        index_map_contents(*final(m)) == index_map_contents(*old(m)).remove(key@),
{
    let _ = m.remove(key);
}

/// `m` binds the paths of the first `k` nodes, each to its index, and nothing else.
pub open spec fn indexes_prefix(m: Map<Seq<char>, usize>, ns: Seq<NodeView>, k: int) -> bool {
    &&& forall|p: Seq<char>| #[trigger] m.dom().contains(p) ==> m[p] < k && m[p] < ns.len() && ns[m[p] as int].0 == p
    &&& forall|i: int| 0 <= i < k && i < ns.len() ==> #[trigger] m.dom().contains(ns[i].0)
}

/// Knowledge graph with typed, weighted, directed edges.
pub struct KnowledgeGraph {
    graph: Graph<GraphNode, GraphEdge, Directed, u32>,
    /// Map from document path to node index, for constant-time lookup.
    node_map: HashMap<String, usize>,
}

impl KnowledgeGraph {
    /// The nodes `(path, title)` in node-index order.
    pub closed spec fn nodes(&self) -> Seq<NodeView> {
        graph_nodes(self.graph)
    }

    /// The edges `(source, target, data)` in edge-index order.
    pub closed spec fn edges(&self) -> Seq<EdgeView> {
        graph_edges(self.graph)
    }

    /// The path map binds each node's path to its index, and nothing else.
    pub closed spec fn map_ok(&self) -> bool {
        indexes_prefix(index_map_contents(self.node_map), self.nodes(), self.nodes().len() as int)
    }

    /// The invariant: unique paths, edges between existing nodes, unique edge keys, and the
    /// path map in step with the nodes.
    pub open spec fn wf(&self) -> bool {
        graph_wf(self.nodes(), self.edges()) && self.map_ok()
    }

    /// Create an empty knowledge graph.
    pub fn new() -> (g: Self)
        ensures
            g.wf(),
            g.nodes() == Seq::<NodeView>::empty(),
            g.edges() == Seq::<EdgeView>::empty(),
    {
        KnowledgeGraph { graph: pg_new(), node_map: index_map_new() }
    }

    /// Number of nodes.
    pub fn node_count(&self) -> (n: usize)
        ensures
            n == self.nodes().len(),
    {
        pg_node_count(&self.graph)
    }

    /// Number of edges.
    pub fn edge_count(&self) -> (n: usize)
        ensures
            n == self.edges().len(),
    {
        pg_edge_count(&self.graph)
    }

    /// The data of node `i`.
    pub(crate) fn node_at(&self, i: usize) -> (r: &GraphNode)
        requires
            i < self.nodes().len(),
        ensures
            r@ == self.nodes()[i as int],
    {
        pg_node_weight(&self.graph, i).unwrap()
    }

    /// The data of edge `e`.
    pub(crate) fn edge_at(&self, e: usize) -> (r: &GraphEdge)
        requires
            e < self.edges().len(),
        ensures
            r@ == self.edges()[e as int].2,
    {
        pg_edge_weight(&self.graph, e).unwrap()
    }

    /// The edges that leave (`outgoing`) or enter node `i`, each once, as
    /// `(edge index, source, target)`, in petgraph's list order.
    pub(crate) fn edges_at(&self, i: usize, outgoing: bool) -> (r: Vec<(usize, usize, usize)>)
        requires
            i < self.nodes().len(),
        ensures
            forall|k: int| 0 <= k < r.len() ==> {
                &&& #[trigger] r[k].0 < self.edges().len()
                &&& r[k].1 == self.edges()[r[k].0 as int].0
                &&& r[k].2 == self.edges()[r[k].0 as int].1
                &&& incident_in(self.edges(), r[k].0 as int, i as nat, outgoing)
            },
            forall|e: int| 0 <= e < self.edges().len() && incident_in(self.edges(), e, i as nat, outgoing)
                ==> exists|k: int| 0 <= k < r.len() && #[trigger] r[k].0 == e,
            forall|k: int, l: int| 0 <= k < l < r.len() ==> r[k].0 != r[l].0,
    {
        pg_edges_directed(&self.graph, i, outgoing)
    }

    /// Source and target of edge `e`.
    pub(crate) fn endpoints_at(&self, e: usize) -> (r: (usize, usize))
        requires
            e < self.edges().len(),
        ensures
            r.0 == self.edges()[e as int].0,
            r.1 == self.edges()[e as int].1,
    {
        pg_edge_endpoints(&self.graph, e).unwrap()
    }

    /// All nodes, in node-index order.
    pub fn node_entries(&self) -> (r: Vec<GraphNode>)
        ensures
            r.len() == self.nodes().len(),
            forall|i: int| 0 <= i < r.len() ==> #[trigger] r[i]@ == self.nodes()[i],
    {
        let n = pg_node_count(&self.graph);
        let mut r: Vec<GraphNode> = Vec::new();
        while r.len() < n
            invariant
                n == self.nodes().len(),
                r.len() <= n,
                forall|i: int| 0 <= i < r.len() ==> #[trigger] r[i]@ == self.nodes()[i],
            decreases n - r.len(),
        {
            let node = self.node_at(r.len());
            let copy = GraphNode { path: node.path.clone(), title: node.title.clone() };
            r.push(copy);
        }
        r
    }

    /// All edges as `(source index, target index, data)`, in edge-index order.
    pub fn edge_entries(&self) -> (r: Vec<(usize, usize, GraphEdge)>)
        ensures
            r.len() == self.edges().len(),
            forall|e: int| 0 <= e < r.len() ==> #[trigger] r[e].0 == self.edges()[e].0 && r[e].1 == self.edges()[e].1
                && r[e].2@ == self.edges()[e].2,
    {
        let m = pg_edge_count(&self.graph);
        let mut r: Vec<(usize, usize, GraphEdge)> = Vec::new();
        while r.len() < m
            invariant
                m == self.edges().len(),
                r.len() <= m,
                forall|e: int| 0 <= e < r.len() ==> #[trigger] r[e].0 == self.edges()[e].0 && r[e].1 == self.edges()[e].1
                    && r[e].2@ == self.edges()[e].2,
            decreases m - r.len(),
        {
            let e = r.len();
            let (a, b) = self.endpoints_at(e);
            let w = self.edge_at(e);
            let copy = GraphEdge {
                edge_type: w.edge_type.clone(),
                weight_bits: w.weight_bits,
                provenance: w.provenance,
                class: w.class,
            };
            r.push((a, b, copy));
        }
        r
    }

    /// Get the node index for a path.
    pub fn get_node(&self, path: &str) -> (r: Option<usize>)
        requires
            self.wf(),
        ensures
            match r {
                Some(i) => i < self.nodes().len() && self.nodes()[i as int].0 == path@,
                None => !has_path(self.nodes(), path@),
            },
    {
        let r = index_map_get(&self.node_map, path);
        proof {
            if r is None && has_path(self.nodes(), path@) {
                let i = choose|i: int| 0 <= i < self.nodes().len() && #[trigger] self.nodes()[i].0 == path@;
                assert(index_map_contents(self.node_map).dom().contains(self.nodes()[i].0));
            }
        }
        r
    }

    /// Binds every node's path to its index afresh.
    fn rebuild_node_map(&mut self)
        requires
            paths_unique(old(self).nodes()),
        ensures
            final(self).map_ok(),
            final(self).nodes() == old(self).nodes(),
            final(self).edges() == old(self).edges(),
    {
        index_map_clear(&mut self.node_map);
        let n = pg_node_count(&self.graph);
        let mut k: usize = 0;
        while k < n
            invariant
                n == self.nodes().len(),
                k <= n,
                self.nodes() == old(self).nodes(),
                self.edges() == old(self).edges(),
                paths_unique(self.nodes()),
                indexes_prefix(index_map_contents(self.node_map), self.nodes(), k as int),
            decreases n - k,
        {
            let ghost m0 = index_map_contents(self.node_map);
            let path = self.node_at(k).path.clone();
            proof {
                assert(!m0.dom().contains(path@)) by {
                    if m0.dom().contains(path@) {
                        let j = m0[path@] as int;
                        assert(self.nodes()[j].0 != self.nodes()[k as int].0);
                    }
                }
            }
            index_map_insert(&mut self.node_map, path, k);
            proof {
                let m1 = index_map_contents(self.node_map);
                assert forall|p: Seq<char>| #[trigger] m1.dom().contains(p) implies m1[p] < k + 1 && m1[p] < self.nodes().len()
                    && self.nodes()[m1[p] as int].0 == p by {
                    if p != self.nodes()[k as int].0 {
                        assert(m0.dom().contains(p));
                    }
                }
                assert forall|i: int| 0 <= i < k + 1 && i < self.nodes().len() implies #[trigger] m1.dom().contains(self.nodes()[i].0) by {
                    if i < k {
                        assert(m0.dom().contains(self.nodes()[i].0));
                    }
                }
            }
            k += 1;
        }
    }

    /// Add or update a node: a new path is appended, a known path gets the new title.
    /// Returns the node's index.
    pub fn add_node(&mut self, path: &str, title: Option<&str>) -> (i: usize)
        requires
            old(self).wf(),
            has_path(old(self).nodes(), path@) || old(self).nodes().len() < u32::MAX,
        ensures
            final(self).wf(),
            final(self).nodes() == upsert_node(old(self).nodes(), path@, opt_str_view(title)),
            final(self).edges() == old(self).edges(),
            i == path_index(final(self).nodes(), path@),
            i < final(self).nodes().len(),
    {
        let t: Option<String> = match title {
            Some(t) => Some(t.to_owned()),
            None => None,
        };
        let node = GraphNode { path: path.to_owned(), title: t };
        proof {
            lemma_upsert_node_wf(self.nodes(), self.edges(), path@, opt_str_view(title));
        }
        let ghost ns0 = self.nodes();
        let ghost m0 = index_map_contents(self.node_map);
        match self.get_node(path) {
            Some(i) => {
                proof {
                    lemma_path_index(self.nodes(), path@, i as int);
                }
                pg_set_node_weight(&mut self.graph, i, node);
                proof {
                    let ns1 = self.nodes();
                    assert forall|p: Seq<char>| #[trigger] m0.dom().contains(p) implies m0[p] < ns1.len() && m0[p] < ns1.len()
                        && ns1[m0[p] as int].0 == p by {
                        assert(ns0[m0[p] as int].0 == p);
                    }
                    assert forall|j: int| 0 <= j < ns1.len() && j < ns1.len() implies #[trigger] m0.dom().contains(ns1[j].0) by {
                        assert(m0.dom().contains(ns0[j].0));
                    }
                }
                i
            },
            None => {
                let i = pg_add_node(&mut self.graph, node);
                index_map_insert(&mut self.node_map, path.to_owned(), i);
                proof {
                    let ns1 = self.nodes();
                    let m1 = index_map_contents(self.node_map);
                    assert(ns1 == ns0.push((path@, opt_str_view(title))));
                    assert forall|p: Seq<char>| #[trigger] m1.dom().contains(p) implies m1[p] < ns1.len() && m1[p] < ns1.len()
                        && ns1[m1[p] as int].0 == p by {
                        if p != path@ {
                            assert(m0.dom().contains(p));
                            assert(ns1[m0[p] as int] == ns0[m0[p] as int]);
                        }
                    }
                    assert forall|j: int| 0 <= j < ns1.len() && j < ns1.len() implies #[trigger] m1.dom().contains(ns1[j].0) by {
                        if j < ns0.len() {
                            assert(ns1[j] == ns0[j]);
                            assert(m0.dom().contains(ns0[j].0));
                        }
                    }
                }
                i
            },
        }
    }

    /// Ensure a node exists: a new path is added with no title; a present node is upserted
    /// with no title, as `add_node(path, None)` does.
    pub fn ensure_node(&mut self, path: &str)
        requires
            old(self).wf(),
            has_path(old(self).nodes(), path@) || old(self).nodes().len() < u32::MAX,
        ensures
            final(self).wf(),
            final(self).nodes() == upsert_node(old(self).nodes(), path@, None),
            final(self).edges() == old(self).edges(),
    {
        let _ = self.add_node(path, None);
    }

    /// Add a directed edge between two nodes, creating missing endpoints. Both endpoints
    /// are upserted with no title. An edge with the same source, target and edge type gets
    /// the new weight, provenance and class instead of a parallel edge.
    pub fn add_edge(
        &mut self,
        source: &str,
        target: &str,
        edge_type: &str,
        weight_bits: u32,
        provenance: EdgeProvenance,
        class: EdgeClass,
    )
        requires
            old(self).wf(),
            old(self).nodes().len() + 2 <= u32::MAX,
            old(self).edges().len() < u32::MAX,
        ensures
            final(self).wf(),
            (final(self).nodes(), final(self).edges()) == after_add_edge(
                old(self).nodes(),
                old(self).edges(),
                source@,
                target@,
                (edge_type@, weight_bits, provenance, class),
            ),
    {
        let ghost ns0 = self.nodes();
        let ghost es0 = self.edges();
        let s = self.add_node(source, None);
        let ghost ns1 = self.nodes();
        proof {
            lemma_upsert_node_wf(ns0, es0, source@, None);
            lemma_upsert_node_wf(ns1, es0, target@, None);
        }
        let t = self.add_node(target, None);
        let ghost ns2 = self.nodes();
        proof {
            if target@ != source@ {
                assert(path_index(ns2, source@) == path_index(ns1, source@));
            }
        }
        let ghost d: EdgeData = (edge_type@, weight_bits, provenance, class);
        let out = pg_edges_directed(&self.graph, s, true);
        let mut found: Option<usize> = None;
        let mut k: usize = 0;
        while k < out.len()
            invariant
                self.wf(),
                s < self.nodes().len(),
                t < self.nodes().len(),
                k <= out.len(),
                forall|j: int| 0 <= j < out.len() ==> {
                    &&& #[trigger] out[j].0 < self.edges().len()
                    &&& out[j].1 == self.edges()[out[j].0 as int].0
                    &&& out[j].2 == self.edges()[out[j].0 as int].1
                    &&& incident_in(self.edges(), out[j].0 as int, s as nat, true)
                },
                match found {
                    Some(e) => e < self.edges().len() && self.edges()[e as int].0 == s && self.edges()[e as int].1 == t
                        && self.edges()[e as int].2.0 == edge_type@,
                    None => forall|j: int| 0 <= j < k ==> !(self.edges()[out[j].0 as int].1 == t
                        && self.edges()[out[j].0 as int].2.0 == edge_type@),
                },
            decreases out.len() - k,
        {
            if found.is_none() {
                let (e, _src, tgt) = out[k];
                if tgt == t {
                    let w = pg_edge_weight(&self.graph, e).unwrap();
                    if crate::text::str_eq(w.edge_type.as_str(), edge_type) {
                        found = Some(e);
                    }
                }
            }
            k += 1;
        }
        let w = GraphEdge { edge_type: edge_type.to_owned(), weight_bits, provenance, class };
        match found {
            Some(e) => {
                proof {
                    lemma_key_index(self.edges(), e as int);
                    lemma_upsert_edge_wf(ns2, es0, s as nat, t as nat, d);
                }
                pg_set_edge_weight(&mut self.graph, e, w);
            },
            None => {
                proof {
                    if has_key(es0, s as nat, t as nat, edge_type@) {
                        let e = key_index(es0, s as nat, t as nat, edge_type@);
                        assert(incident_in(es0, e, s as nat, true));
                        let j = choose|j: int| 0 <= j < out.len() && #[trigger] out[j].0 == e;
                        assert(false);
                    }
                    lemma_upsert_edge_wf(ns2, es0, s as nat, t as nat, d);
                }
                let _ = pg_add_edge(&mut self.graph, s, t, w);
            },
        }
    }

    /// Remove every edge that leaves node `i` (`outgoing`) or enters it, always the first
    /// one petgraph lists for the node, as petgraph's own node removal does.
    fn remove_incident_edges(&mut self, i: usize, outgoing: bool)
        requires
            old(self).wf(),
            i < old(self).nodes().len(),
        ensures
            final(self).wf(),
            final(self).nodes() == old(self).nodes(),
            forall|x: EdgeView| #[trigger] final(self).edges().contains(x) <==> (old(self).edges().contains(x)
                && !(if outgoing { x.0 == i } else { x.1 == i })),
    {
        let ghost es0 = self.edges();
        let mut done = false;
        while !done
            invariant
                self.wf(),
                self.nodes() == old(self).nodes(),
                es0 == old(self).edges(),
                i < self.nodes().len(),
                forall|x: EdgeView| self.edges().contains(x) ==> es0.contains(x),
                forall|x: EdgeView| es0.contains(x) && !(if outgoing { x.0 == i } else { x.1 == i }) ==> self.edges().contains(x),
                done ==> forall|e: int| 0 <= e < self.edges().len() ==> !incident_in(self.edges(), e, i as nat, outgoing),
            decreases self.edges().len() + if done { 0int } else { 1int },
        {
            let listed = self.edges_at(i, outgoing);
            if listed.len() == 0 {
                done = true;
                proof {
                    assert forall|e: int| 0 <= e < self.edges().len() implies !incident_in(self.edges(), e, i as nat, outgoing) by {
                        if incident_in(self.edges(), e, i as nat, outgoing) {
                            let k = choose|k: int| 0 <= k < listed.len() && #[trigger] listed[k].0 == e;
                        }
                    }
                }
            } else {
                let e = listed[0].0;
                let ghost es1 = self.edges();
                proof {
                    assert(incident_in(es1, e as int, i as nat, outgoing));
                    lemma_swap_remove_edge_wf(self.nodes(), es1, e as int);
                    lemma_swap_remove(es1, e as int);
                }
                let _ = pg_remove_edge(&mut self.graph, e);
            }
        }
        proof {
            assert forall|x: EdgeView| #[trigger] self.edges().contains(x) implies !(if outgoing { x.0 == i } else { x.1 == i }) by {
                let k = choose|k: int| 0 <= k < self.edges().len() && self.edges()[k] == x;
                assert(!incident_in(self.edges(), k, i as nat, outgoing));
            }
        }
    }

    /// Remove every edge that leaves or enters node `i`: the outgoing ones first, then the
    /// incoming ones, each time the first that petgraph lists for the node.
    fn remove_edges_touching(&mut self, i: usize)
        requires
            old(self).wf(),
            i < old(self).nodes().len(),
        ensures
            final(self).wf(),
            final(self).nodes() == old(self).nodes(),
            forall|x: EdgeView| #[trigger] final(self).edges().contains(x) <==> (old(self).edges().contains(x)
                && !touches(x, i as nat)),
    {
        let ghost es0 = self.edges();
        self.remove_incident_edges(i, true);
        let ghost es1 = self.edges();
        self.remove_incident_edges(i, false);
        proof {
            assert forall|x: EdgeView| #[trigger] self.edges().contains(x) <==> (es0.contains(x) && !touches(x, i as nat)) by {
                if self.edges().contains(x) {
                    assert(es1.contains(x));
                }
                if es0.contains(x) && !touches(x, i as nat) {
                    assert(es1.contains(x));
                }
            }
        }
    }

    /// Remove all edges where the given path is source or target.
    pub fn remove_edges_for_node(&mut self, path: &str)
        requires
            old(self).wf(),
        ensures
            final(self).wf(),
            final(self).nodes() == old(self).nodes(),
            !has_path(old(self).nodes(), path@) ==> final(self).edges() == old(self).edges(),
            has_path(old(self).nodes(), path@) ==> forall|x: EdgeView| #[trigger] final(self).edges().contains(x) <==> (
                old(self).edges().contains(x) && !touches(x, path_index(old(self).nodes(), path@) as nat)),
    {
        match self.get_node(path) {
            Some(i) => {
                proof {
                    lemma_path_index(self.nodes(), path@, i as int);
                }
                self.remove_edges_touching(i);
            },
            None => {},
        }
    }

    /// Remove a node and all its edges. The last node takes the index of the removed one.
    pub fn remove_node(&mut self, path: &str) -> (r: Result<(), GraphError>)
        requires
            old(self).wf(),
        ensures
            final(self).wf(),
            r is Ok <==> has_path(old(self).nodes(), path@),
            r matches Err(GraphError::NodeNotFound(p)) ==> p@ == path@ && final(self).nodes() == old(self).nodes()
                && final(self).edges() == old(self).edges(),
            r is Ok ==> {
                let i = path_index(old(self).nodes(), path@);
                let last = (old(self).nodes().len() - 1) as nat;
                &&& final(self).nodes() == swap_remove(old(self).nodes(), i)
                &&& forall|x: EdgeView| #[trigger] final(self).edges().contains(x) <==> exists|y: EdgeView|
                    old(self).edges().contains(y) && !touches(y, i as nat) && x == relabel_edge(y, i as nat, last)
            },
    {
        match self.get_node(path) {
            None => Err(GraphError::NodeNotFound(path.to_owned())),
            Some(i) => {
                proof {
                    lemma_path_index(self.nodes(), path@, i as int);
                }
                let ghost ns0 = self.nodes();
                let ghost es0 = self.edges();
                self.remove_edges_touching(i);
                let ghost es1 = self.edges();
                proof {
                    assert forall|e: int| 0 <= e < es1.len() implies es1[e].0 != i && es1[e].1 != i by {
                        assert(es1.contains(es1[e]));
                    }
                }
                let _ = pg_remove_node(&mut self.graph, i);
                proof {
                    lemma_remove_isolated_node(ns0, es0, es1, self.edges(), i as int);
                }
                self.rebuild_node_map();
                Ok(())
            },
        }
    }
}

} // verus!
