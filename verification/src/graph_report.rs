//! Reports on the knowledge graph: degrees, orphans, link listings, statistics and
//! taxonomy checks (orphan ADRs, broken links, cycles).
use vstd::prelude::*;

use crate::graph::{
    graph_wf, has_path, incident_in, lemma_path_index, path_index, paths_unique, EdgeClass, EdgeData, EdgeProvenance,
    EdgeView, KnowledgeGraph, NodeView,
};
use crate::text::opt_view;

verus! {

// ---------------------------------------------------------------------------
// Degrees
// ---------------------------------------------------------------------------
/// The number of edges that leave node `v`.
pub open spec fn count_out(es: Seq<EdgeView>, v: nat) -> nat
    decreases es.len(),
{
    if es.len() == 0 {
        0
    } else {
        count_out(es.drop_last(), v) + if es.last().0 == v { 1nat } else { 0nat }
    }
}

/// The number of edges that enter node `v`.
pub open spec fn count_in(es: Seq<EdgeView>, v: nat) -> nat
    decreases es.len(),
{
    if es.len() == 0 {
        0
    } else {
        count_in(es.drop_last(), v) + if es.last().1 == v { 1nat } else { 0nat }
    }
}

/// In-degree plus out-degree (a self-loop counts twice).
pub open spec fn degree(es: Seq<EdgeView>, v: nat) -> nat {
    count_in(es, v) + count_out(es, v)
}

pub proof fn lemma_counts_bounded(es: Seq<EdgeView>, v: nat)
    ensures
        count_in(es, v) <= es.len(),
        count_out(es, v) <= es.len(),
    decreases es.len(),
{
    if es.len() > 0 {
        lemma_counts_bounded(es.drop_last(), v);
    }
}

/// A node with no edge counted has degree 0.
pub proof fn lemma_degree_zero(es: Seq<EdgeView>, v: nat)
    ensures
        degree(es, v) == 0 <==> forall|e: int| 0 <= e < es.len() ==> es[e].0 != v && es[e].1 != v,
    decreases es.len(),
{
    if es.len() > 0 {
        let d = es.drop_last();
        lemma_degree_zero(d, v);
        assert forall|e: int| 0 <= e < es.len() - 1 implies #[trigger] d[e] == es[e] by {}
        if degree(es, v) == 0 {
            assert forall|e: int| 0 <= e < es.len() implies es[e].0 != v && es[e].1 != v by {
                if e < es.len() - 1 {
                    assert(d[e] == es[e]);
                }
            }
        } else {
            if forall|e: int| 0 <= e < es.len() ==> es[e].0 != v && es[e].1 != v {
                assert forall|e: int| 0 <= e < d.len() implies d[e].0 != v && d[e].1 != v by {
                    assert(d[e] == es[e]);
                }
                assert(es[es.len() - 1] == es.last());
            }
        }
    }
}

/// The paths of the nodes among the first `k` that have no edges, in node order.
pub open spec fn orphan_list(ns: Seq<NodeView>, es: Seq<EdgeView>, k: nat) -> Seq<Seq<char>>
    decreases k,
{
    if k == 0 {
        Seq::empty()
    } else {
        let rest = orphan_list(ns, es, (k - 1) as nat);
        if degree(es, (k - 1) as nat) == 0 {
            rest.push(ns[k - 1].0)
        } else {
            rest
        }
    }
}

// ---------------------------------------------------------------------------
// Report types
// ---------------------------------------------------------------------------
/// Graph statistics.
#[derive(Debug, Clone)]
pub struct GraphStats {
    /// Total number of nodes.
    pub node_count: usize,
    /// Total number of edges.
    pub edge_count: usize,
    /// Nodes with zero edges (neither incoming nor outgoing).
    pub orphan_count: usize,
    /// Top 10 nodes by total degree (incoming + outgoing).
    pub most_connected: Vec<(String, usize)>,
    /// Count of edges per edge type, in order of first appearance.
    pub edge_type_distribution: Vec<(String, usize)>,
}

/// Orphan ADR detected in taxonomy validation.
#[derive(Debug, Clone)]
pub struct OrphanAdr {
    /// Path to the orphan ADR note.
    pub path: String,
    /// Note title if known.
    pub title: Option<String>,
    /// Human-readable explanation.
    pub reason: String,
}

/// Broken link detected in taxonomy validation.
#[derive(Debug, Clone)]
pub struct BrokenLink {
    /// Source document path containing the link.
    pub source: String,
    /// Target path or wikilink that could not be resolved.
    pub target: String,
    /// Edge type (e.g. "Wikilink", "supersedes", etc.).
    pub edge_type: String,
    /// Edge provenance.
    pub provenance: EdgeProvenance,
}

/// Circular dependency detected in a directed acyclic relation.
#[derive(Debug, Clone)]
pub struct CircularDependency {
    /// The edge type where the cycle exists (e.g. "supersedes").
    pub edge_type: String,
    /// The cycle path (e.g. ["A.md", "B.md", "A.md"]).
    pub cycle: Vec<String>,
}

/// An edge with its endpoints named by path.
#[derive(Debug, Clone)]
pub struct EdgeRecord {
    /// Source document path.
    pub source: String,
    /// Target document path.
    pub target: String,
    /// Edge type name.
    pub edge_type: String,
    /// Weight of this edge, as the bit pattern of an IEEE-754 `f32`.
    pub weight_bits: u32,
    /// How this edge was created.
    pub provenance: EdgeProvenance,
}

/// The number of edges of type `t`.
pub open spec fn count_type(es: Seq<EdgeView>, t: Seq<char>) -> nat
    decreases es.len(),
{
    if es.len() == 0 {
        0
    } else {
        count_type(es.drop_last(), t) + if es.last().2.0 == t { 1nat } else { 0nat }
    }
}

/// Some entry of `dist` is for type `t`.
pub open spec fn lists_type(dist: Seq<(String, usize)>, t: Seq<char>) -> bool {
    exists|k: int| 0 <= k < dist.len() && #[trigger] dist[k].0@ == t
}

/// Some string of `types` is `t`.
pub open spec fn lists_string(types: Seq<String>, t: Seq<char>) -> bool {
    exists|k: int| 0 <= k < types.len() && #[trigger] types[k]@ == t
}

/// `dist` counts the edges of each edge type: every type that occurs is listed once, with
/// its number of edges.
pub open spec fn type_distribution(es: Seq<EdgeView>, dist: Seq<(String, usize)>) -> bool {
    &&& forall|k: int| 0 <= k < dist.len() ==> #[trigger] dist[k].1 == count_type(es, dist[k].0@) && dist[k].1 >= 1
    &&& forall|k: int, l: int| 0 <= k < l < dist.len() ==> #[trigger] dist[k].0@ != #[trigger] dist[l].0@
    &&& forall|e: int| 0 <= e < es.len() ==> lists_type(dist, (#[trigger] es[e]).2.0)
}

/// Node `a` ranks above node `b`: higher degree, or the same degree and a lower index.
pub open spec fn ranks_above(es: Seq<EdgeView>, a: nat, b: nat) -> bool {
    degree(es, a) > degree(es, b) || (degree(es, a) == degree(es, b) && a < b)
}

/// `picked` are the `want` highest-ranked nodes among `0..n`, best first.
pub open spec fn top_ranked(n: nat, es: Seq<EdgeView>, picked: Seq<usize>, want: nat) -> bool {
    &&& picked.len() == want
    &&& forall|k: int| 0 <= k < picked.len() ==> #[trigger] picked[k] < n
    &&& forall|k: int, l: int| 0 <= k < l < picked.len() ==> ranks_above(es, #[trigger] picked[k] as nat, #[trigger] picked[l] as nat)
    &&& forall|v: usize, k: int| v < n && !picked.contains(v) && 0 <= k < picked.len() ==> #[trigger] ranks_above(es, picked[k] as nat, v as nat)
}

/// How many nodes the most-connected list holds: ten, or all when there are fewer.
pub open spec fn top_count(n: nat) -> nat {
    if n < 10 { n } else { 10 }
}

/// `r` lists `(path, degree)` of the ten highest-ranked nodes (all of them when there are
/// fewer), best first.
#[verifier::opaque]
pub open spec fn lists_most_connected(ns: Seq<NodeView>, es: Seq<EdgeView>, r: Seq<(String, usize)>) -> bool {
    exists|picked: Seq<usize>| #[trigger] top_ranked(ns.len(), es, picked, top_count(ns.len()))
        && r.len() == picked.len() && forall|k: int| 0 <= k < r.len() ==> #[trigger] r[k].0@ == ns[picked[k] as int].0
        && r[k].1 == degree(es, picked[k] as nat)
}

pub proof fn lemma_count_type_bounded(es: Seq<EdgeView>, t: Seq<char>)
    ensures
        count_type(es, t) <= es.len(),
    decreases es.len(),
{
    if es.len() > 0 {
        lemma_count_type_bounded(es.drop_last(), t);
    }
}

/// An edge's own type is counted.
pub proof fn lemma_count_type_pos(es: Seq<EdgeView>, e: int)
    requires
        0 <= e < es.len(),
    ensures
        count_type(es, es[e].2.0) > 0,
    decreases es.len(),
{
    if e < es.len() - 1 {
        lemma_count_type_pos(es.drop_last(), e);
        assert(es.drop_last()[e] == es[e]);
    }
}

/// Inserting the next node `i` at position `p` of the sorted top list (and keeping at most
/// ten) gives the top list of one more node.
pub proof fn lemma_top_insert(es: Seq<EdgeView>, i: nat, t0: Seq<usize>, t1: Seq<usize>, p: int)
    requires
        i <= usize::MAX,
        top_ranked(i, es, t0, top_count(i)),
        i < 10 ==> forall|u: usize| u < i ==> t0.contains(u),
        0 <= p <= t0.len(),
        p < 10,
        forall|k: int| 0 <= k < p ==> ranks_above(es, #[trigger] t0[k] as nat, i),
        forall|k: int| p <= k < t0.len() ==> ranks_above(es, i, #[trigger] t0[k] as nat),
        t1 == (if t0.len() + 1 > 10 { t0.insert(p, i as usize).take(10) } else { t0.insert(p, i as usize) }),
    ensures
        top_ranked(i + 1, es, t1, top_count(i + 1)),
        i + 1 < 10 ==> forall|u: usize| u < i + 1 ==> t1.contains(u),
{
    let ins = t0.insert(p, i as usize);
    assert forall|k: int| 0 <= k < ins.len() implies #[trigger] ins[k] == if k < p { t0[k] } else if k == p { i as usize } else { t0[k - 1] } by {}
    assert forall|k: int, l: int| 0 <= k < l < t1.len() implies ranks_above(es, #[trigger] t1[k] as nat, #[trigger] t1[l] as nat) by {
        assert(t1[k] == ins[k] && t1[l] == ins[l]);
        if k < p && l > p {
            assert(ranks_above(es, t0[k] as nat, i));
            assert(ranks_above(es, i, t0[l - 1] as nat));
        } else if k < p && l < p {
        } else if k == p {
        } else if l == p {
        } else {
            assert(ranks_above(es, t0[k - 1] as nat, t0[l - 1] as nat));
        }
    }
    assert forall|k: int| 0 <= k < t1.len() implies #[trigger] t1[k] < i + 1 by {
        assert(t1[k] == ins[k]);
    }
    assert forall|v: usize, k: int| v < i + 1 && !t1.contains(v) && 0 <= k < t1.len() implies #[trigger] ranks_above(es, t1[k] as nat, v as nat) by {
        assert(t1[k] == ins[k]);
        if v == i {
            assert(t1[p] == i as usize);
            assert(false);
        }
        if t0.contains(v) {
            // the dropped last element of the full list
            let j = choose|j: int| 0 <= j < t0.len() && t0[j] == v;
            if j < p {
                assert(t1[j] == v);
                assert(false);
            } else {
                assert(ins[j + 1] == v);
                if j + 1 < t1.len() {
                    assert(t1[j + 1] == v);
                    assert(false);
                }
                assert(j + 1 >= 10);
                if k < p {
                    assert(ranks_above(es, t0[k] as nat, t0[j] as nat));
                } else if k == p {
                } else {
                    assert(ranks_above(es, t0[k - 1] as nat, t0[j] as nat));
                }
            }
        } else {
            assert(v < i);
            if k < p {
                assert(ranks_above(es, t0[k] as nat, v as nat));
            } else if k == p {
                if t0.len() > 0 {
                    let last = t0.len() - 1;
                    assert(ranks_above(es, t0[last] as nat, v as nat));
                    if p <= last {
                        assert(ranks_above(es, i, t0[last] as nat));
                    } else {
                        assert(t0.len() == p);
                        assert(i < 10);
                        assert(t0.contains(v));
                    }
                } else {
                    assert(i == 0);
                }
            } else {
                assert(ranks_above(es, t0[k - 1] as nat, v as nat));
            }
        }
    }
    if i + 1 < 10 {
        assert forall|u: usize| u < i + 1 implies t1.contains(u) by {
            if u == i {
                assert(t1[p] == i as usize);
            } else {
                assert(t0.contains(u));
                let j = choose|j: int| 0 <= j < t0.len() && t0[j] == u;
                if j < p {
                    assert(t1[j] == u);
                } else {
                    assert(t1[j + 1] == ins[j + 1]);
                }
            }
        }
    }
}

impl KnowledgeGraph {
    /// In-degree and out-degree of every node, in node order.
    pub(crate) fn degrees(&self) -> (r: (Vec<usize>, Vec<usize>))
        requires
            self.wf(),
        ensures
            r.0.len() == self.nodes().len(),
            r.1.len() == self.nodes().len(),
            forall|v: int| 0 <= v < self.nodes().len() ==> #[trigger] r.0[v] == count_in(self.edges(), v as nat)
                && r.1[v] == count_out(self.edges(), v as nat),
    {
        let n = self.node_count();
        let m = self.edge_count();
        let mut ins: Vec<usize> = Vec::new();
        let mut outs: Vec<usize> = Vec::new();
        while ins.len() < n
            invariant
                ins.len() == outs.len(),
                ins.len() <= n,
                forall|v: int| 0 <= v < ins.len() ==> ins[v] == 0 && outs[v] == 0,
            decreases n - ins.len(),
        {
            ins.push(0);
            outs.push(0);
        }
        let mut e: usize = 0;
        while e < m
            invariant
                self.wf(),
                n == self.nodes().len(),
                m == self.edges().len(),
                e <= m,
                ins.len() == n,
                outs.len() == n,
                forall|v: int| 0 <= v < n ==> #[trigger] ins[v] == count_in(self.edges().take(e as int), v as nat)
                    && outs[v] == count_out(self.edges().take(e as int), v as nat),
            decreases m - e,
        {
            let (a, b) = self.endpoints_at(e);
            let ghost es = self.edges();
            proof {
                assert(es.take(e + 1).drop_last() == es.take(e as int));
                assert(es.take(e + 1).last() == es[e as int]);
                assert(es[e as int].0 < n && es[e as int].1 < n);
                lemma_counts_bounded(es.take(e as int), a as nat);
                lemma_counts_bounded(es.take(e as int), b as nat);
            }
            assert(ins[a as int] == count_in(es.take(e as int), a as nat));
            assert(outs[a as int] == count_out(es.take(e as int), a as nat));
            assert(ins[b as int] == count_in(es.take(e as int), b as nat));
            let ghost ins0 = ins@;
            let ghost outs0 = outs@;
            outs.set(a, outs[a] + 1);
            ins.set(b, ins[b] + 1);
            proof {
                assert forall|v: int| 0 <= v < n implies #[trigger] ins[v] == count_in(es.take(e + 1), v as nat)
                    && outs[v] == count_out(es.take(e + 1), v as nat) by {
                    assert(ins0[v] == count_in(es.take(e as int), v as nat));
                    assert(outs0[v] == count_out(es.take(e as int), v as nat));
                }
            }
            e += 1;
        }
        proof {
            assert(self.edges().take(m as int) == self.edges());
        }
        (ins, outs)
    }

    /// Get per-node degree information: (path, in_degree, out_degree), in node order.
    pub fn node_degree_list(&self) -> (r: Vec<(String, usize, usize)>)
        requires
            self.wf(),
        ensures
            r.len() == self.nodes().len(),
            forall|v: int| 0 <= v < r.len() ==> #[trigger] r[v].0@ == self.nodes()[v].0 && r[v].1 == count_in(
                self.edges(),
                v as nat,
            ) && r[v].2 == count_out(self.edges(), v as nat),
    {
        let (ins, outs) = self.degrees();
        let n = self.node_count();
        let mut r: Vec<(String, usize, usize)> = Vec::new();
        let mut v: usize = 0;
        while v < n
            invariant
                n == self.nodes().len(),
                ins.len() == n,
                outs.len() == n,
                forall|u: int| 0 <= u < n ==> #[trigger] ins[u] == count_in(self.edges(), u as nat) && outs[u] == count_out(
                    self.edges(),
                    u as nat,
                ),
                v <= n,
                r.len() == v,
                forall|u: int| 0 <= u < v ==> #[trigger] r[u].0@ == self.nodes()[u].0 && r[u].1 == count_in(
                    self.edges(),
                    u as nat,
                ) && r[u].2 == count_out(self.edges(), u as nat),
            decreases n - v,
        {
            let node = self.node_at(v);
            let ghost r0 = r@;
            r.push((node.path.clone(), ins[v], outs[v]));
            proof {
                assert forall|u: int| 0 <= u < v + 1 implies #[trigger] r[u].0@ == self.nodes()[u].0 && r[u].1 == count_in(
                    self.edges(),
                    u as nat,
                ) && r[u].2 == count_out(self.edges(), u as nat) by {
                    if u < v {
                        assert(r[u] == r0[u]);
                    }
                }
            }
            v += 1;
        }
        proof {
            assert forall|u: int| 0 <= u < r.len() implies #[trigger] r[u].0@ == self.nodes()[u].0 && r[u].1 == count_in(
                self.edges(),
                u as nat,
            ) && r[u].2 == count_out(self.edges(), u as nat) by {
                assert(u < v);
            }
        }
        r
    }

    /// Get paths of all orphan nodes (nodes with no incoming or outgoing edges), in node
    /// order.
    pub fn orphan_paths(&self) -> (r: Vec<String>)
        requires
            self.wf(),
        ensures
            r@.map_values(|s: String| s@) == orphan_list(self.nodes(), self.edges(), self.nodes().len()),
    {
        let (ins, outs) = self.degrees();
        let n = self.node_count();
        let mut r: Vec<String> = Vec::new();
        let mut v: usize = 0;
        while v < n
            invariant
                n == self.nodes().len(),
                ins.len() == n,
                outs.len() == n,
                forall|u: int| 0 <= u < n ==> #[trigger] ins[u] == count_in(self.edges(), u as nat) && outs[u] == count_out(
                    self.edges(),
                    u as nat,
                ),
                v <= n,
                r@.map_values(|s: String| s@) == orphan_list(self.nodes(), self.edges(), v as nat),
            decreases n - v,
        {
            if ins[v] == 0 && outs[v] == 0 {
                let node = self.node_at(v);
                let ghost r0 = r@;
                r.push(node.path.clone());
                proof {
                    assert(r@.map_values(|s: String| s@) == r0.map_values(|s: String| s@).push(self.nodes()[v as int].0));
                }
            }
            v += 1;
        }
        r
    }
    /// Edge counts per edge type, in order of first appearance.
    fn type_counts(&self) -> (r: Vec<(String, usize)>)
        requires
            self.wf(),
        ensures
            type_distribution(self.edges(), r@),
    {
        let m = self.edge_count();
        let ghost es = self.edges();
        let mut types: Vec<String> = Vec::new();
        let mut counts: Vec<usize> = Vec::new();
        let mut e: usize = 0;
        while e < m
            invariant
                self.wf(),
                es == self.edges(),
                m == es.len(),
                e <= m,
                types.len() == counts.len(),
                forall|k: int| 0 <= k < types.len() ==> #[trigger] counts[k] == count_type(es.take(e as int), types[k]@)
                    && counts[k] >= 1,
                forall|k: int, l: int| 0 <= k < l < types.len() ==> #[trigger] types[k]@ != #[trigger] types[l]@,
                forall|t: Seq<char>| (forall|k: int| 0 <= k < types.len() ==> #[trigger] types[k]@ != t) ==> #[trigger] count_type(
                    es.take(e as int),
                    t,
                ) == 0,
            decreases m - e,
        {
            let w = self.edge_at(e);
            proof {
                assert(es.take(e + 1).drop_last() == es.take(e as int));
                assert(es.take(e + 1).last() == es[e as int]);
            }
            let mut k: usize = 0;
            let mut found = false;
            while k < types.len()
                invariant_except_break
                    k <= types.len(),
                    !found,
                    forall|j: int| 0 <= j < k ==> #[trigger] types[j]@ != w.edge_type@,
                ensures
                    found ==> k < types.len() && types[k as int]@ == w.edge_type@,
                    !found ==> forall|j: int| 0 <= j < types.len() ==> #[trigger] types[j]@ != w.edge_type@,
                decreases types.len() - k,
            {
                if crate::text::string_eq(&types[k], &w.edge_type) {
                    found = true;
                    break;
                }
                k += 1;
            }
            let ghost c0 = counts@;
            let ghost t0 = types@;
            proof {
                if found {
                    lemma_count_type_bounded(es.take(e as int), types[k as int]@);
                }
            }
            if found {
                counts.set(k, counts[k] + 1);
            } else {
                types.push(w.edge_type.clone());
                counts.push(1);
            }
            proof {
                let te = es[e as int].2.0;
                assert forall|kk: int| 0 <= kk < types.len() implies #[trigger] counts[kk] == count_type(es.take(e + 1), types[kk]@)
                    && counts[kk] >= 1 by {
                    if kk < t0.len() {
                        assert(types[kk] == t0[kk]);
                        assert(c0[kk] == count_type(es.take(e as int), t0[kk]@));
                    } else {
                        assert(forall|j: int| 0 <= j < t0.len() ==> #[trigger] t0[j]@ != te);
                        assert(count_type(es.take(e as int), te) == 0);
                    }
                }
                assert forall|t: Seq<char>| (forall|kk: int| 0 <= kk < types.len() ==> #[trigger] types[kk]@ != t) implies #[trigger] count_type(
                    es.take(e + 1),
                    t,
                ) == 0 by {
                    assert forall|kk: int| 0 <= kk < t0.len() implies #[trigger] t0[kk]@ != t by {
                        assert(types[kk] == t0[kk]);
                    }
                    assert(count_type(es.take(e as int), t) == 0);
                    assert(count_type(es.take(e + 1), t) == count_type(es.take(e as int), t) + if te == t { 1nat } else { 0nat });
                    if t == te {
                        if found {
                            assert(types[k as int]@ == te);
                        } else {
                            assert(types[t0.len() as int]@ == te);
                        }
                    }
                }
                assert forall|a: int, b: int| 0 <= a < b < types.len() implies #[trigger] types[a]@ != #[trigger] types[b]@ by {
                    if b >= t0.len() {
                        assert(types[a] == t0[a]);
                    } else {
                        assert(types[a] == t0[a] && types[b] == t0[b]);
                    }
                }
            }
            e += 1;
        }
        let mut r: Vec<(String, usize)> = Vec::new();
        let mut k: usize = 0;
        proof {
            assert(es.take(m as int) == es);
            assert forall|ee: int| 0 <= ee < es.len() implies lists_string(types@, (#[trigger] es[ee]).2.0) by {
                let t = es[ee].2.0;
                lemma_count_type_pos(es, ee);
                if forall|kk: int| 0 <= kk < types.len() ==> #[trigger] types[kk]@ != t {
                    assert(count_type(es.take(m as int), t) == 0);
                    assert(false);
                }
            }
        }
        while k < types.len()
            invariant
                k <= types.len(),
                types.len() == counts.len(),
                forall|kk: int| 0 <= kk < types.len() ==> #[trigger] counts[kk] == count_type(es, types[kk]@) && counts[kk] >= 1,
                forall|a: int, b: int| 0 <= a < b < types.len() ==> #[trigger] types[a]@ != #[trigger] types[b]@,
                forall|ee: int| 0 <= ee < es.len() ==> lists_string(types@, (#[trigger] es[ee]).2.0),
                r.len() == k,
                forall|j: int| 0 <= j < k ==> #[trigger] r[j].0@ == types[j]@ && r[j].1 == counts[j],
            decreases types.len() - k,
        {
            let ghost r0 = r@;
            r.push((types[k].clone(), counts[k]));
            proof {
                assert forall|j: int| 0 <= j < k + 1 implies #[trigger] r[j].0@ == types[j]@ && r[j].1 == counts[j] by {
                    if j < k {
                        assert(r[j] == r0[j]);
                    }
                }
            }
            k += 1;
        }
        proof {
            assert forall|kk: int| 0 <= kk < r.len() implies #[trigger] r[kk].1 == count_type(es, r[kk].0@) && r[kk].1 >= 1 by {
                assert(r[kk].0@ == types[kk]@);
            }
            assert forall|a: int, b: int| 0 <= a < b < r.len() implies #[trigger] r[a].0@ != #[trigger] r[b].0@ by {
                assert(r[a].0@ == types[a]@ && r[b].0@ == types[b]@);
            }
            assert forall|ee: int| 0 <= ee < es.len() implies lists_type(r@, (#[trigger] es[ee]).2.0) by {
                assert(lists_string(types@, es[ee].2.0));
                let kk = choose|kk: int| 0 <= kk < types.len() && #[trigger] types@[kk]@ == es[ee].2.0;
                assert(r[kk].0@ == types[kk]@);
                assert(r@[kk].0@ == es[ee].2.0);
            }
        }
        r
    }
    /// The ten highest-ranked nodes (all when there are fewer), best first, given every
    /// node's degree.
    fn most_connected_nodes(&self, deg: &Vec<usize>) -> (picked: Vec<usize>)
        requires
            self.wf(),
            deg.len() == self.nodes().len(),
            forall|v: int| 0 <= v < deg.len() ==> #[trigger] deg[v] == degree(self.edges(), v as nat),
        ensures
            top_ranked(self.nodes().len(), self.edges(), picked@, top_count(self.nodes().len())),
    {
        let ghost es = self.edges();
        let n = deg.len();
        let mut top: Vec<usize> = Vec::new();
        let mut i: usize = 0;
        while i < n
            invariant
                n == deg.len(),
                forall|v: int| 0 <= v < deg.len() ==> #[trigger] deg[v] == degree(es, v as nat),
                i <= n,
                top_ranked(i as nat, es, top@, top_count(i as nat)),
                i < 10 ==> forall|u: usize| u < i ==> top@.contains(u),
            decreases n - i,
        {
            // Position of `i`: after every kept node that ranks above it.
            let mut p: usize = 0;
            while p < top.len() && deg[top[p]] >= deg[i]
                invariant
                    p <= top.len(),
                    n == deg.len(),
                    i < n,
                    forall|v: int| 0 <= v < deg.len() ==> #[trigger] deg[v] == degree(es, v as nat),
                    top_ranked(i as nat, es, top@, top_count(i as nat)),
                    forall|k: int| 0 <= k < p ==> ranks_above(es, #[trigger] top[k] as nat, i as nat),
                decreases top.len() - p,
            {
                p += 1;
            }
            let ghost t0 = top@;
            proof {
                assert forall|k: int| p <= k < t0.len() implies ranks_above(es, i as nat, #[trigger] t0[k] as nat) by {
                    if k > p {
                        assert(ranks_above(es, t0[p as int] as nat, t0[k] as nat));
                    }
                    assert(deg[t0[p as int] as int] == degree(es, t0[p as int] as nat));
                }
            }
            if p < 10 {
                top.insert(p, i);
                if top.len() > 10 {
                    top.truncate(10);
                }
                proof {
                    lemma_top_insert(es, i as nat, t0, top@, p as int);
                }
            } else {
                proof {
                    assert(t0.len() == 10);
                    assert forall|v: usize, k: int| v < i + 1 && !top@.contains(v) && 0 <= k < top.len() implies #[trigger] ranks_above(
                        es,
                        top[k] as nat,
                        v as nat,
                    ) by {
                        if v != i {
                            assert(v < i);
                        }
                    }
                    assert(i >= 10);
                }
            }
            i += 1;
        }
        top
    }
    /// Get graph statistics: counts of nodes, edges and orphans, the ten most connected
    /// nodes with their degrees, and the number of edges of each type.
    pub fn stats(&self) -> (st: GraphStats)
        requires
            self.wf(),
            2 * self.edges().len() <= usize::MAX,
        ensures
            st.node_count == self.nodes().len(),
            st.edge_count == self.edges().len(),
            st.orphan_count == orphan_list(self.nodes(), self.edges(), self.nodes().len()).len(),
            lists_most_connected(self.nodes(), self.edges(), st.most_connected@),
            type_distribution(self.edges(), st.edge_type_distribution@),
    {
        let ghost es = self.edges();
        let n = self.node_count();
        let m = self.edge_count();
        let (ins, outs) = self.degrees();
        let mut deg: Vec<usize> = Vec::new();
        let mut orphan_count: usize = 0;
        let mut v: usize = 0;
        while v < n
            invariant
                n == self.nodes().len(),
                es == self.edges(),
                2 * es.len() <= usize::MAX,
                ins.len() == n,
                outs.len() == n,
                forall|u: int| 0 <= u < n ==> #[trigger] ins[u] == count_in(es, u as nat) && outs[u] == count_out(es, u as nat),
                v <= n,
                deg.len() == v,
                forall|u: int| 0 <= u < v ==> #[trigger] deg[u] == degree(es, u as nat),
                orphan_count == orphan_list(self.nodes(), es, v as nat).len(),
                orphan_count <= v,
            decreases n - v,
        {
            proof {
                assert(ins[v as int] == count_in(es, v as nat));
                lemma_counts_bounded(es, v as nat);
            }
            let d = ins[v] + outs[v];
            let ghost d0 = deg@;
            deg.push(d);
            proof {
                assert forall|u: int| 0 <= u < v + 1 implies #[trigger] deg[u] == degree(es, u as nat) by {
                    if u < v {
                        assert(deg[u] == d0[u]);
                    }
                }
            }
            if d == 0 {
                orphan_count += 1;
            }
            v += 1;
        }
        let picked = self.most_connected_nodes(&deg);
        let mut most: Vec<(String, usize)> = Vec::new();
        let mut k: usize = 0;
        while k < picked.len()
            invariant
                n == self.nodes().len(),
                es == self.edges(),
                deg.len() == n,
                forall|u: int| 0 <= u < n ==> #[trigger] deg[u] == degree(es, u as nat),
                top_ranked(n as nat, es, picked@, top_count(n as nat)),
                k <= picked.len(),
                most.len() == k,
                forall|j: int| 0 <= j < k ==> #[trigger] most[j].0@ == self.nodes()[picked[j] as int].0
                    && most[j].1 == degree(es, picked[j] as nat),
            decreases picked.len() - k,
        {
            let u = picked[k];
            let node = self.node_at(u);
            let ghost m0 = most@;
            most.push((node.path.clone(), deg[u]));
            proof {
                assert forall|j: int| 0 <= j < k + 1 implies #[trigger] most[j].0@ == self.nodes()[picked[j] as int].0
                    && most[j].1 == degree(es, picked[j] as nat) by {
                    if j < k {
                        assert(most[j] == m0[j]);
                    }
                }
            }
            k += 1;
        }
        proof {
            reveal(lists_most_connected);
            assert(top_ranked(self.nodes().len(), es, picked@, top_count(self.nodes().len())));
        }
        let dist = self.type_counts();
        GraphStats { node_count: n, edge_count: m, orphan_count, most_connected: most, edge_type_distribution: dist }
    }
}


/// The number of edges that leave node `v` for a node whose path is one of `members`.
pub open spec fn count_out_into(ns: Seq<NodeView>, es: Seq<EdgeView>, v: nat, members: Seq<String>) -> nat
    decreases es.len(),
{
    if es.len() == 0 {
        0
    } else {
        count_out_into(ns, es.drop_last(), v, members) + if es.last().0 == v && lists_string(members, ns[es.last().1 as int].0) {
            1nat
        } else {
            0nat
        }
    }
}

/// For each of the first `k` members that names a node, the edges from that node to a
/// member, added up.
pub open spec fn internal_edges_upto(ns: Seq<NodeView>, es: Seq<EdgeView>, members: Seq<String>, k: nat) -> nat
    decreases k,
{
    if k == 0 {
        0
    } else {
        internal_edges_upto(ns, es, members, (k - 1) as nat) + if has_path(ns, members[k - 1]@) {
            count_out_into(ns, es, path_index(ns, members[k - 1]@) as nat, members)
        } else {
            0nat
        }
    }
}

pub proof fn lemma_count_out_into_bounded(ns: Seq<NodeView>, es: Seq<EdgeView>, v: nat, members: Seq<String>)
    ensures
        count_out_into(ns, es, v, members) <= es.len(),
    decreases es.len(),
{
    if es.len() > 0 {
        lemma_count_out_into_bounded(ns, es.drop_last(), v, members);
    }
}

pub proof fn lemma_internal_bounded(ns: Seq<NodeView>, es: Seq<EdgeView>, members: Seq<String>, k: nat)
    ensures
        internal_edges_upto(ns, es, members, k) <= k * es.len(),
    decreases k,
{
    if k > 0 {
        lemma_internal_bounded(ns, es, members, (k - 1) as nat);
        if has_path(ns, members[k - 1]@) {
            lemma_count_out_into_bounded(ns, es, path_index(ns, members[k - 1]@) as nat, members);
        }
        assert((k - 1) * es.len() + es.len() == k * es.len()) by (nonlinear_arith);
    }
}

/// Whether `p` is one of `members`.
fn lists_string_exec(members: &[String], p: &String) -> (b: bool)
    ensures
        b == lists_string(members@, p@),
{
    let mut k: usize = 0;
    while k < members.len()
        invariant
            k <= members.len(),
            forall|j: int| 0 <= j < k ==> members@[j]@ != p@,
        decreases members.len() - k,
    {
        if crate::text::string_eq(&members[k], p) {
            return true;
        }
        k += 1;
    }
    false
}

impl KnowledgeGraph {
    /// The number of edges inside a group of nodes: for each member path that names a node,
    /// its outgoing edges whose target is also a member (what community densities count).
    pub fn internal_edge_count(&self, members: &[String]) -> (r: usize)
        requires
            self.wf(),
            members.len() * self.edges().len() <= usize::MAX,
        ensures
            r == internal_edges_upto(self.nodes(), self.edges(), members@, members.len() as nat),
    {
        let m = self.edge_count();
        let mut total: usize = 0;
        let mut k: usize = 0;
        while k < members.len()
            invariant
                self.wf(),
                m == self.edges().len(),
                members.len() * m <= usize::MAX,
                k <= members.len(),
                total == internal_edges_upto(self.nodes(), self.edges(), members@, k as nat),
            decreases members.len() - k,
        {
            proof {
                lemma_internal_bounded(self.nodes(), self.edges(), members@, (k + 1) as nat);
                assert((k + 1) * m <= members.len() * m) by (nonlinear_arith)
                    requires
                        k + 1 <= members.len(),
                ;
            }
            match self.get_node(members[k].as_str()) {
                Some(v) => {
                    proof {
                        lemma_path_index(self.nodes(), members@[k as int]@, v as int);
                    }
                    let mut c: usize = 0;
                    let mut e: usize = 0;
                    while e < m
                        invariant
                            self.wf(),
                            m == self.edges().len(),
                            v < self.nodes().len(),
                            e <= m,
                            c == count_out_into(self.nodes(), self.edges().take(e as int), v as nat, members@),
                            c <= e,
                        decreases m - e,
                    {
                        assert(self.edges().take(e + 1).drop_last() =~= self.edges().take(e as int));
                        let (a, b) = self.endpoints_at(e);
                        if a == v && lists_string_exec(members, &self.node_at(b).path) {
                            c += 1;
                        }
                        e += 1;
                    }
                    assert(self.edges().take(m as int) =~= self.edges());
                    total = total + c;
                },
                None => {},
            }
            k += 1;
        }
        total
    }
}

} // verus!
