//! Views of the knowledge graph for the graph viewer's levels of detail: the hubs that fit a
//! node budget with the edges among them, and the neighbourhood of a node within some hops
//! in either direction.
use vstd::prelude::*;

use crate::graph::{has_path, lemma_path_index, path_index, EdgeView, KnowledgeGraph};
use crate::graph_report::{count_in, count_out, degree, ranks_above, top_ranked};
use crate::reach::{reach, succ};

verus! {

/// At most `cap` of `n`.
pub open spec fn capped(n: nat, cap: nat) -> nat {
    if n < cap {
        n
    } else {
        cap
    }
}

/// Inserting the next node `i` at position `p` of the sorted top list (and keeping at most
/// `cap`) gives the top list of one more node.
proof fn lemma_top_insert_capped(es: Seq<EdgeView>, cap: nat, i: nat, t0: Seq<usize>, t1: Seq<usize>, p: int)
    requires
        i <= usize::MAX,
        top_ranked(i, es, t0, capped(i, cap)),
        i < cap ==> forall|u: usize| u < i ==> t0.contains(u),
        0 <= p <= t0.len(),
        p < cap,
        forall|k: int| 0 <= k < p ==> ranks_above(es, #[trigger] t0[k] as nat, i),
        forall|k: int| p <= k < t0.len() ==> ranks_above(es, i, #[trigger] t0[k] as nat),
        t1 == (if t0.len() + 1 > cap { t0.insert(p, i as usize).take(cap as int) } else { t0.insert(p, i as usize) }),
    ensures
        top_ranked(i + 1, es, t1, capped(i + 1, cap)),
        i + 1 < cap ==> forall|u: usize| u < i + 1 ==> t1.contains(u),
{
    let ins = t0.insert(p, i as usize);
    assert forall|k: int| 0 <= k < ins.len() implies #[trigger] ins[k] == if k < p { t0[k] } else if k == p { i as usize } else { t0[k - 1] } by {}
    assert forall|k: int, l: int| 0 <= k < l < t1.len() implies ranks_above(es, #[trigger] t1[k] as nat, #[trigger] t1[l] as nat) by {
        assert(t1[k] == ins[k] && t1[l] == ins[l]);
        if k < p && l > p {
            assert(ranks_above(es, t0[k] as nat, i));
            assert(ranks_above(es, i, t0[l - 1] as nat));
        } else if k < p && l < p {
        } else if k == p {
        } else if l == p {
        } else {
            assert(ranks_above(es, t0[k - 1] as nat, t0[l - 1] as nat));
        }
    }
    assert forall|k: int| 0 <= k < t1.len() implies #[trigger] t1[k] < i + 1 by {
        assert(t1[k] == ins[k]);
    }
    assert forall|v: usize, k: int| v < i + 1 && !t1.contains(v) && 0 <= k < t1.len() implies #[trigger] ranks_above(es, t1[k] as nat, v as nat) by {
        assert(t1[k] == ins[k]);
        if v == i {
            assert(t1[p] == i as usize);
            assert(false);
        }
        if t0.contains(v) {
            // the dropped last element of the full list
            let j = choose|j: int| 0 <= j < t0.len() && t0[j] == v;
            if j < p {
                assert(t1[j] == v);
                assert(false);
            } else {
                assert(ins[j + 1] == v);
                if j + 1 < t1.len() {
                    assert(t1[j + 1] == v);
                    assert(false);
                }
                assert(j + 1 >= cap);
                if k < p {
                    assert(ranks_above(es, t0[k] as nat, t0[j] as nat));
                } else if k == p {
                } else {
                    assert(ranks_above(es, t0[k - 1] as nat, t0[j] as nat));
                }
            }
        } else {
            assert(v < i);
            if k < p {
                assert(ranks_above(es, t0[k] as nat, v as nat));
            } else if k == p {
                if t0.len() > 0 {
                    let last = t0.len() - 1;
                    assert(ranks_above(es, t0[last] as nat, v as nat));
                    if p <= last {
                        assert(ranks_above(es, i, t0[last] as nat));
                    } else {
                        assert(t0.len() == p);
                        assert(i < cap);
                        assert(t0.contains(v));
                    }
                } else {
                    assert(i == 0);
                }
            } else {
                assert(ranks_above(es, t0[k - 1] as nat, v as nat));
            }
        }
    }
    if i + 1 < cap {
        assert forall|u: usize| u < i + 1 implies t1.contains(u) by {
            if u == i {
                assert(t1[p] == i as usize);
            } else {
                assert(t0.contains(u));
                let j = choose|j: int| 0 <= j < t0.len() && t0[j] == u;
                if j < p {
                    assert(t1[j] == u);
                } else {
                    assert(t1[j + 1] == ins[j + 1]);
                }
            }
        }
    }
}


impl KnowledgeGraph {
    /// The hubs that fit a budget: the `budget` nodes of highest degree (all when there are
    /// fewer), best first, equal degrees by node order.
    pub fn hub_nodes(&self, budget: usize) -> (picked: Vec<usize>)
        requires
            self.wf(),
            2 * self.edges().len() <= usize::MAX,
        ensures
            top_ranked(self.nodes().len(), self.edges(), picked@, capped(self.nodes().len(), budget as nat)),
    {
        let ghost es = self.edges();
        let (ins, outs) = self.degrees();
        let n = self.node_count();
        let mut deg: Vec<usize> = Vec::new();
        let mut v: usize = 0;
        while v < n
            invariant
                n == self.nodes().len(),
                es == self.edges(),
                self.wf(),
                2 * es.len() <= usize::MAX,
                ins.len() == n,
                outs.len() == n,
                forall|u: int| 0 <= u < n ==> #[trigger] ins[u] == count_in(es, u as nat) && outs[u] == count_out(es, u as nat),
                v <= n,
                deg.len() == v,
                forall|u: int| 0 <= u < v ==> #[trigger] deg[u] == degree(es, u as nat),
            decreases n - v,
        {
            proof {
                crate::graph_report::lemma_counts_bounded(es, v as nat);
                assert(ins[v as int] + outs[v as int] <= 2 * es.len());
            }
            deg.push(ins[v] + outs[v]);
            v += 1;
        }
        let mut top: Vec<usize> = Vec::new();
        let mut i: usize = 0;
        while i < n
            invariant
                n == deg.len(),
                forall|u: int| 0 <= u < deg.len() ==> #[trigger] deg[u] == degree(es, u as nat),
                i <= n,
                top_ranked(i as nat, es, top@, capped(i as nat, budget as nat)),
                i < budget ==> forall|u: usize| u < i ==> top@.contains(u),
            decreases n - i,
        {
            let mut p: usize = 0;
            while p < top.len() && deg[top[p]] >= deg[i]
                invariant
                    p <= top.len(),
                    n == deg.len(),
                    i < n,
                    forall|u: int| 0 <= u < deg.len() ==> #[trigger] deg[u] == degree(es, u as nat),
                    top_ranked(i as nat, es, top@, capped(i as nat, budget as nat)),
                    forall|k: int| 0 <= k < p ==> ranks_above(es, #[trigger] top[k] as nat, i as nat),
                decreases top.len() - p,
            {
                p += 1;
            }
            let ghost t0 = top@;
            proof {
                assert forall|k: int| p <= k < t0.len() implies ranks_above(es, i as nat, #[trigger] t0[k] as nat) by {
                    if k > p {
                        assert(ranks_above(es, t0[p as int] as nat, t0[k] as nat));
                    }
                    assert(deg[t0[p as int] as int] == degree(es, t0[p as int] as nat));
                }
            }
            if p < budget {
                top.insert(p, i);
                if top.len() > budget {
                    top.truncate(budget);
                }
                proof {
                    lemma_top_insert_capped(es, budget as nat, i as nat, t0, top@, p as int);
                }
            } else {
                proof {
                    assert(t0.len() == budget);
                    assert forall|w: usize, k: int| w < i + 1 && !top@.contains(w) && 0 <= k < top.len() implies #[trigger] ranks_above(
                        es,
                        top[k] as nat,
                        w as nat,
                    ) by {
                        if w != i {
                            assert(w < i);
                        }
                    }
                }
            }
            i += 1;
        }
        top
    }
}

/// The edges among the first `m` whose endpoints are both picked, as `(source position,
/// target position, edge type, weight bits)` with positions in `picked`, in edge order.
pub open spec fn local_edges(es: Seq<EdgeView>, picked: Seq<usize>, m: nat) -> Seq<(usize, usize, Seq<char>, u32)>
    decreases m,
{
    if m == 0 {
        Seq::empty()
    } else {
        let prev = local_edges(es, picked, (m - 1) as nat);
        let x = es[m - 1];
        if picked.contains(x.0 as usize) && picked.contains(x.1 as usize) {
            prev.push((picked.index_of(x.0 as usize) as usize, picked.index_of(x.1 as usize) as usize, x.2.0, x.2.1))
        } else {
            prev
        }
    }
}

/// The characters of local edges.
pub open spec fn local_edges_view(r: Seq<(usize, usize, String, u32)>) -> Seq<(usize, usize, Seq<char>, u32)> {
    r.map_values(|x: (usize, usize, String, u32)| (x.0, x.1, x.2@, x.3))
}

impl KnowledgeGraph {
    /// The edges among the picked nodes, in edge order, each as its endpoints' positions
    /// among the picked nodes, its type and its weight bits.
    pub fn local_edges_among(&self, picked: &Vec<usize>) -> (r: Vec<(usize, usize, String, u32)>)
        requires
            self.wf(),
            forall|k: int| 0 <= k < picked.len() ==> #[trigger] picked[k] < self.nodes().len(),
            forall|a: int, b: int| 0 <= a < b < picked.len() ==> picked[a] != picked[b],
        ensures
            local_edges_view(r@) == local_edges(self.edges(), picked@, self.edges().len()),
    {
        let ghost es = self.edges();
        let n = self.node_count();
        let mut slot: Vec<Option<usize>> = Vec::new();
        let mut v: usize = 0;
        while v < n
            invariant
                v <= n,
                slot.len() == v,
                forall|u: int| 0 <= u < v ==> #[trigger] slot[u] is None,
            decreases n - v,
        {
            slot.push(None);
            v += 1;
        }
        let mut k: usize = 0;
        while k < picked.len()
            invariant
                n == self.nodes().len(),
                slot.len() == n,
                k <= picked.len(),
                forall|j: int| 0 <= j < picked.len() ==> #[trigger] picked[j] < n,
                forall|a: int, b: int| 0 <= a < b < picked.len() ==> picked[a] != picked[b],
                forall|u: int| 0 <= u < n ==> match #[trigger] slot[u] {
                    Some(j) => j < k && picked[j as int] == u,
                    None => forall|j: int| 0 <= j < k ==> picked[j] != u,
                },
            decreases picked.len() - k,
        {
            let ghost s0 = slot@;
            slot.set(picked[k], Some(k));
            proof {
                assert forall|u: int| 0 <= u < n implies match #[trigger] slot[u] {
                    Some(j) => j < k + 1 && picked[j as int] == u,
                    None => forall|j: int| 0 <= j < k + 1 ==> picked[j] != u,
                } by {
                    if u != picked[k as int] {
                        assert(slot[u] == s0[u]);
                    }
                }
            }
            k += 1;
        }
        proof {
            assert forall|u: int| 0 <= u < n implies match #[trigger] slot[u] {
                Some(j) => picked@.contains(u as usize) && picked@.index_of(u as usize) == j,
                None => !picked@.contains(u as usize),
            } by {
                match slot[u] {
                    Some(j) => {
                        assert(picked@[j as int] == u as usize);
                        let i = picked@.index_of(u as usize);
                        if i != j {
                            if i < j {
                                assert(picked[i] != picked[j as int]);
                            } else {
                                assert(picked[j as int] != picked[i]);
                            }
                        }
                    },
                    None => {},
                }
            }
        }
        let m = self.edge_count();
        let mut out: Vec<(usize, usize, String, u32)> = Vec::new();
        let mut e: usize = 0;
        while e < m
            invariant
                self.wf(),
                es == self.edges(),
                m == es.len(),
                n == self.nodes().len(),
                slot.len() == n,
                forall|u: int| 0 <= u < n ==> match #[trigger] slot[u] {
                    Some(j) => picked@.contains(u as usize) && picked@.index_of(u as usize) == j,
                    None => !picked@.contains(u as usize),
                },
                forall|j: int| 0 <= j < picked.len() ==> #[trigger] picked[j] < n,
                e <= m,
                local_edges_view(out@) == local_edges(es, picked@, e as nat),
            decreases m - e,
        {
            let (a, b) = self.endpoints_at(e);
            proof {
                assert(es[e as int].0 < n && es[e as int].1 < n);
            }
            if let (Some(pa), Some(pb)) = (slot[a], slot[b]) {
                let w = self.edge_at(e);
                let ghost o0 = out@;
                out.push((pa, pb, w.edge_type.clone(), w.weight_bits));
                proof {
                    assert(local_edges_view(out@) =~= local_edges_view(o0).push((pa, pb, es[e as int].2.0, es[e as int].2.1)));
                }
            } else {
                proof {
                    if picked@.contains(a) && picked@.contains(b) {
                        assert(slot[a as int] is Some);
                        assert(slot[b as int] is Some);
                    }
                }
            }
            e += 1;
        }
        out
    }
}

/// One step along an edge, in either direction.
pub open spec fn either_way(es: Seq<EdgeView>) -> spec_fn(nat, nat) -> bool {
    |u: nat, v: nat| exists|e: int| #![trigger es[e]] 0 <= e < es.len() && ((es[e].0 == u && es[e].1 == v) || (es[e].1 == u && es[e].0 == v))
}

/// One step more reaches nothing new: then no number of further steps does.
proof fn lemma_reach_settled(step: spec_fn(nat, nat) -> bool, start: nat, k: nat, j: nat)
    requires
        reach(step, start, k + 1) == reach(step, start, k),
        k <= j,
    ensures
        reach(step, start, j) == reach(step, start, k),
    decreases j - k,
{
    if j > k {
        lemma_reach_settled(step, start, k, (j - 1) as nat);
    }
}

impl KnowledgeGraph {
    /// The marks widened by one step in either direction along every edge.
    fn widen(&self, vis: &Vec<bool>) -> (r: Vec<bool>)
        requires
            self.wf(),
            vis.len() == self.nodes().len(),
        ensures
            r.len() == vis.len(),
            forall|v: int| 0 <= v < vis.len() ==> (#[trigger] r[v] <==> vis[v] || exists|u: int| 0 <= u < vis.len() && vis[u] && (either_way(self.edges()))(u as nat, v as nat)),
    {
        let ghost es = self.edges();
        let n = self.node_count();
        let mut r = vis.clone();
        assert(r@ =~= vis@);
        let m = self.edge_count();
        let mut e: usize = 0;
        while e < m
            invariant
                self.wf(),
                es == self.edges(),
                m == es.len(),
                n == self.nodes().len(),
                vis.len() == n,
                r.len() == n,
                e <= m,
                forall|v: int| 0 <= v < n ==> (#[trigger] r[v] <==> vis[v] || exists|f: int| 0 <= f < e && ((vis[es[f].0 as int] && es[f].1 == v) || (vis[es[f].1 as int] && es[f].0 == v))),
            decreases m - e,
        {
            let (a, b) = self.endpoints_at(e);
            proof {
                assert(es[e as int].0 < n && es[e as int].1 < n);
            }
            let ghost r0 = r@;
            if vis[a] {
                r.set(b, true);
            }
            if vis[b] {
                r.set(a, true);
            }
            proof {
                assert forall|v: int| 0 <= v < n implies (#[trigger] r[v] <==> vis[v] || exists|f: int| 0 <= f < e + 1 && ((vis[es[f].0 as int] && es[f].1 == v) || (vis[es[f].1 as int] && es[f].0 == v))) by {
                    if r[v] && !vis[v] {
                        if !r0[v] {
                            assert(0 <= e < e + 1 && ((vis[es[e as int].0 as int] && es[e as int].1 == v) || (vis[es[e as int].1 as int] && es[e as int].0 == v)));
                        } else {
                            let f = choose|f: int| 0 <= f < e && ((vis[es[f].0 as int] && es[f].1 == v) || (vis[es[f].1 as int] && es[f].0 == v));
                            assert(0 <= f < e + 1);
                        }
                    }
                    if exists|f: int| 0 <= f < e + 1 && ((vis[es[f].0 as int] && es[f].1 == v) || (vis[es[f].1 as int] && es[f].0 == v)) {
                        let f = choose|f: int| 0 <= f < e + 1 && ((vis[es[f].0 as int] && es[f].1 == v) || (vis[es[f].1 as int] && es[f].0 == v));
                        if f < e {
                            assert(r0[v]);
                        }
                    }
                }
            }
            e += 1;
        }
        proof {
            assert forall|v: int| 0 <= v < n implies (#[trigger] r[v] <==> vis[v] || exists|u: int| 0 <= u < n && vis[u] && (either_way(es))(u as nat, v as nat)) by {
                if exists|f: int| 0 <= f < m && ((vis[es[f].0 as int] && es[f].1 == v) || (vis[es[f].1 as int] && es[f].0 == v)) {
                    let f = choose|f: int| 0 <= f < m && ((vis[es[f].0 as int] && es[f].1 == v) || (vis[es[f].1 as int] && es[f].0 == v));
                    if vis[es[f].0 as int] && es[f].1 == v {
                        let u = es[f].0 as int;
                        assert((either_way(es))(u as nat, v as nat));
                    } else {
                        let u = es[f].1 as int;
                        assert((either_way(es))(u as nat, v as nat));
                    }
                }
                if exists|u: int| 0 <= u < n && vis[u] && (either_way(es))(u as nat, v as nat) {
                    let u = choose|u: int| 0 <= u < n && vis[u] && (either_way(es))(u as nat, v as nat);
                    let f = choose|f: int| #![trigger es[f]] 0 <= f < es.len() && ((es[f].0 == u && es[f].1 == v) || (es[f].1 == u && es[f].0 == v));
                    assert(0 <= f < m && ((vis[es[f].0 as int] && es[f].1 == v) || (vis[es[f].1 as int] && es[f].0 == v)));
                }
            }
        }
        r
    }

    /// The neighbourhood of the node at `center`: the nodes within `max_hops` steps of it
    /// along edges in either direction (the node itself included), in node order; `None`
    /// when no node has the path.
    pub fn ego_nodes(&self, center: &str, max_hops: usize) -> (r: Option<Vec<usize>>)
        requires
            self.wf(),
        ensures
            r is None <==> !has_path(self.nodes(), center@),
            r matches Some(list) ==> {
                &&& forall|a: int, b: int| 0 <= a < b < list.len() ==> list[a] < list[b]
                &&& forall|v: nat| v < self.nodes().len() ==> (list@.contains(v as usize) <==> #[trigger] reach(
                    either_way(self.edges()),
                    path_index(self.nodes(), center@) as nat,
                    max_hops as nat,
                ).contains(v))
                &&& forall|k: int| 0 <= k < list.len() ==> #[trigger] list[k] < self.nodes().len()
            },
    {
        let c = match self.get_node(center) {
            Some(c) => c,
            None => return None,
        };
        proof {
            lemma_path_index(self.nodes(), center@, c as int);
        }
        let ghost es = self.edges();
        let ghost step = either_way(es);
        let n = self.node_count();
        let mut vis: Vec<bool> = Vec::new();
        let mut v: usize = 0;
        while v < n
            invariant
                v <= n,
                c < n,
                vis.len() == v,
                forall|u: int| 0 <= u < v ==> (#[trigger] vis[u] <==> u == c),
            decreases n - v,
        {
            vis.push(v == c);
            v += 1;
        }
        proof {
            assert forall|u: nat| u < n implies (#[trigger] vis[u as int] <==> reach(step, c as nat, 0).contains(u)) by {}
        }
        let mut k: usize = 0;
        while k < max_hops
            invariant
                self.wf(),
                es == self.edges(),
                step == either_way(es),
                n == self.nodes().len(),
                c < n,
                vis.len() == n,
                k <= max_hops,
                forall|u: nat| u < n ==> (#[trigger] vis[u as int] <==> reach(step, c as nat, k as nat).contains(u)),
            ensures
                vis.len() == n,
                forall|u: nat| u < n ==> (#[trigger] vis[u as int] <==> reach(step, c as nat, max_hops as nat).contains(u)),
            decreases max_hops - k,
        {
            let wider = self.widen(&vis);
            let ghost rk = reach(step, c as nat, k as nat);
            proof {
                lemma_either_way_bounded(es, n as nat);
                crate::reach::lemma_reach_bounded(step, c as nat, n as nat, k as nat);
                assert forall|u: nat| u < n implies (#[trigger] wider[u as int] <==> reach(step, c as nat, (k + 1) as nat).contains(u)) by {
                    assert(reach(step, c as nat, (k + 1) as nat) == rk.union(succ(step, rk)));
                    if wider[u as int] && !vis[u as int] {
                        let w = choose|w: int| 0 <= w < n && vis[w] && step(w as nat, u);
                        assert(rk.contains(w as nat));
                        assert(succ(step, rk).contains(u));
                    }
                    if succ(step, rk).contains(u) {
                        let w = choose|w: nat| rk.contains(w) && #[trigger] step(w, u);
                        assert(w < n);
                        assert(vis[w as int]);
                        assert(0 <= w < n && vis[w as int] && step(w as int as nat, u));
                    }
                }
            }
            let mut same = true;
            let mut j: usize = 0;
            while j < n
                invariant
                    j <= n,
                    vis.len() == n,
                    wider.len() == n,
                    same <==> forall|u: int| 0 <= u < j ==> vis[u] == wider[u],
                decreases n - j,
            {
                if vis[j] != wider[j] {
                    same = false;
                }
                j += 1;
            }
            if same {
                proof {
                    assert(reach(step, c as nat, (k + 1) as nat) =~= reach(step, c as nat, k as nat)) by {
                        crate::reach::lemma_reach_bounded(step, c as nat, n as nat, (k + 1) as nat);
                        assert forall|u: nat| reach(step, c as nat, (k + 1) as nat).contains(u) implies reach(step, c as nat, k as nat).contains(u) by {
                            assert(u < n);
                            assert(wider[u as int]);
                        }
                        crate::reach::lemma_reach_mono(step, c as nat, k as nat, (k + 1) as nat);
                    }
                    lemma_reach_settled(step, c as nat, k as nat, max_hops as nat);
                }
                break;
            }
            vis = wider;
            k += 1;
        }
        let mut list: Vec<usize> = Vec::new();
        let mut u: usize = 0;
        while u < n
            invariant
                u <= n,
                vis.len() == n,
                forall|a: int, b: int| 0 <= a < b < list.len() ==> list[a] < list[b],
                forall|a: int| 0 <= a < list.len() ==> #[trigger] list[a] < u,
                forall|w: int| 0 <= w < u ==> (list@.contains(w as usize) <==> vis[w]),
            decreases n - u,
        {
            let ghost l0 = list@;
            if vis[u] {
                list.push(u);
            }
            proof {
                assert forall|w: int| 0 <= w < u + 1 implies (list@.contains(w as usize) <==> vis[w]) by {
                    if list@.contains(w as usize) {
                        let a = choose|a: int| 0 <= a < list.len() && list[a] == w as usize;
                        if a < l0.len() {
                            assert(l0[a] == w as usize);
                            assert(l0.contains(w as usize));
                        }
                    }
                    if w < u && l0.contains(w as usize) {
                        let a = choose|a: int| 0 <= a < l0.len() && l0[a] == w as usize;
                        assert(list[a] == w as usize);
                    }
                    if w == u && vis[w] {
                        assert(list[l0.len() as int] == w as usize);
                    }
                    if w == u && l0.contains(w as usize) {
                        let a = choose|a: int| 0 <= a < l0.len() && l0[a] == w as usize;
                        assert(l0[a] < u);
                    }
                }
            }
            u += 1;
        }
        proof {
            assert forall|w: nat| w < n implies (list@.contains(w as usize) <==> #[trigger] reach(step, c as nat, max_hops as nat).contains(w)) by {
                assert(list@.contains(w as int as usize) <==> vis[w as int]);
            }
        }
        Some(list)
    }
}

/// A step in either direction stays among the nodes.
proof fn lemma_either_way_bounded(es: Seq<EdgeView>, n: nat)
    requires
        forall|e: int| 0 <= e < es.len() ==> (#[trigger] es[e]).0 < n && es[e].1 < n,
    ensures
        forall|u: nat, v: nat| #[trigger] (either_way(es))(u, v) ==> v < n && u < n,
{
}

} // verus!
