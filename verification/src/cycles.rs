//! Cycle detection in relations that should be acyclic (such as `supersedes`): a
//! depth-first search over the edges of one type reports each cycle it closes.
use vstd::prelude::*;

use crate::graph::{paths_unique, EdgeView, KnowledgeGraph, NodeView};
use crate::graph_report::CircularDependency;
use crate::lineage::{ascii_ci_eq, dir_step, joins};
use crate::reach::is_walk;
use crate::text::{ascii_lower_seq, chars_ascii_lower, chars_eq, str_chars, str_eq};
use crate::traverse::{all_false, count_false, lemma_count_false_set};

verus! {

/// `w` is a simple cycle along edges of type `ty` (ignoring ASCII case) and `cyc` names its
/// nodes: at least two entries, the first equal to the last, no other node twice.
pub open spec fn names_closed_walk(ns: Seq<NodeView>, es: Seq<EdgeView>, ty: Seq<char>, cyc: Seq<String>, w: Seq<nat>) -> bool {
    &&& w.len() == cyc.len()
    &&& w.len() >= 2
    &&& w[0] == w.last()
    &&& forall|a: int, b: int| 0 <= a < b < w.len() - 1 ==> w[a] != w[b]
    &&& is_walk(dir_step(es, ty, true), w)
    &&& forall|k: int| 0 <= k < w.len() ==> #[trigger] w[k] < ns.len() && cyc[k]@ == ns[w[k] as int].0
}

/// `cyc` names the nodes of a cycle of edges of type `ty`.
#[verifier::opaque]
pub open spec fn names_cycle(ns: Seq<NodeView>, es: Seq<EdgeView>, ty: Seq<char>, cyc: Seq<String>) -> bool {
    exists|w: Seq<nat>| #[trigger] names_closed_walk(ns, es, ty, cyc, w)
}

/// `ty` is one of the first `n` of `types`.
pub open spec fn one_of_types(types: Seq<&str>, n: int, ty: Seq<char>) -> bool {
    exists|t: int| 0 <= t < n && #[trigger] types[t]@ == ty
}

/// Two reports are for the same type and the same cycle.
pub open spec fn same_report(a: CircularDependency, b: CircularDependency) -> bool {
    a.edge_type@ == b.edge_type@ && a.cycle@.len() == b.cycle@.len() && forall|k: int|
        0 <= k < a.cycle@.len() ==> #[trigger] a.cycle@[k]@ == b.cycle@[k]@
}

/// Position `i + s` of a closed walk of `m` steps, wrapping round to its start.
pub open spec fn wrap(i: int, s: int, m: int) -> int {
    if i + s < m {
        i + s
    } else {
        i + s - m
    }
}

/// `b` names the closed walk that `a` names, entered `s` steps further on (`0 < s`, fewer
/// than its steps).
pub open spec fn rotated_by(a: Seq<String>, b: Seq<String>, s: int) -> bool {
    &&& 0 < s < a.len() - 1
    &&& forall|i: int| 0 <= i < a.len() - 1 ==> #[trigger] b[i]@ == a[wrap(i, s, a.len() - 1)]@
}

/// `b` names the same cycle as `a`, started at another of its nodes.
pub open spec fn rotation_of(a: Seq<String>, b: Seq<String>) -> bool {
    &&& a.len() == b.len()
    &&& a.len() >= 2
    &&& exists|s: int| #[trigger] rotated_by(a, b, s)
}

/// Every node timed in `dt0` keeps its time in `dt1`.
spec fn keeps_times(dt0: Map<usize, nat>, dt1: Map<usize, nat>) -> bool {
    forall|v: usize| #[trigger] dt0.dom().contains(v) ==> dt1.dom().contains(v) && dt1[v] == dt0[v]
}

/// `p` are the nodes that `cyc` names, but for its closing entry, each with a time in `dt`
/// and the times strictly increasing along `p`.
spec fn climbing_names(ns: Seq<NodeView>, dt: Map<usize, nat>, cyc: Seq<String>, p: Seq<usize>) -> bool {
    &&& p.len() + 1 == cyc.len()
    &&& forall|i: int| 0 <= i < p.len() ==> #[trigger] dt.dom().contains(p[i]) && p[i] < ns.len() && cyc[i]@ == ns[p[i] as int].0
    &&& forall|a: int, b: int| #![trigger dt[p[a]], dt[p[b]]] 0 <= a < b < p.len() ==> dt[p[a]] < dt[p[b]]
}

/// The nodes that `cyc` names were discovered in the order in which it names them.
spec fn climbs(ns: Seq<NodeView>, dt: Map<usize, nat>, cyc: Seq<String>) -> bool {
    exists|p: Seq<usize>| #[trigger] climbing_names(ns, dt, cyc, p)
}

/// Times that are kept keep a climbing cycle climbing.
proof fn lemma_climbs_kept(ns: Seq<NodeView>, dt0: Map<usize, nat>, dt1: Map<usize, nat>, cyc: Seq<String>)
    requires
        climbs(ns, dt0, cyc),
        keeps_times(dt0, dt1),
    ensures
        climbs(ns, dt1, cyc),
{
    let p = choose|p: Seq<usize>| #[trigger] climbing_names(ns, dt0, cyc, p);
    assert forall|i: int| 0 <= i < p.len() implies #[trigger] dt1.dom().contains(p[i]) && p[i] < ns.len() && cyc[i]@ == ns[p[i] as int].0 by {
        assert(dt0.dom().contains(p[i]));
    }
    assert forall|a: int, b: int| #![trigger dt1[p[a]], dt1[p[b]]] 0 <= a < b < p.len() implies dt1[p[a]] < dt1[p[b]] by {
        assert(dt0.dom().contains(p[a]) && dt0.dom().contains(p[b]));
        assert(dt0[p[a]] < dt0[p[b]]);
    }
    assert(climbing_names(ns, dt1, cyc, p));
}

/// Times that are kept keep every report from `from` on climbing.
proof fn lemma_all_climbs_kept(ns: Seq<NodeView>, dt0: Map<usize, nat>, dt1: Map<usize, nat>, cs: Seq<CircularDependency>, from: int)
    requires
        forall|k: int| from <= k < cs.len() ==> climbs(ns, dt0, (#[trigger] cs[k]).cycle@),
        keeps_times(dt0, dt1),
    ensures
        forall|k: int| from <= k < cs.len() ==> climbs(ns, dt1, (#[trigger] cs[k]).cycle@),
{
    assert forall|k: int| from <= k < cs.len() implies climbs(ns, dt1, (#[trigger] cs[k]).cycle@) by {
        lemma_climbs_kept(ns, dt0, dt1, cs[k].cycle@);
    }
}

/// Timing a new node at the current clock keeps every earlier time.
proof fn lemma_time_new_node(dt0: Map<usize, nat>, dt: Map<usize, nat>, v: usize, clock: nat)
    requires
        keeps_times(dt0, dt),
        !dt.dom().contains(v),
    ensures
        keeps_times(dt, dt.insert(v, clock)),
        keeps_times(dt0, dt.insert(v, clock)),
{
    let d = dt.insert(v, clock);
    assert forall|u: usize| #[trigger] dt.dom().contains(u) implies d.dom().contains(u) && d[u] == dt[u] by {}
    assert forall|u: usize| #[trigger] dt0.dom().contains(u) implies d.dom().contains(u) && d[u] == dt0[u] by {
        assert(dt.dom().contains(u));
    }
}

/// A stack whose nodes were discovered bottom to top stays so when a node discovered now
/// is pushed.
proof fn lemma_push_discovered(dt: Map<usize, nat>, st: Seq<usize>, v: usize, clock: nat)
    requires
        forall|k: int| 0 <= k < st.len() ==> dt.dom().contains(#[trigger] st[k]),
        forall|a: int, b: int| #![trigger dt[st[a]], dt[st[b]]] 0 <= a < b < st.len() ==> dt[st[a]] < dt[st[b]],
        forall|u: usize| #[trigger] dt.dom().contains(u) ==> dt[u] < clock,
        !dt.dom().contains(v),
    ensures
        forall|k: int| 0 <= k < st.push(v).len() ==> dt.insert(v, clock).dom().contains(#[trigger] st.push(v)[k]),
        forall|a: int, b: int| #![trigger dt.insert(v, clock)[st.push(v)[a]], dt.insert(v, clock)[st.push(v)[b]]] 0 <= a < b < st.push(v).len()
            ==> dt.insert(v, clock)[st.push(v)[a]] < dt.insert(v, clock)[st.push(v)[b]],
{
    let d = dt.insert(v, clock);
    let s2 = st.push(v);
    assert forall|k: int| 0 <= k < s2.len() implies d.dom().contains(#[trigger] s2[k]) by {
        if k < st.len() {
            assert(s2[k] == st[k]);
        }
    }
    assert forall|a: int, b: int| #![trigger d[s2[a]], d[s2[b]]] 0 <= a < b < s2.len() implies d[s2[a]] < d[s2[b]] by {
        assert(s2[a] == st[a]);
        assert(dt.dom().contains(st[a]));
        assert(st[a] != v);
        if b < st.len() {
            assert(s2[b] == st[b]);
            assert(dt.dom().contains(st[b]));
            assert(dt[st[a]] < dt[st[b]]);
        }
    }
}

/// The cycle closed at position `pos` of a stack discovered bottom to top climbs.
proof fn lemma_stack_climbs(ns: Seq<NodeView>, dt: Map<usize, nat>, st: Seq<usize>, pos: int, cyc: Seq<String>)
    requires
        0 <= pos < st.len(),
        cyc.len() == st.len() - pos + 1,
        forall|k: int| 0 <= k < st.len() - pos ==> (#[trigger] cyc[k])@ == ns[st[pos + k] as int].0,
        forall|k: int| 0 <= k < st.len() ==> dt.dom().contains(#[trigger] st[k]) && st[k] < ns.len(),
        forall|a: int, b: int| #![trigger dt[st[a]], dt[st[b]]] 0 <= a < b < st.len() ==> dt[st[a]] < dt[st[b]],
    ensures
        climbs(ns, dt, cyc),
{
    let p = st.subrange(pos, st.len() as int);
    assert forall|i: int| 0 <= i < p.len() implies #[trigger] dt.dom().contains(p[i]) && p[i] < ns.len() && cyc[i]@ == ns[p[i] as int].0 by {
        assert(p[i] == st[pos + i]);
    }
    assert forall|a: int, b: int| #![trigger dt[p[a]], dt[p[b]]] 0 <= a < b < p.len() implies dt[p[a]] < dt[p[b]] by {
        assert(p[a] == st[pos + a] && p[b] == st[pos + b]);
        assert(dt[st[pos + a]] < dt[st[pos + b]]);
    }
    assert(climbing_names(ns, dt, cyc, p));
}

/// Two cycles whose nodes were both discovered in the order named are not rotations of
/// each other: a rotation would name a later-discovered node before an earlier one.
proof fn lemma_no_rotation(ns: Seq<NodeView>, dt: Map<usize, nat>, a: Seq<String>, b: Seq<String>)
    requires
        paths_unique(ns),
        climbs(ns, dt, a),
        climbs(ns, dt, b),
    ensures
        !rotation_of(a, b),
{
    if rotation_of(a, b) {
        let m = a.len() - 1;
        let s = choose|s: int| #[trigger] rotated_by(a, b, s);
        let pa = choose|p: Seq<usize>| #[trigger] climbing_names(ns, dt, a, p);
        let pb = choose|p: Seq<usize>| #[trigger] climbing_names(ns, dt, b, p);
        let i1 = m - s;
        let i0 = m - s - 1;
        assert(b[i1]@ == a[wrap(i1, s, m)]@);
        assert(b[i0]@ == a[wrap(i0, s, m)]@);
        assert(dt.dom().contains(pb[i1]) && dt.dom().contains(pb[i0]));
        assert(dt.dom().contains(pa[0]) && dt.dom().contains(pa[m - 1]));
        assert(pb[i1] == pa[0]) by {
            if pb[i1] < pa[0] {
                assert(ns[pb[i1] as int].0 != ns[pa[0] as int].0);
            } else if pb[i1] > pa[0] {
                assert(ns[pa[0] as int].0 != ns[pb[i1] as int].0);
            }
        }
        assert(pb[i0] == pa[m - 1]) by {
            if pb[i0] < pa[m - 1] {
                assert(ns[pb[i0] as int].0 != ns[pa[m - 1] as int].0);
            } else if pb[i0] > pa[m - 1] {
                assert(ns[pa[m - 1] as int].0 != ns[pb[i0] as int].0);
            }
        }
        assert(dt[pb[i0]] < dt[pb[i1]]);
        assert(dt[pa[0]] < dt[pa[m - 1]]);
    }
}

/// Frames still to explore: for each frame, its neighbours not yet tried, plus one.
pub open spec fn frames_left(lens: Seq<nat>, iters: Seq<usize>) -> nat
    decreases iters.len(),
{
    if iters.len() == 0 || lens.len() < iters.len() {
        0
    } else {
        frames_left(lens.drop_last(), iters.drop_last()) + (lens.last() - iters.last()) as nat + 1
    }
}

/// The relation of type `ty` has a cycle: a closed walk of at least one step along its edges.
pub open spec fn has_cycle(es: Seq<EdgeView>, ty: Seq<char>) -> bool {
    exists|w: Seq<nat>| #![trigger is_walk(dir_step(es, ty, true), w)]
        w.len() >= 2 && w[0] == w.last() && is_walk(dir_step(es, ty, true), w)
}

/// Some report is for type `ty`.
pub open spec fn has_report(cs: Seq<CircularDependency>, ty: Seq<char>) -> bool {
    exists|k: int| 0 <= k < cs.len() && #[trigger] cs[k].edge_type@ == ty
}

/// Every neighbour of a finished node finished before it.
pub open spec fn finished_in_order(adj: Seq<Vec<usize>>, fin: Seq<usize>) -> bool {
    forall|k: int, t: int| #![trigger adj[fin[k] as int][t]] 0 <= k < fin.len() && 0 <= t < adj[fin[k] as int].len() ==> finished_before(fin, k, adj[fin[k] as int][t])
}

/// `v` occurs in `fin` before position `k`.
pub open spec fn finished_before(fin: Seq<usize>, k: int, v: usize) -> bool {
    exists|j: int| 0 <= j < k && #[trigger] fin[j] == v
}

/// Every neighbour a frame of the search stack has tried is finished, but for the last one
/// tried by a frame below the top, which is the next frame's node.
pub open spec fn frames_done(adj: Seq<Vec<usize>>, fin: Seq<usize>, stack: Seq<usize>, iters: Seq<usize>) -> bool {
    forall|j: int, t: int| 0 <= j < stack.len() && 0 <= t < iters[j] ==> fin.contains(#[trigger] adj[stack[j] as int][t]) || (j + 1
        < stack.len() && t == iters[j] - 1 && adj[stack[j] as int][t] == stack[j + 1])
}

/// No entry twice.
pub open spec fn distinct_nodes(s: Seq<usize>) -> bool {
    forall|a: int, b: int| 0 <= a < b < s.len() ==> s[a] != s[b]
}

/// Along a walk that the finished order covers, positions in that order only fall.
proof fn lemma_walk_falls(adj: Seq<Vec<usize>>, fin: Seq<usize>, step: spec_fn(nat, nat) -> bool, w: Seq<nat>, k: int)
    requires
        distinct_nodes(fin),
        finished_in_order(adj, fin),
        forall|u: nat, v: nat| #[trigger] step(u, v) ==> u < adj.len() && adj[u as int]@.contains(v as usize) && v <= usize::MAX,
        forall|u: int| 0 <= u < adj.len() && adj[u].len() > 0 ==> fin.contains(u as usize),
        adj.len() <= usize::MAX,
        is_walk(step, w),
        1 <= k < w.len(),
    ensures
        fin.contains(w[k] as usize),
        fin.contains(w[0] as usize),
        fin.index_of(w[k] as usize) < fin.index_of(w[0] as usize),
    decreases k,
{
    let u = w[k - 1];
    let v = w[k];
    assert(step(w[k - 1], w[(k - 1) + 1]));
    assert(step(u, v));
    assert((u as usize) as int == u);
    assert(adj[u as int]@.contains(v as usize));
    let t = choose|t: int| 0 <= t < adj[u as int].len() && adj[u as int]@[t] == v as usize;
    assert(fin.contains(u as usize));
    let iu = fin.index_of(u as usize);
    assert(fin[iu] == u as usize);
    assert(adj[fin[iu] as int][t] == v as usize);
    assert(finished_before(fin, iu, adj[fin[iu] as int][t]));
    let j = choose|j: int| 0 <= j < iu && #[trigger] fin[j] == adj[fin[iu] as int][t];
    assert(fin.contains(v as usize));
    let iv = fin.index_of(v as usize);
    if iv != j {
        if iv < j {
            assert(fin[iv] != fin[j]);
        } else {
            assert(fin[j] != fin[iv]);
        }
    }
    if k > 1 {
        lemma_walk_falls(adj, fin, step, w, k - 1);
    }
}

/// With every node that has a neighbour finished in order, the relation has no cycle.
proof fn lemma_no_cycle(adj: Seq<Vec<usize>>, fin: Seq<usize>, step: spec_fn(nat, nat) -> bool, w: Seq<nat>)
    requires
        distinct_nodes(fin),
        finished_in_order(adj, fin),
        forall|u: nat, v: nat| #[trigger] step(u, v) ==> u < adj.len() && adj[u as int]@.contains(v as usize) && v <= usize::MAX,
        forall|u: int| 0 <= u < adj.len() && adj[u].len() > 0 ==> fin.contains(u as usize),
        adj.len() <= usize::MAX,
        is_walk(step, w),
        w.len() >= 2,
    ensures
        w[0] != w.last(),
{
    lemma_walk_falls(adj, fin, step, w, w.len() - 1);
}

/// Popping a finished frame: its node joins the finished order, after all its neighbours.
proof fn lemma_pop_frame(adj: Seq<Vec<usize>>, f0: Seq<usize>, st0: Seq<usize>, it0: Seq<usize>)
    requires
        st0.len() > 0,
        it0.len() == st0.len(),
        st0.last() < adj.len(),
        it0.last() == adj[st0.last() as int].len(),
        finished_in_order(adj, f0),
        frames_done(adj, f0, st0, it0),
    ensures
        finished_in_order(adj, f0.push(st0.last())),
        frames_done(adj, f0.push(st0.last()), st0.drop_last(), it0.drop_last()),
{
    let top = st0.last();
    let fin = f0.push(top);
    let tl = st0.len() - 1;
    assert forall|k: int, t: int| #![trigger adj[fin[k] as int][t]] 0 <= k < fin.len() && 0 <= t < adj[fin[k] as int].len() implies finished_before(fin, k, adj[fin[k] as int][t]) by {
        if k < f0.len() {
            assert(fin[k] == f0[k]);
            assert(finished_before(f0, k, adj[f0[k] as int][t]));
            let j = choose|j: int| 0 <= j < k && #[trigger] f0[j] == adj[f0[k] as int][t];
            assert(fin[j] == f0[j]);
        } else {
            assert(st0[tl] == top);
            assert(f0.contains(adj[st0[tl] as int][t]) || (tl + 1 < st0.len() && t == it0[tl] - 1 && adj[st0[tl] as int][t] == st0[tl + 1]));
            let j = choose|j: int| 0 <= j < f0.len() && f0[j] == adj[top as int][t];
            assert(fin[j] == f0[j]);
        }
    }
    assert(finished_in_order(adj, fin));
    let st = st0.drop_last();
    let it = it0.drop_last();
    assert forall|j: int, t: int| 0 <= j < st.len() && 0 <= t < it[j] implies fin.contains(#[trigger] adj[st[j] as int][t]) || (j + 1
        < st.len() && t == it[j] - 1 && adj[st[j] as int][t] == st[j + 1]) by {
        assert(st[j] == st0[j] && it[j] == it0[j]);
        assert(f0.contains(adj[st0[j] as int][t]) || (j + 1 < st0.len() && t == it0[j] - 1 && adj[st0[j] as int][t] == st0[j + 1]));
        if f0.contains(adj[st0[j] as int][t]) {
            let q = choose|q: int| 0 <= q < f0.len() && f0[q] == adj[st0[j] as int][t];
            assert(fin[q] == f0[q]);
        } else if j + 1 == st0.len() - 1 {
            assert(fin[f0.len() as int] == top);
        } else {
            assert(st[j + 1] == st0[j + 1]);
        }
    }
}

/// Whether two reports are for the same type and cycle.
fn same_report_exec(a: &CircularDependency, b: &CircularDependency) -> (r: bool)
    ensures
        r == same_report(*a, *b),
{
    if !crate::text::string_eq(&a.edge_type, &b.edge_type) {
        return false;
    }
    if a.cycle.len() != b.cycle.len() {
        return false;
    }
    let mut k: usize = 0;
    while k < a.cycle.len()
        invariant
            k <= a.cycle.len(),
            a.cycle.len() == b.cycle.len(),
            forall|j: int| 0 <= j < k ==> #[trigger] a.cycle@[j]@ == b.cycle@[j]@,
        decreases a.cycle.len() - k,
    {
        if !crate::text::string_eq(&a.cycle[k], &b.cycle[k]) {
            return false;
        }
        k += 1;
    }
    true
}

impl KnowledgeGraph {
    /// For every node, the targets of its edges whose type matches `ty` ignoring ASCII
    /// case, in edge order.
    fn typed_adjacency(&self, ty: &str) -> (adj: Vec<Vec<usize>>)
        requires
            self.wf(),
        ensures
            adj.len() == self.nodes().len(),
            forall|u: int, k: int| 0 <= u < adj.len() && 0 <= k < adj[u].len() ==> #[trigger] adj[u][k] < self.nodes().len()
                && dir_step(self.edges(), ty@, true)(u as nat, adj[u][k] as nat),
            forall|u: nat, v: nat| #[trigger] dir_step(self.edges(), ty@, true)(u, v) ==> u < adj.len() && adj[u as int]@.contains(v as usize),
    {
        let n = self.node_count();
        let m = self.edge_count();
        let tc = str_chars(ty);
        let ty_lower = chars_ascii_lower(tc.as_slice());
        let mut adj: Vec<Vec<usize>> = Vec::new();
        while adj.len() < n
            invariant
                adj.len() <= n,
                forall|u: int| 0 <= u < adj.len() ==> (#[trigger] adj[u]).len() == 0,
            decreases n - adj.len(),
        {
            adj.push(Vec::new());
        }
        let mut e: usize = 0;
        while e < m
            invariant
                self.wf(),
                n == self.nodes().len(),
                m == self.edges().len(),
                e <= m,
                ty_lower@ == ascii_lower_seq(ty@),
                adj.len() == n,
                forall|u: int, k: int| 0 <= u < adj.len() && 0 <= k < adj[u].len() ==> #[trigger] adj[u][k] < n
                    && dir_step(self.edges(), ty@, true)(u as nat, adj[u][k] as nat),
                forall|f: int| 0 <= f < e && ascii_ci_eq(self.edges()[f].2.0, ty@) ==> #[trigger] adj[self.edges()[f].0 as int]@.contains(
                    self.edges()[f].1 as usize,
                ),
            decreases m - e,
        {
            let w = self.edge_at(e);
            let wc = str_chars(w.edge_type.as_str());
            let wl = chars_ascii_lower(wc.as_slice());
            if chars_eq(wl.as_slice(), ty_lower.as_slice()) {
                let (a, b) = self.endpoints_at(e);
                let mut row = adj[a].clone();
                row.push(b);
                let ghost adj0 = adj@;
                let ghost row0 = adj0[a as int];
                adj.set(a, row);
                proof {
                    assert(joins(self.edges(), e as int, a as nat, b as nat, true));
                    assert forall|u: int, k: int| 0 <= u < adj.len() && 0 <= k < adj[u].len() implies #[trigger] adj[u][k] < n
                        && dir_step(self.edges(), ty@, true)(u as nat, adj[u][k] as nat) by {
                        if u != a {
                            assert(adj[u] == adj0[u]);
                        } else if k < row0.len() {
                            assert(adj[u][k] == row0[k]);
                        } else {
                            assert(adj[u][k] == b);
                        }
                    }
                    assert forall|f: int| 0 <= f < e + 1 && ascii_ci_eq(self.edges()[f].2.0, ty@) implies #[trigger] adj[self.edges()[f].0 as int]@.contains(
                        self.edges()[f].1 as usize,
                    ) by {
                        let x = self.edges()[f].0 as int;
                        if f == e {
                            assert(adj[a as int]@[row0.len() as int] == b);
                        } else if x != a {
                            assert(adj[x] == adj0[x]);
                        } else {
                            assert(adj0[x]@.contains(self.edges()[f].1 as usize));
                            let j = choose|j: int| 0 <= j < row0.len() && row0@[j] == self.edges()[f].1 as usize;
                            assert(adj[a as int][j] == row0[j]);
                        }
                    }
                }
            } else {
                proof {
                    assert(!ascii_ci_eq(self.edges()[e as int].2.0, ty@));
                }
            }
            e += 1;
        }
        proof {
            assert forall|u: nat, v: nat| #[trigger] dir_step(self.edges(), ty@, true)(u, v) implies u < adj.len() && adj[u as int]@.contains(v as usize) by {
                let f = choose|f: int| #[trigger] joins(self.edges(), f, u, v, true) && ascii_ci_eq(self.edges()[f].2.0, ty@);
                assert(self.edges()[f].0 < n);
            }
        }
        adj
    }

    /// Detect circular dependencies in the given relations (edge types, compared ignoring
    /// ASCII case): each report names a cycle of edges of its type, from a node back to
    /// itself, no cycle is reported twice for a type (not even entered at another of its
    /// nodes), and a listed type is reported exactly when its relation has a cycle.
    pub fn detect_circular_dependencies(&self, edge_types: &[&str]) -> (r: Vec<CircularDependency>)
        requires
            self.wf(),
        ensures
            forall|k: int| 0 <= k < r.len() ==> one_of_types(edge_types@, edge_types.len() as int, (#[trigger] r[k]).edge_type@),
            forall|k: int| 0 <= k < r.len() ==> names_cycle(self.nodes(), self.edges(), (#[trigger] r[k]).edge_type@, r[k].cycle@),
            forall|k: int, l: int| 0 <= k < l < r.len() ==> !same_report(#[trigger] r[k], #[trigger] r[l]),
            forall|t: int| 0 <= t < edge_types.len() && #[trigger] has_cycle(self.edges(), edge_types@[t]@) ==> has_report(r@, edge_types@[t]@),
            forall|ty: Seq<char>| #[trigger] has_report(r@, ty) ==> has_cycle(self.edges(), ty),
            forall|k: int, l: int| 0 <= k < l < r.len() && r[k].edge_type@ == r[l].edge_type@ ==> !rotation_of(
                (#[trigger] r[k]).cycle@,
                (#[trigger] r[l]).cycle@,
            ) && !rotation_of(r[l].cycle@, r[k].cycle@),
    {
        let mut cycles: Vec<CircularDependency> = Vec::new();
        let mut t: usize = 0;
        while t < edge_types.len()
            invariant
                self.wf(),
                t <= edge_types.len(),
                forall|k: int| 0 <= k < cycles.len() ==> one_of_types(edge_types@, t as int, (#[trigger] cycles[k]).edge_type@),
                forall|k: int| 0 <= k < cycles.len() ==> names_cycle(self.nodes(), self.edges(), (#[trigger] cycles[k]).edge_type@, cycles[k].cycle@),
                forall|k: int, l: int| 0 <= k < l < cycles.len() ==> !same_report(#[trigger] cycles[k], #[trigger] cycles[l]),
                forall|u: int| 0 <= u < t && #[trigger] has_cycle(self.edges(), edge_types@[u]@) ==> has_report(cycles@, edge_types@[u]@),
                forall|k: int, l: int| 0 <= k < l < cycles.len() && cycles[k].edge_type@ == cycles[l].edge_type@ ==> !rotation_of(
                    (#[trigger] cycles[k]).cycle@,
                    (#[trigger] cycles[l]).cycle@,
                ) && !rotation_of(cycles[l].cycle@, cycles[k].cycle@),
            decreases edge_types.len() - t,
        {
            let ty = edge_types[t];
            let ghost c0 = cycles@;
            // A type listed twice was searched already.
            let mut listed = false;
            let mut u: usize = 0;
            while u < t
                invariant
                    u <= t,
                    t < edge_types.len(),
                    ty@ == edge_types@[t as int]@,
                    listed ==> exists|q: int| 0 <= q < t && #[trigger] edge_types@[q]@ == ty@,
                    !listed ==> forall|q: int| 0 <= q < u ==> #[trigger] edge_types@[q]@ != ty@,
                decreases t - u,
            {
                if str_eq(edge_types[u], ty) {
                    listed = true;
                }
                u += 1;
            }
            if !listed {
                self.cycles_of_type(ty, &mut cycles);
            }
            proof {
                assert forall|k: int| 0 <= k < cycles.len() implies one_of_types(edge_types@, t + 1, (#[trigger] cycles[k]).edge_type@) by {
                    if k < c0.len() {
                        assert(cycles[k] == c0[k]);
                        assert(one_of_types(edge_types@, t as int, c0[k].edge_type@));
                    } else {
                        assert(cycles[k].edge_type@ == edge_types@[t as int]@);
                    }
                }
                assert forall|u: int| 0 <= u < t + 1 && #[trigger] has_cycle(self.edges(), edge_types@[u]@) implies has_report(cycles@, edge_types@[u]@) by {
                    if u < t {
                        let k = choose|k: int| 0 <= k < c0.len() && #[trigger] c0[k].edge_type@ == edge_types@[u]@;
                        assert(cycles@[k] == c0[k]);
                    } else if listed {
                        let q = choose|q: int| 0 <= q < t && #[trigger] edge_types@[q]@ == ty@;
                        assert(has_cycle(self.edges(), edge_types@[q]@));
                        let k = choose|k: int| 0 <= k < c0.len() && #[trigger] c0[k].edge_type@ == edge_types@[q]@;
                        assert(cycles@[k] == c0[k]);
                    }
                }
                assert forall|k: int, l: int| 0 <= k < l < cycles.len() && cycles[k].edge_type@ == cycles[l].edge_type@ implies !rotation_of(
                    (#[trigger] cycles[k]).cycle@,
                    (#[trigger] cycles[l]).cycle@,
                ) && !rotation_of(cycles[l].cycle@, cycles[k].cycle@) by {
                    if l < c0.len() {
                        assert(cycles[k] == c0[k] && cycles[l] == c0[l]);
                    } else if k < c0.len() {
                        assert(cycles[k] == c0[k]);
                        assert(one_of_types(edge_types@, t as int, c0[k].edge_type@));
                        let q = choose|q: int| 0 <= q < t && #[trigger] edge_types@[q]@ == c0[k].edge_type@;
                        assert(edge_types@[q]@ != ty@);
                    }
                }
            }
            t += 1;
        }
        proof {
            assert forall|ty: Seq<char>| #[trigger] has_report(cycles@, ty) implies has_cycle(self.edges(), ty) by {
                let k = choose|k: int| 0 <= k < cycles@.len() && #[trigger] cycles@[k].edge_type@ == ty;
                assert(names_cycle(self.nodes(), self.edges(), cycles[k].edge_type@, cycles[k].cycle@));
                reveal(names_cycle);
                let w = choose|w: Seq<nat>| #[trigger] names_closed_walk(self.nodes(), self.edges(), ty, cycles[k].cycle@, w);
                assert(is_walk(dir_step(self.edges(), ty, true), w));
            }
        }
        cycles
    }

    /// Appends the cycles that a depth-first search over the edges of type `ty` closes.
    fn cycles_of_type(&self, ty: &str, cycles: &mut Vec<CircularDependency>)
        requires
            self.wf(),
            forall|k: int| 0 <= k < old(cycles).len() ==> names_cycle(self.nodes(), self.edges(), (#[trigger] old(cycles)[k]).edge_type@,
                old(cycles)[k].cycle@),
            forall|k: int, l: int| 0 <= k < l < old(cycles).len() ==> !same_report(#[trigger] old(cycles)[k], #[trigger] old(cycles)[l]),
        ensures
            final(cycles).len() >= old(cycles).len(),
            forall|k: int| 0 <= k < old(cycles).len() ==> #[trigger] final(cycles)[k] == old(cycles)[k],
            forall|k: int| old(cycles).len() <= k < final(cycles).len() ==> (#[trigger] final(cycles)[k]).edge_type@ == ty@,
            forall|k: int| 0 <= k < final(cycles).len() ==> names_cycle(self.nodes(), self.edges(), (#[trigger] final(cycles)[k]).edge_type@,
                final(cycles)[k].cycle@),
            forall|k: int, l: int| 0 <= k < l < final(cycles).len() ==> !same_report(#[trigger] final(cycles)[k], #[trigger] final(cycles)[l]),
            has_cycle(self.edges(), ty@) ==> has_report(final(cycles)@, ty@),
            forall|k: int, l: int| old(cycles).len() <= k < l < final(cycles).len() ==> !rotation_of(
                (#[trigger] final(cycles)[k]).cycle@,
                (#[trigger] final(cycles)[l]).cycle@,
            ) && !rotation_of(final(cycles)[l].cycle@, final(cycles)[k].cycle@),
    {
        let ghost es = self.edges();
        let ghost step = dir_step(es, ty@, true);
        let ghost c0 = cycles@;
        let adj = self.typed_adjacency(ty);
        let n = adj.len();
        let mut visited = all_false(n);
        let ghost mut fin: Seq<usize> = Seq::empty();
        let ghost mut dt: Map<usize, nat> = Map::empty();
        let ghost mut clock: nat = 0;
        let mut start: usize = 0;
        while start < n
            invariant
                distinct_nodes(fin),
                forall|v: int| 0 <= v < n ==> (visited[v] <==> fin.contains(v as usize)),
                forall|k: int| 0 <= k < fin.len() ==> #[trigger] fin[k] < n,
                !has_report(cycles@, ty@) ==> finished_in_order(adj@, fin),
                forall|s: int| 0 <= s < start && adj[s].len() > 0 ==> visited[s],
                forall|u: nat, v: nat| #[trigger] step(u, v) ==> u < adj.len() && adj[u as int]@.contains(v as usize),
                self.wf(),
                es == self.edges(),
                step == dir_step(es, ty@, true),
                n == self.nodes().len(),
                adj.len() == n,
                forall|u: int, k: int| 0 <= u < adj.len() && 0 <= k < adj[u].len() ==> #[trigger] adj[u][k] < n
                    && step(u as nat, adj[u][k] as nat),
                visited.len() == n,
                start <= n,
                cycles.len() >= c0.len(),
                forall|k: int| 0 <= k < c0.len() ==> #[trigger] cycles[k] == c0[k],
                forall|k: int| c0.len() <= k < cycles.len() ==> (#[trigger] cycles[k]).edge_type@ == ty@,
                forall|k: int| 0 <= k < cycles.len() ==> names_cycle(self.nodes(), es, (#[trigger] cycles[k]).edge_type@, cycles[k].cycle@),
                forall|k: int, l: int| 0 <= k < l < cycles.len() ==> !same_report(#[trigger] cycles[k], #[trigger] cycles[l]),
                forall|v: int| 0 <= v < n ==> (visited[v] <==> dt.dom().contains(v as usize)),
                forall|v: usize| #[trigger] dt.dom().contains(v) ==> dt[v] < clock,
                forall|k: int| c0.len() <= k < cycles.len() ==> climbs(self.nodes(), dt, (#[trigger] cycles[k]).cycle@),
            decreases n - start,
        {
            if adj[start].len() > 0 && !visited[start] {
                let ghost vb = visited@;
                let ghost cb = cycles@;
                let Ghost(res) = self.dfs_cycles(ty, &adj, start, &mut visited, cycles, Ghost(c0), Ghost(fin), Ghost(dt), Ghost(clock));
                proof {
                    if has_report(cb, ty@) {
                        let k = choose|k: int| 0 <= k < cb.len() && #[trigger] cb[k].edge_type@ == ty@;
                        assert(cycles@[k] == cb[k]);
                    }
                    fin = res.0;
                    dt = res.1;
                    clock = res.2;
                }
            }
            start += 1;
        }
        proof {
            if has_cycle(es, ty@) && !has_report(cycles@, ty@) {
                let w = choose|w: Seq<nat>| #![trigger is_walk(dir_step(es, ty@, true), w)]
                    w.len() >= 2 && w[0] == w.last() && is_walk(dir_step(es, ty@, true), w);
                assert forall|u: nat, v: nat| #[trigger] step(u, v) implies u < adj@.len() && adj@[u as int]@.contains(v as usize)
                    && v <= usize::MAX by {
                    let f = choose|f: int| #[trigger] joins(es, f, u, v, true) && ascii_ci_eq(es[f].2.0, ty@);
                    assert(es[f].1 < n);
                }
                assert forall|u: int| 0 <= u < adj@.len() && adj@[u].len() > 0 implies fin.contains(u as usize) by {
                    assert(visited[u]);
                }
                lemma_no_cycle(adj@, fin, step, w);
            }
            assert forall|k: int, l: int| c0.len() <= k < l < cycles.len() implies !rotation_of(
                (#[trigger] cycles[k]).cycle@,
                (#[trigger] cycles[l]).cycle@,
            ) && !rotation_of(cycles[l].cycle@, cycles[k].cycle@) by {
                lemma_no_rotation(self.nodes(), dt, cycles[k].cycle@, cycles[l].cycle@);
                lemma_no_rotation(self.nodes(), dt, cycles[l].cycle@, cycles[k].cycle@);
            }
        }
    }

    /// Depth-first search from `root`, with the recursion kept as an explicit stack of
    /// `(node, next neighbour to try)`: a neighbour already on the stack closes a cycle,
    /// reported once; an unvisited neighbour is entered. The ghost discovery times of the
    /// nodes entered increase up the stack, so each reported cycle names its nodes in the
    /// order they were discovered.
    #[verifier::rlimit(40)]
    fn dfs_cycles(
        &self,
        ty: &str,
        adj: &Vec<Vec<usize>>,
        root: usize,
        visited: &mut Vec<bool>,
        cycles: &mut Vec<CircularDependency>,
        c0: Ghost<Seq<CircularDependency>>,
        fin0: Ghost<Seq<usize>>,
        dt0: Ghost<Map<usize, nat>>,
        clock0: Ghost<nat>,
    ) -> (res: Ghost<(Seq<usize>, Map<usize, nat>, nat)>)
        requires
            self.wf(),
            adj.len() == self.nodes().len(),
            distinct_nodes(fin0@),
            forall|v: int| 0 <= v < self.nodes().len() ==> (old(visited)[v] <==> fin0@.contains(v as usize)),
            forall|k: int| 0 <= k < fin0@.len() ==> #[trigger] fin0@[k] < self.nodes().len(),
            !has_report(old(cycles)@, ty@) ==> finished_in_order(adj@, fin0@),
            forall|u: int, k: int| 0 <= u < adj.len() && 0 <= k < adj[u].len() ==> #[trigger] adj[u][k] < self.nodes().len()
                && dir_step(self.edges(), ty@, true)(u as nat, adj[u][k] as nat),
            old(visited).len() == self.nodes().len(),
            root < self.nodes().len(),
            !old(visited)[root as int],
            old(cycles).len() >= c0@.len(),
            forall|k: int| c0@.len() <= k < old(cycles).len() ==> (#[trigger] old(cycles)[k]).edge_type@ == ty@,
            forall|k: int| 0 <= k < old(cycles).len() ==> names_cycle(self.nodes(), self.edges(), (#[trigger] old(cycles)[k]).edge_type@,
                old(cycles)[k].cycle@),
            forall|k: int, l: int| 0 <= k < l < old(cycles).len() ==> !same_report(#[trigger] old(cycles)[k], #[trigger] old(cycles)[l]),
            forall|v: int| 0 <= v < self.nodes().len() ==> (old(visited)[v] <==> dt0@.dom().contains(v as usize)),
            forall|v: usize| #[trigger] dt0@.dom().contains(v) ==> dt0@[v] < clock0@,
            forall|k: int| c0@.len() <= k < old(cycles).len() ==> climbs(self.nodes(), dt0@, (#[trigger] old(cycles)[k]).cycle@),
        ensures
            final(visited).len() == self.nodes().len(),
            final(cycles).len() >= old(cycles).len(),
            forall|k: int| 0 <= k < old(cycles).len() ==> #[trigger] final(cycles)[k] == old(cycles)[k],
            forall|k: int| c0@.len() <= k < final(cycles).len() ==> (#[trigger] final(cycles)[k]).edge_type@ == ty@,
            forall|k: int| 0 <= k < final(cycles).len() ==> names_cycle(self.nodes(), self.edges(), (#[trigger] final(cycles)[k]).edge_type@,
                final(cycles)[k].cycle@),
            forall|k: int, l: int| 0 <= k < l < final(cycles).len() ==> !same_report(#[trigger] final(cycles)[k], #[trigger] final(cycles)[l]),
            final(visited)[root as int],
            forall|v: int| 0 <= v < self.nodes().len() && old(visited)[v] ==> final(visited)[v],
            distinct_nodes(res@.0),
            forall|v: int| 0 <= v < self.nodes().len() ==> (final(visited)[v] <==> res@.0.contains(v as usize)),
            forall|k: int| 0 <= k < res@.0.len() ==> #[trigger] res@.0[k] < self.nodes().len(),
            !has_report(final(cycles)@, ty@) ==> finished_in_order(adj@, res@.0),
            keeps_times(dt0@, res@.1),
            forall|v: int| 0 <= v < self.nodes().len() ==> (final(visited)[v] <==> res@.1.dom().contains(v as usize)),
            forall|v: usize| #[trigger] res@.1.dom().contains(v) ==> res@.1[v] < res@.2,
            forall|k: int| c0@.len() <= k < final(cycles).len() ==> climbs(self.nodes(), res@.1, (#[trigger] final(cycles)[k]).cycle@),
    {
        let ghost es = self.edges();
        let ghost step = dir_step(es, ty@, true);
        let ghost vis_in = visited@;
        let ghost mut fin = fin0@;
        let ghost lens: Seq<nat> = Seq::new(adj.len() as nat, |u: int| adj[u].len() as nat);
        let ghost cs0 = cycles@;
        let n = adj.len();
        proof {
            lemma_count_false_set(visited@, root as int);
        }
        visited.set(root, true);
        let ghost mut dt = dt0@.insert(root, clock0@);
        let ghost mut clock = clock0@ + 1;
        let mut stack: Vec<usize> = Vec::new();
        let mut iters: Vec<usize> = Vec::new();
        stack.push(root);
        iters.push(0);
        proof {
            assert(vis_in == old(visited)@);
            assert(visited@ == vis_in.update(root as int, true));
            assert(stack@ == seq![root]);
            assert(!fin0@.contains(root));
            assert forall|v: int| 0 <= v < n implies (visited[v] <==> (stack@.contains(v as usize) || fin.contains(v as usize))) by {
                if v == root {
                    assert(stack@[0] == root);
                } else {
                    assert(visited[v] == vis_in[v]);
                    assert(old(visited)[v] <==> fin0@.contains(v as usize));
                    if stack@.contains(v as usize) {
                        assert(stack@[0] == v as usize);
                    }
                }
            }
            assert forall|v: usize| #[trigger] stack@.contains(v) implies !fin.contains(v) by {
                assert(stack@[0] == v);
            }
            assert(!dt0@.dom().contains(root));
            assert forall|v: usize| #[trigger] dt0@.dom().contains(v) implies dt.dom().contains(v) && dt[v] == dt0@[v] by {}
            lemma_all_climbs_kept(self.nodes(), dt0@, dt, cycles@, c0@.len() as int);
            assert(stack@[0] == root);
            assert forall|v: int| 0 <= v < n implies (visited[v] <==> dt.dom().contains(v as usize)) by {
                if v != root {
                    assert(visited[v] == vis_in[v]);
                }
            }
        }
        while stack.len() > 0
            invariant
                self.wf(),
                es == self.edges(),
                step == dir_step(es, ty@, true),
                n == self.nodes().len(),
                adj.len() == n,
                lens.len() == n,
                forall|u: int| 0 <= u < n ==> #[trigger] lens[u] == adj[u].len(),
                forall|u: int, k: int| 0 <= u < adj.len() && 0 <= k < adj[u].len() ==> #[trigger] adj[u][k] < n
                    && step(u as nat, adj[u][k] as nat),
                visited.len() == n,
                stack.len() == iters.len(),
                forall|k: int| 0 <= k < stack.len() ==> #[trigger] stack[k] < n && iters[k] <= adj[stack[k] as int].len(),
                forall|k: int| 0 <= k < stack.len() - 1 ==> step(#[trigger] stack[k] as nat, stack[k + 1] as nat),
                cycles.len() >= cs0.len(),
                forall|k: int| 0 <= k < cs0.len() ==> #[trigger] cycles[k] == cs0[k],
                cs0.len() >= c0@.len(),
                forall|k: int| c0@.len() <= k < cycles.len() ==> (#[trigger] cycles[k]).edge_type@ == ty@,
                forall|k: int| 0 <= k < cycles.len() ==> names_cycle(self.nodes(), es, (#[trigger] cycles[k]).edge_type@, cycles[k].cycle@),
                forall|k: int, l: int| 0 <= k < l < cycles.len() ==> !same_report(#[trigger] cycles[k], #[trigger] cycles[l]),
                root < n,
                visited[root as int],
                forall|v: int| 0 <= v < n && vis_in[v] ==> visited[v],
                vis_in.len() == n,
                distinct_nodes(fin),
                distinct_nodes(stack@),
                forall|k: int| 0 <= k < fin.len() ==> #[trigger] fin[k] < n,
                forall|v: int| 0 <= v < n ==> (visited[v] <==> (stack@.contains(v as usize) || fin.contains(v as usize))),
                forall|v: usize| #[trigger] stack@.contains(v) ==> !fin.contains(v),
                !has_report(cycles@, ty@) ==> finished_in_order(adj@, fin) && frames_done(adj@, fin, stack@, iters@),
                keeps_times(dt0@, dt),
                forall|v: int| 0 <= v < n ==> (visited[v] <==> dt.dom().contains(v as usize)),
                forall|v: usize| #[trigger] dt.dom().contains(v) ==> dt[v] < clock,
                forall|a: int, b: int| #![trigger dt[stack@[a]], dt[stack@[b]]] 0 <= a < b < stack.len() ==> dt[stack@[a]] < dt[stack@[b]],
                forall|k: int| 0 <= k < stack.len() ==> dt.dom().contains(#[trigger] stack@[k]),
                forall|k: int| c0@.len() <= k < cycles.len() ==> climbs(self.nodes(), dt, (#[trigger] cycles[k]).cycle@),
            decreases count_false(visited@), frames_left(stack@.map_values(|u: usize| lens[u as int]), iters@),
        {
            let ghost sl = stack@.map_values(|u: usize| lens[u as int]);
            let ghost it0 = iters@;
            let ghost st0 = stack@;
            let top = stack[stack.len() - 1];
            let i = iters[iters.len() - 1];
            if i < adj[top].len() {
                let next = adj[top][i];
                iters.set(iters.len() - 1, i + 1);
                proof {
                    lemma_frames_left_advance(sl, it0, (i + 1) as usize);
                    assert(step(top as nat, next as nat));
                }
                // Is `next` on the stack?
                let mut pos: usize = 0;
                while pos < stack.len() && stack[pos] != next
                    invariant
                        pos <= stack.len(),
                        forall|q: int| 0 <= q < pos ==> stack[q] != next,
                    decreases stack.len() - pos,
                {
                    pos += 1;
                }
                if pos < stack.len() {
                    let cyc = self.cycle_names(&stack, pos);
                    let report = CircularDependency { edge_type: ty.to_owned(), cycle: cyc };
                    proof {
                        let len = stack.len() - pos;
                        let w: Seq<nat> = Seq::new(
                            (len + 1) as nat,
                            |k: int| if k < len { stack@[pos + k] as nat } else { stack@[pos as int] as nat },
                        );
                        assert forall|k: int| 0 <= k < w.len() - 1 implies #[trigger] step(w[k], w[k + 1]) by {
                            if k < len - 1 {
                                assert(step(stack[pos + k] as nat, stack[pos + k + 1] as nat));
                            }
                        }
                        assert forall|k: int| 0 <= k < w.len() implies #[trigger] w[k] < self.nodes().len()
                            && report.cycle@[k]@ == self.nodes()[w[k] as int].0 by {
                            if k < len {
                                assert(report.cycle@[k]@ == self.nodes()[stack[pos + k] as int].0);
                            }
                        }
                        assert forall|a: int, b: int| 0 <= a < b < w.len() - 1 implies w[a] != w[b] by {
                            assert(stack@[pos + a] != stack@[pos + b]);
                        }
                        assert(names_closed_walk(self.nodes(), es, report.edge_type@, report.cycle@, w));
                        reveal(names_cycle);
                        lemma_stack_climbs(self.nodes(), dt, stack@, pos as int, report.cycle@);
                    }
                    let mut dup = false;
                    let mut j: usize = 0;
                    while j < cycles.len()
                        invariant_except_break
                            j <= cycles.len(),
                            !dup,
                            forall|jj: int| 0 <= jj < j ==> !same_report(#[trigger] cycles[jj], report),
                        ensures
                            !dup ==> forall|jj: int| 0 <= jj < cycles.len() ==> !same_report(#[trigger] cycles[jj], report),
                            dup ==> exists|jj: int| 0 <= jj < cycles.len() && #[trigger] same_report(cycles[jj], report),
                        decreases cycles.len() - j,
                    {
                        if same_report_exec(&cycles[j], &report) {
                            dup = true;
                            assert(same_report(cycles[j as int], report));
                            break;
                        }
                        j += 1;
                    }
                    if !dup {
                        let ghost cs1 = cycles@;
                        cycles.push(report);
                        proof {
                            assert forall|k: int, l: int| 0 <= k < l < cycles.len() implies !same_report(#[trigger] cycles[k], #[trigger] cycles[l]) by {
                                if l < cs1.len() {
                                    assert(cycles[k] == cs1[k] && cycles[l] == cs1[l]);
                                } else {
                                    assert(cycles[k] == cs1[k]);
                                    assert(!same_report(cs1[k], report));
                                    if same_report(cycles[k], cycles[l]) {
                                        assert(same_report(cs1[k], report));
                                    }
                                }
                            }
                            assert forall|k: int| 0 <= k < cycles.len() implies names_cycle(self.nodes(), es, (#[trigger] cycles[k]).edge_type@,
                                cycles[k].cycle@) by {
                                if k < cs1.len() {
                                    assert(cycles[k] == cs1[k]);
                                }
                            }
                            assert forall|k: int| c0@.len() <= k < cycles.len() implies (#[trigger] cycles[k]).edge_type@ == ty@ by {
                                if k < cs1.len() {
                                    assert(cycles[k] == cs1[k]);
                                }
                            }
                            assert forall|k: int| 0 <= k < cs0.len() implies #[trigger] cycles[k] == cs0[k] by {
                                assert(cycles[k] == cs1[k]);
                            }
                            assert forall|k: int| c0@.len() <= k < cycles.len() implies climbs(self.nodes(), dt, (#[trigger] cycles[k]).cycle@) by {
                                if k < cs1.len() {
                                    assert(cycles[k] == cs1[k]);
                                }
                            }
                            assert(cycles@[cs1.len() as int].edge_type@ == ty@);
                            assert(has_report(cycles@, ty@));
                        }
                    } else {
                        proof {
                            let jj = choose|jj: int| 0 <= jj < cycles.len() && #[trigger] same_report(cycles[jj], report);
                            assert(cycles@[jj].edge_type@ == ty@);
                            assert(has_report(cycles@, ty@));
                        }
                    }
                } else if !visited[next] {
                    proof {
                        lemma_count_false_set(visited@, next as int);
                        assert(!stack@.contains(next));
                    }
                    let ghost it1 = iters@;
                    let ghost dtb = dt;
                    let ghost vb = visited@;
                    visited.set(next, true);
                    stack.push(next);
                    iters.push(0);
                    proof {
                        assert(!dtb.dom().contains(next));
                        lemma_time_new_node(dt0@, dtb, next, clock);
                        lemma_push_discovered(dtb, st0, next, clock);
                        lemma_all_climbs_kept(self.nodes(), dtb, dtb.insert(next, clock), cycles@, c0@.len() as int);
                        dt = dtb.insert(next, clock);
                        clock = clock + 1;
                        assert forall|v: int| 0 <= v < n implies (visited[v] <==> dt.dom().contains(v as usize)) by {
                            if v != next {
                                assert(visited[v] == vb[v]);
                            }
                        }
                        assert forall|v: usize| #[trigger] dt.dom().contains(v) implies dt[v] < clock by {
                            if v != next {
                                assert(dtb.dom().contains(v));
                            }
                        }
                        assert(stack@ == st0.push(next));
                        assert(iters@ == it0.update(it0.len() - 1, (i + 1) as usize).push(0));
                        assert forall|v: int| 0 <= v < n implies (visited[v] <==> (stack@.contains(v as usize) || fin.contains(v as usize))) by {
                            if v != next {
                                if stack@.contains(v as usize) {
                                    let q = choose|q: int| 0 <= q < stack@.len() && stack@[q] == v as usize;
                                    assert(st0[q] == v as usize);
                                }
                                if st0.contains(v as usize) {
                                    let q = choose|q: int| 0 <= q < st0.len() && st0[q] == v as usize;
                                    assert(stack@[q] == v as usize);
                                }
                            } else {
                                assert(stack@[st0.len() as int] == next);
                            }
                        }
                        assert forall|v: usize| #[trigger] stack@.contains(v) implies !fin.contains(v) by {
                            let q = choose|q: int| 0 <= q < stack@.len() && stack@[q] == v;
                            if q < st0.len() {
                                assert(st0[q] == v);
                                assert(st0.contains(v));
                            }
                        }
                        assert forall|a: int, b: int| 0 <= a < b < stack@.len() implies stack@[a] != stack@[b] by {
                            if b == st0.len() {
                                assert(st0[a] == stack@[a]);
                                assert(st0.contains(st0[a]));
                            }
                        }
                        if !has_report(cycles@, ty@) {
                            assert forall|j: int, t: int| 0 <= j < stack@.len() && 0 <= t < iters@[j] implies fin.contains(
                                #[trigger] adj@[stack@[j] as int][t],
                            ) || (j + 1 < stack@.len() && t == iters@[j] - 1 && adj@[stack@[j] as int][t] == stack@[j + 1]) by {
                                if j < st0.len() - 1 {
                                    assert(stack@[j] == st0[j] && stack@[j + 1] == st0[j + 1] && iters@[j] == it0[j]);
                                } else if j == st0.len() - 1 {
                                    assert(stack@[j] == top);
                                    if t < i {
                                        assert(it0[j] == i);
                                        assert(fin.contains(adj@[st0[j] as int][t]) || (j + 1 < st0.len() && t == it0[j] - 1 && adj@[st0[j] as int][t] == st0[j + 1]));
                                    } else {
                                        assert(adj@[top as int][t] == next);
                                        assert(stack@[j + 1] == next);
                                    }
                                }
                            }
                        }
                        assert forall|k: int| 0 <= k < stack.len() - 1 implies step(#[trigger] stack[k] as nat, stack[k + 1] as nat) by {
                            if k < st0.len() - 1 {
                                assert(stack[k] == st0[k] && stack[k + 1] == st0[k + 1]);
                            }
                        }
                    }
                } else {
                    proof {
                        assert(!stack@.contains(next));
                        assert(fin.contains(next));
                        if !has_report(cycles@, ty@) {
                            assert forall|j: int, t: int| 0 <= j < stack@.len() && 0 <= t < iters@[j] implies fin.contains(
                                #[trigger] adj@[stack@[j] as int][t],
                            ) || (j + 1 < stack@.len() && t == iters@[j] - 1 && adj@[stack@[j] as int][t] == stack@[j + 1]) by {
                                if j < st0.len() - 1 {
                                    assert(iters@[j] == it0[j]);
                                } else if t < i {
                                    assert(it0[j] == i);
                                    assert(fin.contains(adj@[st0[j] as int][t]) || (j + 1 < st0.len() && t == it0[j] - 1 && adj@[st0[j] as int][t] == st0[j + 1]));
                                } else {
                                    assert(adj@[top as int][t] == next);
                                }
                            }
                        }
                    }
                }
            } else {
                let ghost f0 = fin;
                stack.pop();
                iters.pop();
                proof {
                    lemma_frames_left_pop(sl, it0);
                    assert(stack@.map_values(|u: usize| lens[u as int]) =~= sl.drop_last());
                    assert(st0.last() == top);
                    assert(st0.contains(top));
                    assert(!f0.contains(top));
                    fin = f0.push(top);
                    assert(stack@ == st0.drop_last());
                    assert(!stack@.contains(top)) by {
                        if stack@.contains(top) {
                            let q = choose|q: int| 0 <= q < stack@.len() && stack@[q] == top;
                            assert(st0[q] == st0[st0.len() - 1]);
                        }
                    }
                    assert forall|a: int, b: int| 0 <= a < b < fin.len() implies fin[a] != fin[b] by {
                        if b == f0.len() {
                            assert(f0.contains(fin[a]));
                        }
                    }
                    assert forall|v: int| 0 <= v < n implies (visited[v] <==> (stack@.contains(v as usize) || fin.contains(v as usize))) by {
                        if st0.contains(v as usize) && v != top {
                            let q = choose|q: int| 0 <= q < st0.len() && st0[q] == v as usize;
                            assert(q != st0.len() - 1);
                            assert(stack@[q] == v as usize);
                        }
                        if stack@.contains(v as usize) {
                            let q = choose|q: int| 0 <= q < stack@.len() && stack@[q] == v as usize;
                            assert(st0[q] == v as usize);
                        }
                        if fin.contains(v as usize) && v != top {
                            let q = choose|q: int| 0 <= q < fin.len() && fin[q] == v as usize;
                            assert(f0[q] == v as usize);
                        }
                        if f0.contains(v as usize) {
                            let q = choose|q: int| 0 <= q < f0.len() && f0[q] == v as usize;
                            assert(fin[q] == v as usize);
                        }
                        if v == top {
                            assert(fin[f0.len() as int] == top);
                        }
                    }
                    assert forall|v: usize| #[trigger] stack@.contains(v) implies !fin.contains(v) by {
                        let q = choose|q: int| 0 <= q < stack@.len() && stack@[q] == v;
                        assert(st0[q] == v);
                        assert(st0.contains(v));
                        assert(v != top);
                        if fin.contains(v) {
                            let r = choose|r: int| 0 <= r < fin.len() && fin[r] == v;
                            assert(f0[r] == v);
                        }
                    }
                    if !has_report(cycles@, ty@) {
                        lemma_pop_frame(adj@, f0, st0, it0);
                    }
                    assert forall|a: int, b: int| #![trigger dt[stack@[a]], dt[stack@[b]]] 0 <= a < b < stack.len() implies dt[stack@[a]]
                        < dt[stack@[b]] by {
                        assert(stack@[a] == st0[a] && stack@[b] == st0[b]);
                        assert(dt[st0[a]] < dt[st0[b]]);
                    }
                    assert forall|k: int| 0 <= k < stack.len() implies dt.dom().contains(#[trigger] stack@[k]) by {
                        assert(stack@[k] == st0[k]);
                    }
                }
            }
        }
        proof {
            assert forall|v: int| 0 <= v < n implies (visited[v] <==> fin.contains(v as usize)) by {}
        }
        Ghost((fin, dt, clock))
    }

    /// The paths of `stack[pos..]`, then the path of `stack[pos]` again, which closes the
    /// cycle.
    fn cycle_names(&self, stack: &Vec<usize>, pos: usize) -> (cyc: Vec<String>)
        requires
            self.wf(),
            pos < stack.len(),
            forall|k: int| 0 <= k < stack.len() ==> #[trigger] stack[k] < self.nodes().len(),
        ensures
            cyc.len() == stack.len() - pos + 1,
            forall|k: int| 0 <= k < stack.len() - pos ==> (#[trigger] cyc[k])@ == self.nodes()[stack[pos + k] as int].0,
            cyc[stack.len() - pos]@ == self.nodes()[stack[pos as int] as int].0,
    {
        let mut cyc: Vec<String> = Vec::new();
        let mut k: usize = pos;
        while k < stack.len()
            invariant
                self.wf(),
                pos <= k <= stack.len(),
                forall|j: int| 0 <= j < stack.len() ==> #[trigger] stack[j] < self.nodes().len(),
                cyc.len() == k - pos,
                forall|j: int| 0 <= j < k - pos ==> (#[trigger] cyc[j])@ == self.nodes()[stack[pos + j] as int].0,
            decreases stack.len() - k,
        {
            let node = self.node_at(stack[k]);
            cyc.push(node.path.clone());
            k += 1;
        }
        let first = self.node_at(stack[pos]);
        cyc.push(first.path.clone());
        cyc
    }
}

/// Advancing the top frame's neighbour index leaves one frame fewer to explore.
proof fn lemma_frames_left_advance(lens: Seq<nat>, iters: Seq<usize>, i: usize)
    requires
        iters.len() > 0,
        lens.len() == iters.len(),
        iters.last() < i <= lens.last(),
    ensures
        frames_left(lens, iters.update(iters.len() - 1, i)) < frames_left(lens, iters),
{
    let it2 = iters.update(iters.len() - 1, i);
    assert(it2.drop_last() =~= iters.drop_last());
}

/// Popping the top frame leaves fewer frames to explore.
proof fn lemma_frames_left_pop(lens: Seq<nat>, iters: Seq<usize>)
    requires
        iters.len() > 0,
        lens.len() == iters.len(),
    ensures
        frames_left(lens.drop_last(), iters.drop_last()) < frames_left(lens, iters),
{
}

} // verus!
