//! Structural lineage: the chain of notes reached from a start note along one relation
//! (such as `supersedes`), following edges forwards, backwards or both, nearest first.
use vstd::prelude::*;

use crate::graph::{has_path, incident_in, lemma_path_index, path_index, paths_unique, EdgeView, KnowledgeGraph, NodeView};
use crate::reach::{
    at_distance, lemma_distance_unique, lemma_reach_bounded, lemma_reach_next, lemma_reach_stable, reach,
};
use crate::text::{all_ascii, ascii_lower_seq, chars_ascii_lower, chars_eq, opt_view, str_chars, str_to_lowercase, unicode_lowercase};
use crate::traverse::all_false;

verus! {

/// A step or node in a lineage traversal.
#[derive(Debug, Clone)]
pub struct LineageNode {
    /// Document path.
    pub path: String,
    /// Document title if known.
    pub title: Option<String>,
    /// Hop distance from the start node (0 for start note).
    pub depth: usize,
    /// Edge type traversed to reach this note.
    pub edge_type: String,
    /// Direction traversed ("start", "outgoing", "incoming").
    pub direction: String,
}

/// Equal ignoring ASCII case (`str::eq_ignore_ascii_case`).
pub open spec fn ascii_ci_eq(a: Seq<char>, b: Seq<char>) -> bool {
    ascii_lower_seq(a) == ascii_lower_seq(b)
}

/// Edge `e` joins `u` to `v` in the given direction (forwards when `outgoing`).
pub open spec fn joins(es: Seq<EdgeView>, e: int, u: nat, v: nat, outgoing: bool) -> bool {
    0 <= e < es.len() && if outgoing { es[e].0 == u && es[e].1 == v } else { es[e].1 == u && es[e].0 == v }
}

/// One step along an edge whose type matches `ty` ignoring ASCII case, in one direction.
pub open spec fn dir_step(es: Seq<EdgeView>, ty: Seq<char>, outgoing: bool) -> spec_fn(nat, nat) -> bool {
    |u: nat, v: nat| exists|e: int| #[trigger] joins(es, e, u, v, outgoing) && ascii_ci_eq(es[e].2.0, ty)
}

/// One lineage step: forwards when `fwd`, backwards when `bwd`.
pub open spec fn lineage_step(es: Seq<EdgeView>, ty: Seq<char>, fwd: bool, bwd: bool) -> spec_fn(nat, nat) -> bool {
    |u: nat, v: nat| (fwd && dir_step(es, ty, true)(u, v)) || (bwd && dir_step(es, ty, false)(u, v))
}

/// The direction word of a traversal step.
pub open spec fn direction_word(outgoing: bool) -> Seq<char> {
    if outgoing { "outgoing"@ } else { "incoming"@ }
}

/// `x` reports node `v` at depth `d`, reached from a node at depth `d - 1` along an edge of
/// matching type in an allowed direction, whose type and direction it records.
pub open spec fn reports_step(
    ns: Seq<NodeView>,
    es: Seq<EdgeView>,
    ty: Seq<char>,
    fwd: bool,
    bwd: bool,
    st: nat,
    v: nat,
    x: LineageNode,
) -> bool {
    &&& v < ns.len()
    &&& x.path@ == ns[v as int].0
    &&& opt_view(x.title) == ns[v as int].1
    &&& x.depth >= 1
    &&& at_distance(lineage_step(es, ty, fwd, bwd), st, v, x.depth as nat)
    &&& exists|e: int, u: nat, outgoing: bool| #[trigger] joins(es, e, u, v, outgoing)
        && (if outgoing { fwd } else { bwd }) && ascii_ci_eq(es[e].2.0, ty)
        && at_distance(lineage_step(es, ty, fwd, bwd), st, u, (x.depth - 1) as nat)
        && x.edge_type@ == es[e].2.0 && x.direction@ == direction_word(outgoing)
}

/// `out` lists, after the start entry, exactly the nodes at distance 1 to `max_depth`, each
/// once, nearest first.
pub open spec fn lineage_listing(
    ns: Seq<NodeView>,
    es: Seq<EdgeView>,
    ty: Seq<char>,
    fwd: bool,
    bwd: bool,
    st: nat,
    max_depth: nat,
    out: Seq<LineageNode>,
) -> bool {
    &&& forall|k: int| 0 <= k < out.len() ==> (#[trigger] out[k]).depth <= max_depth && exists|v: nat|
        reports_step(ns, es, ty, fwd, bwd, st, v, out[k])
    &&& forall|v: nat, d: nat| v < ns.len() && 1 <= d <= max_depth && #[trigger] at_distance(
        lineage_step(es, ty, fwd, bwd),
        st,
        v,
        d,
    ) ==> exists|k: int| 0 <= k < out.len() && (#[trigger] out[k]).path@ == ns[v as int].0 && out[k].depth == d
    &&& forall|k: int, l: int| 0 <= k < l < out.len() ==> (#[trigger] out[k]).path@ != (#[trigger] out[l]).path@
    &&& forall|k: int, l: int| 0 <= k < l < out.len() ==> (#[trigger] out[k]).depth <= (#[trigger] out[l]).depth
}

/// The directions a direction word allows: `(forwards, backwards)`.
pub open spec fn allowed_directions(direction: Seq<char>) -> (bool, bool) {
    directions_by_lower(unicode_lowercase(direction))
}

/// The directions a lower-cased direction word allows: `(forwards, backwards)`.
pub open spec fn directions_by_lower(d: Seq<char>) -> (bool, bool) {
    (d == "outgoing"@ || d == "both"@, d == "incoming"@ || d == "both"@)
}

/// `results[base + m]` reports `next[m]` at depth `d`, for every `m`, as found from a node of
/// `from` at distance `d - 1`.
pub open spec fn entries_report(
    ns: Seq<NodeView>,
    es: Seq<EdgeView>,
    ty: Seq<char>,
    fwd: bool,
    bwd: bool,
    st: nat,
    d: nat,
    next: Seq<usize>,
    results: Seq<LineageNode>,
    base: int,
) -> bool {
    &&& results.len() == base + next.len()
    &&& forall|m: int| 0 <= m < next.len() ==> reports_step(ns, es, ty, fwd, bwd, st, next[m] as nat, #[trigger] results[base + m])
        && results[base + m].depth == d
}

/// The far end of an edge listed as `(edge, source, target)`.
pub open spec fn far_of(t: (usize, usize, usize), outgoing: bool) -> usize {
    if outgoing { t.2 } else { t.1 }
}

/// Appending the next layer's entries to a lineage listing of layers `1..=depth` lists
/// layers `1..=depth+1`.
proof fn lemma_lineage_extend_members(
    ns: Seq<NodeView>,
    es: Seq<EdgeView>,
    ty: Seq<char>,
    fwd: bool,
    bwd: bool,
    st: nat,
    depth: nat,
    d1: nat,
    res0: Seq<LineageNode>,
    next: Seq<usize>,
    res1: Seq<LineageNode>,
)
    requires
        d1 == depth + 1,
        ns.len() <= u32::MAX,
        paths_unique(ns),
        lineage_listing(ns, es, ty, fwd, bwd, st, depth, res0),
        forall|m: int| 0 <= m < next.len() ==> #[trigger] next[m] < ns.len() && at_distance(
            lineage_step(es, ty, fwd, bwd), st, next[m] as nat, d1),
        forall|v: nat| #[trigger] at_distance(lineage_step(es, ty, fwd, bwd), st, v, d1) ==> next.contains(v as usize),
        forall|m: int, l: int| 0 <= m < l < next.len() ==> #[trigger] next[m] != #[trigger] next[l],
        forall|k: int| 0 <= k < res0.len() ==> #[trigger] res1[k] == res0[k],
        entries_report(ns, es, ty, fwd, bwd, st, d1, next, res1, res0.len() as int),
    ensures
        forall|k: int| 0 <= k < res1.len() ==> (#[trigger] res1[k]).depth <= d1 && exists|v: nat|
            reports_step(ns, es, ty, fwd, bwd, st, v, res1[k]),
        forall|v: nat, d: nat| v < ns.len() && 1 <= d <= d1 && #[trigger] at_distance(lineage_step(es, ty, fwd, bwd), st, v, d)
            ==> exists|k: int| 0 <= k < res1.len() && (#[trigger] res1[k]).path@ == ns[v as int].0 && res1[k].depth == d,
{
    let step = lineage_step(es, ty, fwd, bwd);
    let b = res0.len() as int;
    assert forall|k: int| 0 <= k < res1.len() implies (#[trigger] res1[k]).depth <= d1 && exists|v: nat|
        reports_step(ns, es, ty, fwd, bwd, st, v, res1[k]) by {
        if k >= b {
            let m = k - b;
            assert(reports_step(ns, es, ty, fwd, bwd, st, next[m] as nat, res1[b + m]));
        } else {
            assert(res1[k] == res0[k]);
            assert(res0[k].depth <= depth);
        }
    }
    assert forall|v: nat, d: nat| v < ns.len() && 1 <= d <= d1 && #[trigger] at_distance(step, st, v, d)
        implies exists|k: int| 0 <= k < res1.len() && (#[trigger] res1[k]).path@ == ns[v as int].0 && res1[k].depth == d by {
        if d == d1 {
            assert(next.contains(v as usize));
            let m = choose|m: int| 0 <= m < next.len() && next[m] == v as usize;
            assert(reports_step(ns, es, ty, fwd, bwd, st, next[m] as nat, res1[b + m]));
            assert(res1[b + m].path@ == ns[v as int].0);
        } else {
            let k = choose|k: int| 0 <= k < res0.len() && (#[trigger] res0[k]).path@ == ns[v as int].0 && res0[k].depth == d;
            assert(res1[k] == res0[k]);
        }
    }
}

/// Appending the next layer's entries to a lineage listing of layers `1..=depth` lists
/// layers `1..=depth+1`.
proof fn lemma_lineage_extend_order(
    ns: Seq<NodeView>,
    es: Seq<EdgeView>,
    ty: Seq<char>,
    fwd: bool,
    bwd: bool,
    st: nat,
    depth: nat,
    d1: nat,
    res0: Seq<LineageNode>,
    next: Seq<usize>,
    res1: Seq<LineageNode>,
)
    requires
        d1 == depth + 1,
        ns.len() <= u32::MAX,
        paths_unique(ns),
        lineage_listing(ns, es, ty, fwd, bwd, st, depth, res0),
        forall|m: int| 0 <= m < next.len() ==> #[trigger] next[m] < ns.len() && at_distance(
            lineage_step(es, ty, fwd, bwd), st, next[m] as nat, d1),
        forall|v: nat| #[trigger] at_distance(lineage_step(es, ty, fwd, bwd), st, v, d1) ==> next.contains(v as usize),
        forall|m: int, l: int| 0 <= m < l < next.len() ==> #[trigger] next[m] != #[trigger] next[l],
        forall|k: int| 0 <= k < res0.len() ==> #[trigger] res1[k] == res0[k],
        entries_report(ns, es, ty, fwd, bwd, st, d1, next, res1, res0.len() as int),
    ensures
        forall|k: int, l: int| 0 <= k < l < res1.len() ==> (#[trigger] res1[k]).path@ != (#[trigger] res1[l]).path@,
        forall|k: int, l: int| 0 <= k < l < res1.len() ==> (#[trigger] res1[k]).depth <= (#[trigger] res1[l]).depth,
{
    let step = lineage_step(es, ty, fwd, bwd);
    let b = res0.len() as int;
    assert forall|k: int, l: int| 0 <= k < l < res1.len() implies (#[trigger] res1[k]).path@ != (#[trigger] res1[l]).path@ by {
        if l >= b {
            let ml = l - b;
            assert(reports_step(ns, es, ty, fwd, bwd, st, next[ml] as nat, res1[b + ml]));
            let vl = next[ml] as nat;
            if k >= b {
                let mk = k - b;
                assert(reports_step(ns, es, ty, fwd, bwd, st, next[mk] as nat, res1[b + mk]));
                if next[mk] < next[ml] {
                    assert(ns[next[mk] as int].0 != ns[next[ml] as int].0);
                } else {
                    assert(ns[next[ml] as int].0 != ns[next[mk] as int].0);
                }
            } else {
                assert(res1[k] == res0[k]);
                assert(res0[k].depth <= depth);
                let u = choose|u: nat| reports_step(ns, es, ty, fwd, bwd, st, u, res0[k]);
                if res1[k].path@ == res1[l].path@ {
                    if u != vl {
                        if u < vl {
                            assert(ns[u as int].0 != ns[vl as int].0);
                        } else {
                            assert(ns[vl as int].0 != ns[u as int].0);
                        }
                    }
                    lemma_distance_unique(step, st, u, res0[k].depth as nat, d1);
                }
            }
        } else {
            assert(res1[k] == res0[k] && res1[l] == res0[l]);
        }
    }
    assert forall|k: int, l: int| 0 <= k < l < res1.len() implies (#[trigger] res1[k]).depth <= (#[trigger] res1[l]).depth by {
        if l >= b {
            assert(res1[b + (l - b)].depth == d1);
            if k >= b {
                assert(res1[b + (k - b)].depth == d1);
            } else {
                assert(res1[k] == res0[k]);
                assert(res0[k].depth <= depth);
            }
        } else {
            assert(res1[k] == res0[k] && res1[l] == res0[l]);
        }
    }
}

/// Appending the next layer's entries to a lineage listing of layers `1..=depth` lists
/// layers `1..=depth+1`.
pub proof fn lemma_lineage_extend(
    ns: Seq<NodeView>,
    es: Seq<EdgeView>,
    ty: Seq<char>,
    fwd: bool,
    bwd: bool,
    st: nat,
    depth: nat,
    d1: nat,
    res0: Seq<LineageNode>,
    next: Seq<usize>,
    res1: Seq<LineageNode>,
)
    requires
        d1 == depth + 1,
        ns.len() <= u32::MAX,
        paths_unique(ns),
        lineage_listing(ns, es, ty, fwd, bwd, st, depth, res0),
        forall|m: int| 0 <= m < next.len() ==> #[trigger] next[m] < ns.len() && at_distance(
            lineage_step(es, ty, fwd, bwd), st, next[m] as nat, d1),
        forall|v: nat| #[trigger] at_distance(lineage_step(es, ty, fwd, bwd), st, v, d1) ==> next.contains(v as usize),
        forall|m: int, l: int| 0 <= m < l < next.len() ==> #[trigger] next[m] != #[trigger] next[l],
        forall|k: int| 0 <= k < res0.len() ==> #[trigger] res1[k] == res0[k],
        entries_report(ns, es, ty, fwd, bwd, st, d1, next, res1, res0.len() as int),
    ensures
        lineage_listing(ns, es, ty, fwd, bwd, st, d1, res1),
{
    lemma_lineage_extend_members(ns, es, ty, fwd, bwd, st, depth, d1, res0, next, res1);
    lemma_lineage_extend_order(ns, es, ty, fwd, bwd, st, depth, d1, res0, next, res1);
}

/// When no node is at distance `depth`, a lineage listing of layers `1..=depth` lists all
/// layers up to any larger bound.
pub proof fn lemma_lineage_saturate(
    ns: Seq<NodeView>,
    es: Seq<EdgeView>,
    ty: Seq<char>,
    fwd: bool,
    bwd: bool,
    st: nat,
    depth: nat,
    max_depth: nat,
    res: Seq<LineageNode>,
)
    requires
        lineage_listing(ns, es, ty, fwd, bwd, st, depth, res),
        forall|u: nat| !#[trigger] at_distance(lineage_step(es, ty, fwd, bwd), st, u, depth),
        depth <= max_depth,
    ensures
        lineage_listing(ns, es, ty, fwd, bwd, st, max_depth, res),
{
    let step = lineage_step(es, ty, fwd, bwd);
    assert forall|v: nat, d: nat| v < ns.len() && 1 <= d <= max_depth && #[trigger] at_distance(step, st, v, d)
        implies exists|k: int| 0 <= k < res.len() && (#[trigger] res[k]).path@ == ns[v as int].0 && res[k].depth == d by {
        if d > depth {
            lemma_reach_stable(step, st, depth, d);
            lemma_reach_stable(step, st, depth, (d - 1) as nat);
        }
    }
}

impl KnowledgeGraph {
    /// Whether the type of edge `e` equals `ty` ignoring ASCII case.
    fn type_matches(&self, e: usize, ty: &str, ty_lower: &Vec<char>) -> (r: bool)
        requires
            e < self.edges().len(),
            ty_lower@ == ascii_lower_seq(ty@),
        ensures
            r == ascii_ci_eq(self.edges()[e as int].2.0, ty@),
    {
        let w = self.edge_at(e);
        let tc = str_chars(w.edge_type.as_str());
        let lower = chars_ascii_lower(tc.as_slice());
        chars_eq(lower.as_slice(), ty_lower.as_slice())
    }

    /// Marks the unvisited nodes one matching step from `u` in one direction, appending them
    /// to `next` and an entry for each (at depth `d + 1`) to `results`.
    fn expand_dir(
        &self,
        u: usize,
        outgoing: bool,
        ty: &str,
        ty_lower: &Vec<char>,
        d: usize,
        visited: &mut Vec<bool>,
        next: &mut Vec<usize>,
        results: &mut Vec<LineageNode>,
    )
        requires
            self.wf(),
            u < self.nodes().len(),
            ty_lower@ == ascii_lower_seq(ty@),
            d < usize::MAX,
            old(visited).len() == self.nodes().len(),
        ensures
            final(visited).len() == self.nodes().len(),
            forall|v: nat| v < self.nodes().len() ==> (#[trigger] final(visited)[v as int] <==> (old(visited)[v as int]
                || dir_step(self.edges(), ty@, outgoing)(u as nat, v))),
            final(next).len() >= old(next).len(),
            final(next).len() - old(next).len() == final(results).len() - old(results).len(),
            forall|m: int| 0 <= m < old(next).len() ==> #[trigger] final(next)[m] == old(next)[m],
            forall|k: int| 0 <= k < old(results).len() ==> #[trigger] final(results)[k] == old(results)[k],
            forall|m: int| old(next).len() <= m < final(next).len() ==> #[trigger] final(next)[m] < self.nodes().len()
                && !old(visited)[final(next)[m] as int] && dir_step(self.edges(), ty@, outgoing)(u as nat, final(next)[m] as nat),
            forall|m: int, l: int| old(next).len() <= m < l < final(next).len() ==> #[trigger] final(next)[m] != #[trigger] final(next)[l],
            forall|v: nat| v < self.nodes().len() && dir_step(self.edges(), ty@, outgoing)(u as nat, v) && !old(visited)[v as int]
                ==> #[trigger] final(next)@.subrange(old(next).len() as int, final(next).len() as int).contains(v as usize),
            forall|m: int| old(next).len() <= m < final(next).len() ==> {
                let x = #[trigger] final(results)[old(results).len() + (m - old(next).len())];
                &&& x.path@ == self.nodes()[final(next)[m] as int].0
                &&& opt_view(x.title) == self.nodes()[final(next)[m] as int].1
                &&& x.depth == d + 1
                &&& x.direction@ == direction_word(outgoing)
                &&& exists|e: int| #[trigger] joins(self.edges(), e, u as nat, final(next)[m] as nat, outgoing)
                    && ascii_ci_eq(self.edges()[e].2.0, ty@) && x.edge_type@ == self.edges()[e].2.0
            },
    {
        let ghost step = dir_step(self.edges(), ty@, outgoing);
        let ghost vis0 = visited@;
        let ghost nx0 = next@;
        let ghost rs0 = results@;
        let dir_word = if outgoing { "outgoing" } else { "incoming" };
        proof {
            reveal_strlit("outgoing");
            reveal_strlit("incoming");
        }
        let list = self.edges_at(u, outgoing);
        let mut k: usize = 0;
        while k < list.len()
            invariant
                self.wf(),
                u < self.nodes().len(),
                ty_lower@ == ascii_lower_seq(ty@),
                d < usize::MAX,
                dir_word@ == direction_word(outgoing),
                step == dir_step(self.edges(), ty@, outgoing),
                vis0.len() == self.nodes().len(),
                visited.len() == self.nodes().len(),
                k <= list.len(),
                forall|j: int| 0 <= j < list.len() ==> {
                    &&& #[trigger] list[j].0 < self.edges().len()
                    &&& list[j].1 == self.edges()[list[j].0 as int].0
                    &&& list[j].2 == self.edges()[list[j].0 as int].1
                    &&& incident_in(self.edges(), list[j].0 as int, u as nat, outgoing)
                },
                forall|e: int| 0 <= e < self.edges().len() && incident_in(self.edges(), e, u as nat, outgoing)
                    ==> exists|j: int| 0 <= j < list.len() && #[trigger] list[j].0 == e,
                next.len() >= nx0.len(),
                next.len() - nx0.len() == results.len() - rs0.len(),
                forall|m: int| 0 <= m < nx0.len() ==> #[trigger] next[m] == nx0[m],
                forall|kk: int| 0 <= kk < rs0.len() ==> #[trigger] results[kk] == rs0[kk],
                forall|v: nat| v < self.nodes().len() ==> (#[trigger] visited[v as int] <==> (vis0[v as int]
                    || next@.subrange(nx0.len() as int, next.len() as int).contains(v as usize))),
                forall|m: int| nx0.len() <= m < next.len() ==> #[trigger] next[m] < self.nodes().len()
                    && !vis0[next[m] as int] && step(u as nat, next[m] as nat),
                forall|m: int, l: int| nx0.len() <= m < l < next.len() ==> #[trigger] next[m] != #[trigger] next[l],
                forall|j: int| 0 <= j < k && ascii_ci_eq(self.edges()[list[j].0 as int].2.0, ty@)
                    ==> visited[far_of(#[trigger] list[j], outgoing) as int],
                forall|m: int| nx0.len() <= m < next.len() ==> {
                    let x = #[trigger] results[rs0.len() + (m - nx0.len())];
                    &&& x.path@ == self.nodes()[next[m] as int].0
                    &&& opt_view(x.title) == self.nodes()[next[m] as int].1
                    &&& x.depth == d + 1
                    &&& x.direction@ == direction_word(outgoing)
                    &&& exists|e: int| #[trigger] joins(self.edges(), e, u as nat, next[m] as nat, outgoing)
                        && ascii_ci_eq(self.edges()[e].2.0, ty@) && x.edge_type@ == self.edges()[e].2.0
                },
            decreases list.len() - k,
        {
            let (e, src, tgt) = list[k];
            let v = if outgoing { tgt } else { src };
            if self.type_matches(e, ty, ty_lower) && !visited[v] {
                let ghost nx1 = next@;
                let ghost rs1 = results@;
                visited.set(v, true);
                next.push(v);
                let node = self.node_at(v);
                let w = self.edge_at(e);
                results.push(
                    LineageNode {
                        path: node.path.clone(),
                        title: node.title.clone(),
                        depth: d + 1,
                        edge_type: w.edge_type.clone(),
                        direction: dir_word.to_owned(),
                    },
                );
                proof {
                    assert(joins(self.edges(), e as int, u as nat, v as nat, outgoing));
                    assert(step(u as nat, v as nat));
                    assert forall|x: nat| x < self.nodes().len() implies (#[trigger] visited[x as int] <==> (vis0[x as int]
                        || next@.subrange(nx0.len() as int, next.len() as int).contains(x as usize))) by {
                        let sub0 = nx1.subrange(nx0.len() as int, nx1.len() as int);
                        let sub1 = next@.subrange(nx0.len() as int, next.len() as int);
                        assert(sub1 == sub0.push(v));
                        if sub0.contains(x as usize) {
                            let m = choose|m: int| 0 <= m < sub0.len() && sub0[m] == x as usize;
                            assert(sub1[m] == x as usize);
                        }
                        if sub1.contains(x as usize) && x != v {
                            let m = choose|m: int| 0 <= m < sub1.len() && sub1[m] == x as usize;
                            assert(sub0[m] == x as usize);
                        }
                        assert(sub1[sub0.len() as int] == v);
                    }
                    assert forall|m: int| nx0.len() <= m < next.len() - 1 implies next[m] != v by {
                        assert(nx1.subrange(nx0.len() as int, nx1.len() as int)[m - nx0.len()] == next[m]);
                    }
                    assert forall|m: int| nx0.len() <= m < next.len() implies {
                        let x = #[trigger] results[rs0.len() + (m - nx0.len())];
                        &&& x.path@ == self.nodes()[next[m] as int].0
                        &&& opt_view(x.title) == self.nodes()[next[m] as int].1
                        &&& x.depth == d + 1
                        &&& x.direction@ == direction_word(outgoing)
                        &&& exists|e2: int| #[trigger] joins(self.edges(), e2, u as nat, next[m] as nat, outgoing)
                            && ascii_ci_eq(self.edges()[e2].2.0, ty@) && x.edge_type@ == self.edges()[e2].2.0
                    } by {
                        if m < next.len() - 1 {
                            assert(results[rs0.len() + (m - nx0.len())] == rs1[rs0.len() + (m - nx0.len())]);
                            assert(next[m] == nx1[m]);
                        } else {
                            assert(results[rs0.len() + (m - nx0.len())] == results@.last());
                            assert(next[m] == v);
                        }
                    }
                    assert forall|kk: int| 0 <= kk < rs0.len() implies #[trigger] results[kk] == rs0[kk] by {
                        assert(results[kk] == rs1[kk]);
                    }
                }
            }
            k += 1;
        }
        proof {
            assert forall|v: nat| v < self.nodes().len() && step(u as nat, v) && !vis0[v as int]
                implies #[trigger] next@.subrange(nx0.len() as int, next.len() as int).contains(v as usize) by {
                let e = choose|e: int| #[trigger] joins(self.edges(), e, u as nat, v, outgoing) && ascii_ci_eq(self.edges()[e].2.0, ty@);
                assert(incident_in(self.edges(), e, u as nat, outgoing));
                let j = choose|j: int| 0 <= j < list.len() && #[trigger] list[j].0 == e;
                assert(visited[far_of(list[j], outgoing) as int]);
            }
            assert forall|v: nat| v < self.nodes().len() implies (#[trigger] visited[v as int] <==> (vis0[v as int]
                || step(u as nat, v))) by {
                if next@.subrange(nx0.len() as int, next.len() as int).contains(v as usize) {
                    let m = choose|m: int| 0 <= m < next.len() - nx0.len()
                        && next@.subrange(nx0.len() as int, next.len() as int)[m] == v as usize;
                    assert(next[m + nx0.len()] == v as usize);
                }
            }
        }
    }
    /// One breadth-first layer of the lineage walk from the frontier at distance `d`.
    fn lineage_layer(
        &self,
        st: usize,
        d: usize,
        frontier: &Vec<usize>,
        ty: &str,
        ty_lower: &Vec<char>,
        fwd: bool,
        bwd: bool,
        visited: &mut Vec<bool>,
        results: &mut Vec<LineageNode>,
    ) -> (next: Vec<usize>)
        requires
            self.wf(),
            st < self.nodes().len(),
            d < usize::MAX,
            ty_lower@ == ascii_lower_seq(ty@),
            old(visited).len() == self.nodes().len(),
            forall|v: nat| v < self.nodes().len() ==> (#[trigger] old(visited)[v as int] <==> reach(
                lineage_step(self.edges(), ty@, fwd, bwd), st as nat, d as nat).contains(v)),
            forall|j: int| 0 <= j < frontier.len() ==> #[trigger] frontier[j] < self.nodes().len() && at_distance(
                lineage_step(self.edges(), ty@, fwd, bwd), st as nat, frontier[j] as nat, d as nat),
            forall|v: nat| #[trigger] at_distance(lineage_step(self.edges(), ty@, fwd, bwd), st as nat, v, d as nat)
                ==> frontier@.contains(v as usize),
        ensures
            final(visited).len() == self.nodes().len(),
            forall|v: nat| v < self.nodes().len() ==> (#[trigger] final(visited)[v as int] <==> reach(
                lineage_step(self.edges(), ty@, fwd, bwd), st as nat, (d + 1) as nat).contains(v)),
            forall|m: int| 0 <= m < next.len() ==> #[trigger] next[m] < self.nodes().len() && at_distance(
                lineage_step(self.edges(), ty@, fwd, bwd), st as nat, next[m] as nat, (d + 1) as nat),
            forall|v: nat| #[trigger] at_distance(lineage_step(self.edges(), ty@, fwd, bwd), st as nat, v, (d + 1) as nat)
                ==> next@.contains(v as usize),
            forall|m: int, l: int| 0 <= m < l < next.len() ==> #[trigger] next[m] != #[trigger] next[l],
            forall|k: int| 0 <= k < old(results).len() ==> #[trigger] final(results)[k] == old(results)[k],
            entries_report(self.nodes(), self.edges(), ty@, fwd, bwd, st as nat, (d + 1) as nat, next@, final(results)@, old(results).len() as int),
    {
        let ghost step = lineage_step(self.edges(), ty@, fwd, bwd);
        let ghost n = self.nodes().len();
        let ghost rs0 = results@;
        let mut next: Vec<usize> = Vec::new();
        let mut j: usize = 0;
        proof {
            lemma_reach_next(step, st as nat, d as nat);
            assert forall|u: nat, v: nat| #[trigger] step(u, v) implies v < n by {
                if fwd && dir_step(self.edges(), ty@, true)(u, v) {
                    let e = choose|e: int| #[trigger] joins(self.edges(), e, u, v, true) && ascii_ci_eq(self.edges()[e].2.0, ty@);
                } else {
                    let e = choose|e: int| #[trigger] joins(self.edges(), e, u, v, false) && ascii_ci_eq(self.edges()[e].2.0, ty@);
                }
            }
            lemma_reach_bounded(step, st as nat, n, (d + 1) as nat);
        }
        while j < frontier.len()
            invariant
                self.wf(),
                n == self.nodes().len(),
                st < n,
                d < usize::MAX,
                ty_lower@ == ascii_lower_seq(ty@),
                step == lineage_step(self.edges(), ty@, fwd, bwd),
                forall|u: nat, v: nat| #[trigger] step(u, v) ==> v < n,
                j <= frontier.len(),
                visited.len() == n,
                forall|jj: int| 0 <= jj < frontier.len() ==> #[trigger] frontier[jj] < n && at_distance(step, st as nat, frontier[jj] as nat, d as nat),
                forall|v: nat| v < n ==> (#[trigger] visited[v as int] <==> (reach(step, st as nat, d as nat).contains(v)
                    || next@.contains(v as usize))),
                forall|m: int| 0 <= m < next.len() ==> #[trigger] next[m] < n && at_distance(step, st as nat, next[m] as nat, (d + 1) as nat),
                forall|m: int, l: int| 0 <= m < l < next.len() ==> #[trigger] next[m] != #[trigger] next[l],
                forall|jj: int, v: nat| 0 <= jj < j && v < n && #[trigger] step(frontier[jj] as nat, v) ==> visited[v as int],
                forall|v: nat| #[trigger] reach(step, st as nat, (d + 1) as nat).contains(v) <==> (reach(step, st as nat, d as nat).contains(v)
                    || exists|u: nat| at_distance(step, st as nat, u, d as nat) && #[trigger] step(u, v)),
                forall|k: int| 0 <= k < rs0.len() ==> #[trigger] results[k] == rs0[k],
                entries_report(self.nodes(), self.edges(), ty@, fwd, bwd, st as nat, (d + 1) as nat, next@, results@, rs0.len() as int),
            decreases frontier.len() - j,
        {
            let u = frontier[j];
            let ghost vis_a = visited@;
            if fwd {
                self.expand_layer_dir(st, d, u, true, ty, ty_lower, fwd, bwd, visited, &mut next, results);
            }
            let ghost vis_b = visited@;
            if bwd {
                self.expand_layer_dir(st, d, u, false, ty, ty_lower, fwd, bwd, visited, &mut next, results);
            }
            proof {
                assert forall|jj: int, v: nat| 0 <= jj < j + 1 && v < n && #[trigger] step(frontier[jj] as nat, v) implies visited[v as int] by {
                    if jj < j {
                        assert(vis_a[v as int]);
                    } else {
                        if fwd && dir_step(self.edges(), ty@, true)(u as nat, v) {
                            assert(vis_b[v as int]);
                        }
                    }
                }
            }
            j += 1;
        }
        proof {
            assert forall|v: nat| v < n implies (#[trigger] visited[v as int] <==> reach(step, st as nat, (d + 1) as nat).contains(v)) by {
                if reach(step, st as nat, (d + 1) as nat).contains(v) && !reach(step, st as nat, d as nat).contains(v) {
                    let u = choose|u: nat| at_distance(step, st as nat, u, d as nat) && #[trigger] step(u, v);
                    assert(frontier@.contains(u as usize));
                    let jj = choose|jj: int| 0 <= jj < frontier.len() && frontier[jj] == u as usize;
                    assert(step(frontier[jj] as nat, v));
                }
                if next@.contains(v as usize) {
                    let m = choose|m: int| 0 <= m < next.len() && next[m] == v as usize;
                    assert(at_distance(step, st as nat, next[m] as nat, (d + 1) as nat));
                }
            }
            assert forall|v: nat| #[trigger] at_distance(step, st as nat, v, (d + 1) as nat) implies next@.contains(v as usize) by {
                assert(v < n);
                assert(visited[v as int]);
            }
        }
        next
    }

    /// Expands node `u` of the frontier in one direction, keeping the layer's invariant.
    fn expand_layer_dir(
        &self,
        st: usize,
        d: usize,
        u: usize,
        outgoing: bool,
        ty: &str,
        ty_lower: &Vec<char>,
        fwd: bool,
        bwd: bool,
        visited: &mut Vec<bool>,
        next: &mut Vec<usize>,
        results: &mut Vec<LineageNode>,
    )
        requires
            self.wf(),
            st < self.nodes().len(),
            u < self.nodes().len(),
            d < usize::MAX,
            ty_lower@ == ascii_lower_seq(ty@),
            if outgoing { fwd } else { bwd },
            at_distance(lineage_step(self.edges(), ty@, fwd, bwd), st as nat, u as nat, d as nat),
            old(visited).len() == self.nodes().len(),
            forall|u2: nat, v: nat| #[trigger] lineage_step(self.edges(), ty@, fwd, bwd)(u2, v) ==> v < self.nodes().len(),
            forall|v: nat| #[trigger] reach(lineage_step(self.edges(), ty@, fwd, bwd), st as nat, (d + 1) as nat).contains(v) <==> (reach(
                lineage_step(self.edges(), ty@, fwd, bwd), st as nat, d as nat).contains(v) || exists|u2: nat| at_distance(
                lineage_step(self.edges(), ty@, fwd, bwd), st as nat, u2, d as nat) && #[trigger] lineage_step(self.edges(), ty@, fwd, bwd)(u2, v)),
            forall|v: nat| v < self.nodes().len() ==> (#[trigger] old(visited)[v as int] <==> (reach(
                lineage_step(self.edges(), ty@, fwd, bwd), st as nat, d as nat).contains(v) || old(next)@.contains(v as usize))),
            forall|m: int| 0 <= m < old(next).len() ==> #[trigger] old(next)[m] < self.nodes().len() && at_distance(
                lineage_step(self.edges(), ty@, fwd, bwd), st as nat, old(next)[m] as nat, (d + 1) as nat),
            forall|m: int, l: int| 0 <= m < l < old(next).len() ==> #[trigger] old(next)[m] != #[trigger] old(next)[l],
            old(results).len() >= old(next).len(),
            entries_report(self.nodes(), self.edges(), ty@, fwd, bwd, st as nat, (d + 1) as nat, old(next)@, old(results)@,
                old(results).len() - old(next).len()),
        ensures
            final(visited).len() == self.nodes().len(),
            forall|v: nat| v < self.nodes().len() ==> (#[trigger] final(visited)[v as int] <==> (reach(
                lineage_step(self.edges(), ty@, fwd, bwd), st as nat, d as nat).contains(v) || final(next)@.contains(v as usize))),
            forall|v: nat| v < self.nodes().len() && old(visited)[v as int] ==> #[trigger] final(visited)[v as int],
            forall|v: nat| v < self.nodes().len() && dir_step(self.edges(), ty@, outgoing)(u as nat, v) ==> #[trigger] final(visited)[v as int],
            forall|m: int| 0 <= m < final(next).len() ==> #[trigger] final(next)[m] < self.nodes().len() && at_distance(
                lineage_step(self.edges(), ty@, fwd, bwd), st as nat, final(next)[m] as nat, (d + 1) as nat),
            forall|m: int, l: int| 0 <= m < l < final(next).len() ==> #[trigger] final(next)[m] != #[trigger] final(next)[l],
            forall|k: int| 0 <= k < old(results).len() ==> #[trigger] final(results)[k] == old(results)[k],
            entries_report(self.nodes(), self.edges(), ty@, fwd, bwd, st as nat, (d + 1) as nat, final(next)@, final(results)@,
                old(results).len() - old(next).len()),
    {
        let ghost step = lineage_step(self.edges(), ty@, fwd, bwd);
        let ghost vis0 = visited@;
        let ghost nx0 = next@;
        let ghost rs0 = results@;
        let ghost base = rs0.len() - nx0.len();
        self.expand_dir(u, outgoing, ty, ty_lower, d, visited, next, results);
        proof {
            let n = self.nodes().len();
            assert forall|v: nat| v < n implies (#[trigger] visited[v as int] <==> (reach(step, st as nat, d as nat).contains(v)
                || next@.contains(v as usize))) by {
                let sub = next@.subrange(nx0.len() as int, next.len() as int);
                if next@.contains(v as usize) {
                    let m = choose|m: int| 0 <= m < next.len() && next[m] == v as usize;
                    if m < nx0.len() {
                        assert(nx0[m] == v as usize);
                    } else {
                        assert(sub[m - nx0.len()] == v as usize);
                    }
                }
                if nx0.contains(v as usize) {
                    let m = choose|m: int| 0 <= m < nx0.len() && nx0[m] == v as usize;
                    assert(next[m] == v as usize);
                }
                if sub.contains(v as usize) {
                    let m = choose|m: int| 0 <= m < sub.len() && sub[m] == v as usize;
                    assert(next[m + nx0.len()] == v as usize);
                }
                if vis0[v as int] {
                } else if dir_step(self.edges(), ty@, outgoing)(u as nat, v) {
                    assert(step(u as nat, v));
                }
            }
            assert forall|m: int| 0 <= m < next.len() implies #[trigger] next[m] < n && at_distance(step, st as nat, next[m] as nat, (d + 1) as nat) by {
                if m >= nx0.len() {
                    let v = next[m] as nat;
                    assert(dir_step(self.edges(), ty@, outgoing)(u as nat, v));
                    assert(step(u as nat, v));
                    assert(reach(step, st as nat, (d + 1) as nat).contains(v));
                    assert(!vis0[v as int]);
                }
            }
            assert forall|m: int, l: int| 0 <= m < l < next.len() implies #[trigger] next[m] != #[trigger] next[l] by {
                if m < nx0.len() && l >= nx0.len() {
                    let v = next[l];
                    assert(!vis0[v as int]);
                    assert(nx0[m] == next[m]);
                    assert(nx0.contains(next[m]));
                }
            }
            assert forall|m: int| 0 <= m < next.len() implies reports_step(self.nodes(), self.edges(), ty@, fwd, bwd, st as nat,
                next[m] as nat, #[trigger] results[base + m]) && results[base + m].depth == d + 1 by {
                if m < nx0.len() {
                    assert(results[base + m] == rs0[base + m]);
                    assert(next[m] == nx0[m]);
                } else {
                    let x = results[rs0.len() + (m - nx0.len())];
                    assert(base + m == rs0.len() + (m - nx0.len()));
                    let e = choose|e: int| #[trigger] joins(self.edges(), e, u as nat, next[m] as nat, outgoing)
                        && ascii_ci_eq(self.edges()[e].2.0, ty@) && x.edge_type@ == self.edges()[e].2.0;
                    assert(joins(self.edges(), e, u as nat, next[m] as nat, outgoing));
                }
            }
        }
    }
    /// Deterministically traverse the graph along one structural edge type (compared ignoring
    /// ASCII case), following edges forwards for the direction word "outgoing", backwards for
    /// "incoming" and both ways for "both" (the word compared lower-cased), up to `max_depth`
    /// hops. Returns the lineage chain: the start node at depth 0, then every node reached,
    /// nearest first, with the edge type and direction by which it was first reached.
    pub fn traverse_lineage(&self, start: &str, edge_type: &str, direction: &str, max_depth: usize) -> (r: Vec<LineageNode>)
        requires
            self.wf(),
        ensures
            !has_path(self.nodes(), start@) ==> r.len() == 0,
            has_path(self.nodes(), start@) ==> {
                let st = path_index(self.nodes(), start@);
                let (fwd, bwd) = allowed_directions(direction@);
                &&& r.len() >= 1
                &&& r[0].path@ == start@
                &&& opt_view(r[0].title) == self.nodes()[st].1
                &&& r[0].depth == 0
                &&& r[0].edge_type@ == edge_type@
                &&& r[0].direction@ == "start"@
                &&& lineage_listing(self.nodes(), self.edges(), edge_type@, fwd, bwd, st as nat, max_depth as nat, r@.skip(1))
            },
            has_path(self.nodes(), start@) && all_ascii(direction@) ==> allowed_directions(direction@) == directions_by_lower(
                ascii_lower_seq(direction@),
            ),
    {
        let st = match self.get_node(start) {
            Some(i) => i,
            None => {
                return Vec::new();
            },
        };
        proof {
            lemma_path_index(self.nodes(), start@, st as int);
        }
        let start_node = self.node_at(st);
        let mut results: Vec<LineageNode> = Vec::new();
        results.push(
            LineageNode {
                path: start.to_owned(),
                title: start_node.title.clone(),
                depth: 0,
                edge_type: edge_type.to_owned(),
                direction: "start".to_owned(),
            },
        );
        let ghost first = results[0];
        let dl = str_to_lowercase(direction);
        proof {
            reveal_strlit("outgoing");
            reveal_strlit("incoming");
            reveal_strlit("both");
        }
        let fwd = crate::text::str_eq(dl.as_str(), "outgoing") || crate::text::str_eq(dl.as_str(), "both");
        let bwd = crate::text::str_eq(dl.as_str(), "incoming") || crate::text::str_eq(dl.as_str(), "both");
        proof {
            assert((fwd, bwd) == allowed_directions(direction@));
            assert(results@.skip(1) == Seq::<LineageNode>::empty());
        }
        if max_depth == 0 {
            return results;
        }
        let ghost step = lineage_step(self.edges(), edge_type@, fwd, bwd);
        let tc = str_chars(edge_type);
        let ty_lower = chars_ascii_lower(tc.as_slice());
        let n = self.node_count();
        let mut visited = all_false(n);
        visited.set(st, true);
        let mut frontier: Vec<usize> = Vec::new();
        frontier.push(st);
        let mut depth: usize = 0;
        proof {
            assert(reach(step, st as nat, 0) == set![st as nat]);
            assert forall|v: nat| at_distance(step, st as nat, v, 0) implies #[trigger] frontier@.contains(v as usize) by {
                assert(frontier[0] == st);
            }
        }
        while depth < max_depth && frontier.len() > 0
            invariant
                self.wf(),
                n == self.nodes().len(),
                st < n,
                ty_lower@ == ascii_lower_seq(edge_type@),
                step == lineage_step(self.edges(), edge_type@, fwd, bwd),
                depth <= max_depth,
                visited.len() == n,
                forall|v: nat| v < n ==> (#[trigger] visited[v as int] <==> reach(step, st as nat, depth as nat).contains(v)),
                forall|j: int| 0 <= j < frontier.len() ==> #[trigger] frontier[j] < n && at_distance(step, st as nat, frontier[j] as nat, depth as nat),
                forall|v: nat| #[trigger] at_distance(step, st as nat, v, depth as nat) ==> frontier@.contains(v as usize),
                results.len() >= 1,
                results[0] == first,
                lineage_listing(self.nodes(), self.edges(), edge_type@, fwd, bwd, st as nat, depth as nat, results@.skip(1)),
            decreases max_depth - depth,
        {
            let ghost rs0 = results@;
            let next = self.lineage_layer(st, depth, &frontier, edge_type, &ty_lower, fwd, bwd, &mut visited, &mut results);
            proof {
                let s0 = rs0.skip(1);
                let s1 = results@.skip(1);
                assert forall|k: int| 0 <= k < s0.len() implies #[trigger] s1[k] == s0[k] by {
                    assert(results[k + 1] == rs0[k + 1]);
                }
                assert forall|m: int| 0 <= m < next@.len() implies reports_step(self.nodes(), self.edges(), edge_type@, fwd, bwd,
                    st as nat, next@[m] as nat, #[trigger] s1[s0.len() + m]) && s1[s0.len() + m].depth == (depth + 1) as nat by {
                    assert(s1[s0.len() + m] == results@[rs0.len() + m]);
                }
                assert(results[0] == rs0[0]);
                lemma_lineage_extend(self.nodes(), self.edges(), edge_type@, fwd, bwd, st as nat, depth as nat, (depth + 1) as nat,
                    s0, next@, s1);
            }
            depth += 1;
            frontier = next;
        }
        proof {
            if depth < max_depth {
                assert forall|u: nat| !#[trigger] at_distance(step, st as nat, u, depth as nat) by {
                    if at_distance(step, st as nat, u, depth as nat) {
                        assert(frontier@.contains(u as usize));
                    }
                }
                lemma_lineage_saturate(self.nodes(), self.edges(), edge_type@, fwd, bwd, st as nat, depth as nat,
                    max_depth as nat, results@.skip(1));
            }
        }
        results
    }
}

} // verus!
