//! The decisions of a graph pattern match, between the traversals that run on the store:
//! the clamped result limit and depth cap, the hop bounds of each step, the extension of
//! partial paths by the nodes a traversal step reached (kept where they pass the next node
//! pattern), and the terminal paths kept for an anchor (those that pass the `where` filter,
//! until the result limit is reached).
use vstd::prelude::*;

use crate::query::{EdgePattern, NodePattern, QueryDirection};
use crate::query_filter::{eval_where_filter, matches_node_constraints, node_satisfies, where_holds};
use crate::skeleton::push_chars;
use crate::text::{str_chars, string_from_chars};

verus! {

/// A partial match: the node reached, the hops taken from the anchor, and the path text.
#[derive(Debug, Clone)]
pub struct PathState {
    /// The node reached.
    pub node: String,
    /// Hops taken from the anchor.
    pub depth: usize,
    /// The path text, e.g. `a -> b <- c`.
    pub path: String,
}

impl PathState {
    /// The state as plain values.
    pub open spec fn view_t(&self) -> (Seq<char>, nat, Seq<char>) {
        (self.node@, self.depth as nat, self.path@)
    }
}

/// States as plain values.
pub open spec fn states_view(s: Seq<PathState>) -> Seq<(Seq<char>, nat, Seq<char>)> {
    s.map_values(|p: PathState| p.view_t())
}

/// Traversal hits (node reached, hops) as plain values.
pub open spec fn hits_view(s: Seq<(String, usize)>) -> Seq<(Seq<char>, nat)> {
    s.map_values(|h: (String, usize)| (h.0@, h.1 as nat))
}

/// The hits of each current state as plain values.
pub open spec fn all_hits_view(s: Seq<Vec<(String, usize)>>) -> Seq<Seq<(Seq<char>, nat)>> {
    s.map_values(|h: Vec<(String, usize)>| hits_view(h@))
}

/// `x` brought into `lo..=hi`.
pub open spec fn clamped(x: int, lo: int, hi: int) -> int {
    if x < lo {
        lo
    } else if x > hi {
        hi
    } else {
        x
    }
}

/// The result limit, into `1..=100`, and the depth cap, into `1..=5`.
pub fn match_limits(limit: usize, depth_cap: usize) -> (r: (usize, usize))
    ensures
        r.0 == clamped(limit as int, 1, 100),
        r.1 == clamped(depth_cap as int, 1, 5),
{
    let l = if limit < 1 {
        1
    } else if limit > 100 {
        100
    } else {
        limit
    };
    let d = if depth_cap < 1 {
        1
    } else if depth_cap > 5 {
        5
    } else {
        depth_cap
    };
    (l, d)
}

/// The hop bounds of a step: at least one hop, at most the pattern's maximum and the cap.
pub fn step_hops(edge: &EdgePattern, depth_cap: usize) -> (r: (usize, usize))
    ensures
        r.0 == (if edge.min_hops < 1 { 1 } else { edge.min_hops }),
        r.1 == (if edge.max_hops < depth_cap { edge.max_hops } else { depth_cap }),
{
    let lo = if edge.min_hops < 1 {
        1
    } else {
        edge.min_hops
    };
    let hi = if edge.max_hops < depth_cap {
        edge.max_hops
    } else {
        depth_cap
    };
    (lo, hi)
}

/// The arrow that a step in direction `d` writes in a path text.
pub open spec fn dir_symbol(d: QueryDirection) -> Seq<char> {
    match d {
        QueryDirection::Outgoing => seq!['-', '>'],
        QueryDirection::Incoming => seq!['<', '-'],
        QueryDirection::Undirected => seq!['-', '-'],
    }
}

/// A path text extended by a step to `target`: `path dir target`.
pub open spec fn extended_path(path: Seq<char>, d: QueryDirection, target: Seq<char>) -> Seq<char> {
    path + seq![' '] + dir_symbol(d) + seq![' '] + target
}

/// The states that a step from `cur` reaches through its hits, in order, keeping the hits
/// whose node passes the next node pattern's properties.
pub open spec fn step_from(
    cur: (Seq<char>, nat, Seq<char>),
    hits: Seq<(Seq<char>, nat)>,
    d: QueryDirection,
    props: Map<Seq<char>, Seq<char>>,
) -> Seq<(Seq<char>, nat, Seq<char>)>
    decreases hits.len(),
{
    if hits.len() == 0 {
        Seq::empty()
    } else {
        let h = hits.last();
        step_from(cur, hits.drop_last(), d, props) + if node_satisfies(h.0, props) {
            seq![(h.0, cur.1 + h.1, extended_path(cur.2, d, h.0))]
        } else {
            Seq::empty()
        }
    }
}

/// The states reached from each of `curs` through its hits, state after state.
pub open spec fn expand_all(
    curs: Seq<(Seq<char>, nat, Seq<char>)>,
    hits: Seq<Seq<(Seq<char>, nat)>>,
    d: QueryDirection,
    props: Map<Seq<char>, Seq<char>>,
) -> Seq<(Seq<char>, nat, Seq<char>)>
    decreases curs.len(),
{
    if curs.len() == 0 || hits.len() == 0 {
        Seq::empty()
    } else {
        expand_all(curs.drop_last(), hits.drop_last(), d, props) + step_from(curs.last(), hits.last(), d, props)
    }
}

/// A step from a state whose depth lies in `a..=b`, through hits of `lo..=hi` hops, reaches
/// only states whose depth lies in `a + lo..=b + hi`.
pub proof fn law_step_depths(
    cur: (Seq<char>, nat, Seq<char>),
    hits: Seq<(Seq<char>, nat)>,
    d: QueryDirection,
    props: Map<Seq<char>, Seq<char>>,
    a: nat,
    b: nat,
    lo: nat,
    hi: nat,
)
    requires
        a <= cur.1 <= b,
        forall|k: int| 0 <= k < hits.len() ==> lo <= (#[trigger] hits[k]).1 <= hi,
    ensures
        forall|j: int| 0 <= j < step_from(cur, hits, d, props).len() ==> a + lo <= (#[trigger] step_from(cur, hits, d, props)[j]).1 <= b
            + hi,
    decreases hits.len(),
{
    if hits.len() > 0 {
        let h = hits.drop_last();
        assert forall|k: int| 0 <= k < h.len() implies lo <= (#[trigger] h[k]).1 <= hi by {
            assert(h[k] == hits[k]);
        }
        law_step_depths(cur, h, d, props, a, b, lo, hi);
        let hl = hits.last();
        assert(lo <= hits[hits.len() - 1].1 <= hi);
        let e1 = step_from(cur, h, d, props);
        let e2: Seq<(Seq<char>, nat, Seq<char>)> = if node_satisfies(hl.0, props) {
            seq![(hl.0, cur.1 + hl.1, extended_path(cur.2, d, hl.0))]
        } else {
            Seq::empty()
        };
        assert(step_from(cur, hits, d, props) == e1 + e2);
        assert forall|j: int| 0 <= j < (e1 + e2).len() implies a + lo <= (#[trigger] (e1 + e2)[j]).1 <= b + hi by {
            if j < e1.len() {
                assert((e1 + e2)[j] == e1[j]);
            } else {
                assert((e1 + e2)[j] == e2[j - e1.len()]);
            }
        }
    }
}

/// Expanding states whose depths lie in `a..=b` by hits of `lo..=hi` hops gives only
/// states whose depths lie in `a + lo..=b + hi`; step after step, a match's depth is thus
/// bounded by the sums of the steps' hop bounds.
pub proof fn law_expand_depths(
    curs: Seq<(Seq<char>, nat, Seq<char>)>,
    hits: Seq<Seq<(Seq<char>, nat)>>,
    d: QueryDirection,
    props: Map<Seq<char>, Seq<char>>,
    a: nat,
    b: nat,
    lo: nat,
    hi: nat,
)
    requires
        forall|i: int| 0 <= i < curs.len() ==> a <= (#[trigger] curs[i]).1 <= b,
        forall|i: int, k: int| 0 <= i < hits.len() && 0 <= k < hits[i].len() ==> lo <= (#[trigger] hits[i][k]).1 <= hi,
    ensures
        forall|j: int| 0 <= j < expand_all(curs, hits, d, props).len() ==> a + lo <= (#[trigger] expand_all(curs, hits, d, props)[j]).1
            <= b + hi,
    decreases curs.len(),
{
    if curs.len() > 0 && hits.len() > 0 {
        let c = curs.drop_last();
        let h = hits.drop_last();
        assert forall|i: int| 0 <= i < c.len() implies a <= (#[trigger] c[i]).1 <= b by {
            assert(c[i] == curs[i]);
        }
        assert forall|i: int, k: int| 0 <= i < h.len() && 0 <= k < h[i].len() implies lo <= (#[trigger] h[i][k]).1 <= hi by {
            assert(h[i] == hits[i]);
        }
        law_expand_depths(c, h, d, props, a, b, lo, hi);
        let last = hits[hits.len() - 1];
        assert forall|k: int| 0 <= k < last.len() implies lo <= (#[trigger] last[k]).1 <= hi by {
            assert(lo <= hits[hits.len() - 1][k].1 <= hi);
        }
        assert(a <= curs[curs.len() - 1].1 <= b);
        law_step_depths(curs.last(), last, d, props, a, b, lo, hi);
        let e1 = expand_all(c, h, d, props);
        let e2 = step_from(curs.last(), last, d, props);
        assert forall|j: int| 0 <= j < (e1 + e2).len() implies a + lo <= (#[trigger] (e1 + e2)[j]).1 <= b + hi by {
            if j < e1.len() {
                assert((e1 + e2)[j] == e1[j]);
            } else {
                assert((e1 + e2)[j] == e2[j - e1.len()]);
            }
        }
    }
}

/// The path text of a step from `path` to `target`.
fn extend_path(path: &str, d: QueryDirection, target: &str) -> (r: String)
    ensures
        r@ == extended_path(path@, d, target@),
{
    let p = str_chars(path);
    let t = str_chars(target);
    let mut out: Vec<char> = Vec::new();
    push_chars(&mut out, p.as_slice());
    out.push(' ');
    match d {
        QueryDirection::Outgoing => {
            out.push('-');
            out.push('>');
        },
        QueryDirection::Incoming => {
            out.push('<');
            out.push('-');
        },
        QueryDirection::Undirected => {
            out.push('-');
            out.push('-');
        },
    }
    out.push(' ');
    push_chars(&mut out, t.as_slice());
    assert(out@ =~= extended_path(path@, d, target@));
    string_from_chars(out.as_slice())
}

/// Extends each current state by the hits a traversal step found from its node: a hit whose
/// node passes `next` becomes a state at that node, its hops added to the state's depth and
/// the step written into its path text.
pub fn expand_step(current: &[PathState], hits: &[Vec<(String, usize)>], direction: QueryDirection, next: &NodePattern) -> (r: Vec<
    PathState,
>)
    requires
        current.len() == hits.len(),
        next.wf(),
        forall|i: int, k: int| 0 <= i < current.len() && 0 <= k < hits[i].len() ==> current[i].depth + (#[trigger] hits[i][k]).1 <= usize::MAX,
    ensures
        states_view(r@) == expand_all(states_view(current@), all_hits_view(hits@), direction, next.properties@),
{
    let ghost cv = states_view(current@);
    let ghost hv = all_hits_view(hits@);
    let ghost props = next.properties@;
    let mut out: Vec<PathState> = Vec::new();
    let mut i: usize = 0;
    while i < current.len()
        invariant
            i <= current.len(),
            current.len() == hits.len(),
            next.wf(),
            props == next.properties@,
            cv == states_view(current@),
            hv == all_hits_view(hits@),
            forall|i: int, k: int| 0 <= i < current.len() && 0 <= k < hits[i].len() ==> current[i].depth + (#[trigger] hits[i][k]).1
                <= usize::MAX,
            states_view(out@) == expand_all(cv.take(i as int), hv.take(i as int), direction, props),
        decreases current.len() - i,
    {
        let cur = &current[i];
        let row = &hits[i];
        let ghost out0 = states_view(out@);
        let ghost rv = hits_view(row@);
        let mut k: usize = 0;
        while k < row.len()
            invariant
                k <= row.len(),
                i < current.len(),
                cur == &current[i as int],
                row == &hits[i as int],
                rv == hits_view(row@),
                next.wf(),
                props == next.properties@,
                forall|k: int| 0 <= k < row.len() ==> cur.depth + (#[trigger] row[k]).1 <= usize::MAX,
                states_view(out@) == out0 + step_from(cur.view_t(), rv.take(k as int), direction, props),
            decreases row.len() - k,
        {
            let ghost before = states_view(out@);
            let target = &row[k].0;
            let delta = row[k].1;
            if matches_node_constraints(target.as_str(), next) {
                let st = PathState {
                    node: target.clone(),
                    depth: cur.depth + delta,
                    path: extend_path(cur.path.as_str(), direction, target.as_str()),
                };
                out.push(st);
                assert(states_view(out@) =~= before.push(st.view_t()));
            }
            assert(rv.take(k + 1).drop_last() =~= rv.take(k as int));
            assert(rv.take(k + 1).last() == rv[k as int]);
            k += 1;
        }
        assert(rv.take(row.len() as int) =~= rv);
        assert(cv.take(i + 1).drop_last() =~= cv.take(i as int));
        assert(hv.take(i + 1).drop_last() =~= hv.take(i as int));
        assert(cv.take(i + 1).last() == cur.view_t());
        assert(hv.take(i + 1).last() == rv);
        i += 1;
    }
    assert(cv.take(current.len() as int) =~= cv);
    assert(hv.take(current.len() as int) =~= hv);
    out
}

/// A terminal node passes the `where` filter, where there is one.
pub open spec fn passes_where(node: Seq<char>, filter: Option<Seq<char>>) -> bool {
    match filter {
        Some(f) => where_holds(node, f),
        None => true,
    }
}

/// The terminal states that pass the `where` filter, in order.
pub open spec fn passing(terms: Seq<(Seq<char>, nat, Seq<char>)>, filter: Option<Seq<char>>) -> Seq<(Seq<char>, nat, Seq<char>)>
    decreases terms.len(),
{
    if terms.len() == 0 {
        Seq::empty()
    } else {
        passing(terms.drop_last(), filter) + if passes_where(terms.last().0, filter) {
            seq![terms.last()]
        } else {
            Seq::empty()
        }
    }
}

/// The first `n` of `s`, or all of it where it is shorter.
pub open spec fn first_at_most<A>(s: Seq<A>, n: nat) -> Seq<A> {
    if s.len() <= n {
        s
    } else {
        s.take(n as int)
    }
}

/// The matches an anchor adds: its terminal states that pass the `where` filter, in order,
/// until `room` more matches are reached.
pub fn collect_matches(terminals: &[PathState], where_filter: Option<&str>, room: usize) -> (r: Vec<PathState>)
    ensures
        states_view(r@) == first_at_most(
            passing(states_view(terminals@), (match where_filter {
                Some(f) => Some(f@),
                None => None,
            })),
            room as nat,
        ),
        r.len() <= room,
{
    let ghost tv = states_view(terminals@);
    let ghost f: Option<Seq<char>> = match where_filter {
        Some(x) => Some(x@),
        None => None,
    };
    let mut out: Vec<PathState> = Vec::new();
    let mut i: usize = 0;
    while i < terminals.len()
        invariant
            i <= terminals.len(),
            tv == states_view(terminals@),
            f == (match where_filter {
                Some(x) => Some(x@),
                None => None,
            }),
            states_view(out@) == first_at_most(passing(tv.take(i as int), f), room as nat),
        decreases terminals.len() - i,
    {
        let ghost before = states_view(out@);
        let ghost p0 = passing(tv.take(i as int), f);
        let t = &terminals[i];
        let pass = match where_filter {
            Some(w) => eval_where_filter(t.node.as_str(), w),
            None => true,
        };
        if pass && out.len() < room {
            let st = PathState { node: t.node.clone(), depth: t.depth, path: t.path.clone() };
            out.push(st);
            assert(states_view(out@) =~= before.push(st.view_t()));
        }
        assert(tv.take(i + 1).drop_last() =~= tv.take(i as int));
        assert(tv.take(i + 1).last() == t.view_t());
        proof {
            let p1 = passing(tv.take(i + 1), f);
            if pass {
                assert(p1 =~= p0.push(t.view_t()));
                if p0.len() < room {
                    assert(first_at_most(p1, room as nat) =~= first_at_most(p0, room as nat).push(t.view_t()));
                } else {
                    assert(first_at_most(p1, room as nat) =~= first_at_most(p0, room as nat));
                }
            } else {
                assert(p1 =~= p0);
            }
        }
        i += 1;
    }
    assert(tv.take(terminals.len() as int) =~= tv);
    assert(states_view(out@).len() == out.len());
    out
}

} // verus!
