//! Lineage annotations of a note: the notes it supersedes, implements, depends on, is the
//! ADR for or is the parent of, and those that do so to it, plus its other structural links
//! by edge type; every list sorted and free of duplicates.
use vstd::prelude::*;

use crate::graph::{has_path, incident_in, lemma_path_index, path_index, EdgeClass, EdgeData, EdgeView, KnowledgeGraph, NodeView};
use crate::order::{insert_sorted, lemma_lt_total, lemma_lt_transitive, seq_lt, sorted_distinct, string_lt, views};
use crate::text::{str_to_lowercase, unicode_lowercase};

verus! {

/// Lineage annotation of a note.
#[derive(Debug, Clone)]
pub struct LineageAnnotation {
    /// Notes this note supersedes.
    pub supersedes: Vec<String>,
    /// Notes that supersede this note.
    pub superseded_by: Vec<String>,
    /// Notes this note implements.
    pub implements: Vec<String>,
    /// Notes that implement this note.
    pub implemented_by: Vec<String>,
    /// Notes this note depends on.
    pub depends_on: Vec<String>,
    /// Notes that depend on this note.
    pub depended_on_by: Vec<String>,
    /// Notes this ADR is for.
    pub adr_for: Vec<String>,
    /// ADRs for this note.
    pub has_adr: Vec<String>,
    /// Notes this note is the parent of.
    pub parent_of: Vec<String>,
    /// Parents of this note.
    pub child_of: Vec<String>,
    /// Other structural links into this note, by edge type.
    pub incoming: Vec<(String, Vec<String>)>,
    /// Other structural links out of this note, by edge type.
    pub outgoing: Vec<(String, Vec<String>)>,
}

/// The lineage relation an edge type names, compared lower-cased: supersedes (0), implements
/// (1), depends on (2), ADR for (3), parent of (4); any other type gives 5.
pub open spec fn lineage_kind(lower: Seq<char>) -> nat {
    if lower == "supersedes"@ {
        0
    } else if lower == "implements"@ {
        1
    } else if lower == "depends_on"@ || lower == "dependson"@ || lower == "depends-on"@ {
        2
    } else if lower == "adr_for"@ || lower == "adrfor"@ || lower == "adr-for"@ {
        3
    } else if lower == "parent_of"@ || lower == "parentof"@ || lower == "parent-of"@ {
        4
    } else {
        5
    }
}

/// The lineage relation of an edge's data.
pub open spec fn kind_of(d: EdgeData) -> nat {
    lineage_kind(unicode_lowercase(d.0))
}

/// The far end of edge `e` seen from its near end.
pub open spec fn far(es: Seq<EdgeView>, e: int, outgoing: bool) -> nat {
    if outgoing { es[e].1 } else { es[e].0 }
}

/// An edge of relation `kind` (for `kind < 5`), or a structural edge of another relation with
/// type `ty` (for `kind == 5`).
pub open spec fn selects(d: EdgeData, kind: nat, ty: Seq<char>) -> bool {
    if kind < 5 {
        kind_of(d) == kind
    } else {
        kind_of(d) == 5 && d.3 == EdgeClass::StructuralLink && d.0 == ty
    }
}

/// The paths at the far ends of the edges of node `v` in a direction that `selects` picks.
pub open spec fn linked_paths(ns: Seq<NodeView>, es: Seq<EdgeView>, v: nat, outgoing: bool, kind: nat, ty: Seq<char>) -> Set<Seq<char>> {
    Set::new(
        |p: Seq<char>|
            exists|e: int| 0 <= e < es.len() && incident_in(es, e, v, outgoing) && selects(es[e].2, kind, ty) && #[trigger] ns[far(es, e, outgoing) as int].0 == p,
    )
}

/// The types of the structural edges of node `v` in a direction that name no lineage relation.
pub open spec fn other_types(es: Seq<EdgeView>, v: nat, outgoing: bool) -> Set<Seq<char>> {
    Set::new(
        |t: Seq<char>| exists|e: int| 0 <= e < es.len() && incident_in(es, e, v, outgoing) && #[trigger] selects(es[e].2, 5, t),
    )
}

/// `list` is the sorted, duplicate-free list of `set`.
pub open spec fn lists_sorted(list: Seq<String>, set: Set<Seq<char>>) -> bool {
    sorted_distinct(views(list)) && views(list).to_set() == set
}

/// `gs` lists the other structural edge types of node `v` in a direction, sorted, each with
/// the sorted paths at the far ends of its edges.
pub open spec fn groups_sorted(ns: Seq<NodeView>, es: Seq<EdgeView>, v: nat, outgoing: bool, gs: Seq<(String, Vec<String>)>) -> bool {
    &&& sorted_distinct(gs.map_values(|g: (String, Vec<String>)| g.0@))
    &&& gs.map_values(|g: (String, Vec<String>)| g.0@).to_set() == other_types(es, v, outgoing)
    &&& forall|g: int| 0 <= g < gs.len() ==> lists_sorted(#[trigger] gs[g].1@, linked_paths(ns, es, v, outgoing, 5, gs[g].0@))
}

/// One direction of an annotation: the five relation lists and the other groups.
pub open spec fn direction_annotated(
    ns: Seq<NodeView>,
    es: Seq<EdgeView>,
    v: nat,
    outgoing: bool,
    lists: Seq<Vec<String>>,
    gs: Seq<(String, Vec<String>)>,
) -> bool {
    &&& lists.len() == 5
    &&& forall|c: int| 0 <= c < 5 ==> lists_sorted(#[trigger] lists[c]@, linked_paths(ns, es, v, outgoing, c as nat, Seq::empty()))
    &&& groups_sorted(ns, es, v, outgoing, gs)
}

/// The relation of a lower-cased edge type.
fn lineage_kind_exec(lower: &String) -> (k: usize)
    ensures
        k == lineage_kind(lower@),
{
    let s = lower.as_str();
    if crate::text::str_eq(s, "supersedes") {
        0
    } else if crate::text::str_eq(s, "implements") {
        1
    } else if crate::text::str_eq(s, "depends_on") || crate::text::str_eq(s, "dependson") || crate::text::str_eq(s, "depends-on") {
        2
    } else if crate::text::str_eq(s, "adr_for") || crate::text::str_eq(s, "adrfor") || crate::text::str_eq(s, "adr-for") {
        3
    } else if crate::text::str_eq(s, "parent_of") || crate::text::str_eq(s, "parentof") || crate::text::str_eq(s, "parent-of") {
        4
    } else {
        5
    }
}

/// Adds `p` to the group of type `t`, making the group if it is new; keys stay sorted.
fn insert_group(gs: &mut Vec<(String, Vec<String>)>, t: String, p: String)
    requires
        sorted_distinct(old(gs)@.map_values(|g: (String, Vec<String>)| g.0@)),
        forall|g: int| 0 <= g < old(gs).len() ==> sorted_distinct(views(#[trigger] old(gs)[g].1@)),
    ensures
        sorted_distinct(final(gs)@.map_values(|g: (String, Vec<String>)| g.0@)),
        final(gs)@.map_values(|g: (String, Vec<String>)| g.0@).to_set() == old(gs)@.map_values(
            |g: (String, Vec<String>)| g.0@,
        ).to_set().insert(t@),
        forall|g: int| 0 <= g < final(gs).len() ==> sorted_distinct(views(#[trigger] final(gs)[g].1@)),
        forall|g: int| 0 <= g < final(gs).len() ==> views((#[trigger] final(gs)[g]).1@).to_set() == if final(gs)[g].0@ == t@ {
            group_set(old(gs)@, t@).insert(p@)
        } else {
            group_set(old(gs)@, final(gs)[g].0@)
        },
{
    let ghost g0 = gs@;
    let ghost k0 = g0.map_values(|g: (String, Vec<String>)| g.0@);
    let mut i: usize = 0;
    while i < gs.len() && string_lt(&gs[i].0, &t)
        invariant
            i <= gs.len(),
            g0 == gs@,
            k0 == g0.map_values(|g: (String, Vec<String>)| g.0@),
            forall|j: int| 0 <= j < i ==> seq_lt(#[trigger] k0[j], t@),
        decreases gs.len() - i,
    {
        assert(k0[i as int] == gs@[i as int].0@);
        i += 1;
    }
    if i < gs.len() && crate::text::string_eq(&gs[i].0, &t) {
        let mut list = gs[i].1.clone();
        let name = gs[i].0.clone();
        insert_sorted(&mut list, p);
        let ghost newg = (name, list);
        gs.set(i, (name, list));
        proof {
            assert(k0[i as int] == t@);
            lemma_group_set_at(g0, i as int);
            assert(gs@.map_values(|g: (String, Vec<String>)| g.0@) =~= k0);
            assert(k0.to_set().insert(t@) =~= k0.to_set());
            assert forall|g: int| 0 <= g < gs.len() implies views((#[trigger] gs[g]).1@).to_set() == if gs[g].0@ == t@ {
                group_set(g0, t@).insert(p@)
            } else {
                group_set(g0, gs[g].0@)
            } by {
                if g != i {
                    assert(gs@[g] == g0[g]);
                    lemma_group_set_at(g0, g);
                    if gs[g].0@ == t@ {
                        assert(k0[g] == k0[i as int]);
                    }
                }
            }
        }
        return;
    }
    let mut list: Vec<String> = Vec::new();
    proof {
        if i < gs.len() {
            lemma_lt_total(k0[i as int], t@);
        }
        assert forall|j: int| 0 <= j < k0.len() implies #[trigger] k0[j] != t@ by {
            if j < i {
                lemma_lt_irreflexive_local(k0[j], t@);
            } else if j > i {
                lemma_lt_transitive(t@, k0[i as int], k0[j]);
                lemma_lt_irreflexive_local(t@, k0[j]);
            }
        }
        assert(!k0.contains(t@));
        assert(group_set(g0, t@) =~= Set::<Seq<char>>::empty()) by {
            lemma_group_set_absent(g0, t@);
        }
        assert(views(list@) =~= Seq::<Seq<char>>::empty());
    }
    let ghost tv = t@;
    insert_sorted(&mut list, p);
    gs.insert(i, (t, list));
    proof {
        let k1 = gs@.map_values(|g: (String, Vec<String>)| g.0@);
        assert(k1 =~= k0.insert(i as int, tv));
        assert forall|a: int, b: int| 0 <= a < b < k1.len() implies seq_lt(#[trigger] k1[a], #[trigger] k1[b]) by {
            if b < i {
                assert(k1[a] == k0[a] && k1[b] == k0[b]);
            } else if b == i {
                assert(k1[a] == k0[a]);
            } else if a == i {
                assert(k1[b] == k0[b - 1]);
                if b - 1 > i {
                    lemma_lt_transitive(tv, k0[i as int], k0[b - 1]);
                }
            } else if a < i {
                assert(k1[a] == k0[a] && k1[b] == k0[b - 1]);
            } else {
                assert(k1[a] == k0[a - 1] && k1[b] == k0[b - 1]);
            }
        }
        assert(k1.to_set() =~= k0.to_set().insert(tv)) by {
            assert forall|y: Seq<char>| k1.to_set().contains(y) implies k0.to_set().insert(tv).contains(y) by {
                let k = choose|k: int| 0 <= k < k1.len() && k1[k] == y;
                if k < i {
                    assert(k0[k] == y);
                } else if k > i {
                    assert(k0[k - 1] == y);
                }
            }
            assert forall|y: Seq<char>| k0.to_set().insert(tv).contains(y) implies k1.to_set().contains(y) by {
                if y == tv {
                    assert(k1[i as int] == y);
                } else {
                    let k = choose|k: int| 0 <= k < k0.len() && k0[k] == y;
                    if k < i {
                        assert(k1[k] == y);
                    } else {
                        assert(k1[k + 1] == y);
                    }
                }
            }
        }
        assert forall|g: int| 0 <= g < gs.len() implies sorted_distinct(views(#[trigger] gs[g].1@)) by {
            if g < i {
                assert(gs@[g] == g0[g]);
            } else if g > i {
                assert(gs@[g] == g0[g - 1]);
            }
        }
        assert forall|g: int| 0 <= g < gs.len() implies views((#[trigger] gs[g]).1@).to_set() == if gs[g].0@ == tv {
            group_set(g0, tv).insert(p@)
        } else {
            group_set(g0, gs[g].0@)
        } by {
            if g < i {
                assert(gs@[g] == g0[g]);
                lemma_group_set_at(g0, g);
                assert(k0[g] != tv) by {
                    lemma_lt_irreflexive_local(k0[g], tv);
                }
            } else if g > i {
                assert(gs@[g] == g0[g - 1]);
                lemma_group_set_at(g0, g - 1);
                if gs[g].0@ == tv {
                    assert(k1[i as int] == k1[g]);
                    crate::order::lemma_lt_irreflexive(tv);
                }
            } else {
                assert(views(gs[g].1@).to_set() =~= Set::<Seq<char>>::empty().insert(p@));
            }
        }
    }
}

proof fn lemma_lt_irreflexive_local(a: Seq<char>, b: Seq<char>)
    requires
        seq_lt(a, b),
    ensures
        a != b,
{
    if a == b {
        crate::order::lemma_lt_irreflexive(a);
    }
}

/// The set of paths in the group of type `t`, or none.
pub open spec fn group_set(gs: Seq<(String, Vec<String>)>, t: Seq<char>) -> Set<Seq<char>> {
    Set::new(|p: Seq<char>| exists|g: int| 0 <= g < gs.len() && gs[g].0@ == t && #[trigger] views(gs[g].1@).contains(p))
}

proof fn lemma_group_set_at(gs: Seq<(String, Vec<String>)>, i: int)
    requires
        0 <= i < gs.len(),
        sorted_distinct(gs.map_values(|g: (String, Vec<String>)| g.0@)),
    ensures
        group_set(gs, gs[i].0@) == views(gs[i].1@).to_set(),
{
    let ks = gs.map_values(|g: (String, Vec<String>)| g.0@);
    assert forall|p: Seq<char>| group_set(gs, gs[i].0@).contains(p) implies views(gs[i].1@).to_set().contains(p) by {
        let g = choose|g: int| 0 <= g < gs.len() && gs[g].0@ == gs[i].0@ && #[trigger] views(gs[g].1@).contains(p);
        if g != i {
            assert(ks[g] == ks[i]);
            if g < i {
                assert(seq_lt(ks[g], ks[i]));
            } else {
                assert(seq_lt(ks[i], ks[g]));
            }
            crate::order::lemma_lt_irreflexive(ks[i]);
        }
    }
    assert forall|p: Seq<char>| views(gs[i].1@).to_set().contains(p) implies group_set(gs, gs[i].0@).contains(p) by {
        assert(views(gs[i].1@).contains(p));
    }
    assert(group_set(gs, gs[i].0@) =~= views(gs[i].1@).to_set());
}

proof fn lemma_group_set_absent(gs: Seq<(String, Vec<String>)>, t: Seq<char>)
    requires
        !gs.map_values(|g: (String, Vec<String>)| g.0@).contains(t),
    ensures
        group_set(gs, t) == Set::<Seq<char>>::empty(),
{
    assert forall|p: Seq<char>| !group_set(gs, t).contains(p) by {
        if group_set(gs, t).contains(p) {
            let g = choose|g: int| 0 <= g < gs.len() && gs[g].0@ == t && #[trigger] views(gs[g].1@).contains(p);
            assert(gs.map_values(|g: (String, Vec<String>)| g.0@)[g] == t);
        }
    }
    assert(group_set(gs, t) =~= Set::<Seq<char>>::empty());
}

/// The far end of an entry `(edge, source, target)` of an edge list.
pub open spec fn far_entry(t: (usize, usize, usize), outgoing: bool) -> nat {
    if outgoing { t.2 as nat } else { t.1 as nat }
}

/// The paths at the far ends of the first `j` listed edges that `selects` picks.
pub open spec fn prefix_paths(
    ns: Seq<NodeView>,
    es: Seq<EdgeView>,
    lst: Seq<(usize, usize, usize)>,
    j: int,
    outgoing: bool,
    kind: nat,
    ty: Seq<char>,
) -> Set<Seq<char>> {
    Set::new(
        |p: Seq<char>|
            exists|k: int| 0 <= k < j && selects(es[lst[k].0 as int].2, kind, ty) && #[trigger] ns[far_entry(lst[k], outgoing) as int].0 == p,
    )
}

/// The other structural types among the first `j` listed edges.
pub open spec fn prefix_types(es: Seq<EdgeView>, lst: Seq<(usize, usize, usize)>, j: int) -> Set<Seq<char>> {
    Set::new(|t: Seq<char>| exists|k: int| 0 <= k < j && #[trigger] selects(es[lst[k].0 as int].2, 5, t))
}

proof fn lemma_prefix_paths_step(
    ns: Seq<NodeView>,
    es: Seq<EdgeView>,
    lst: Seq<(usize, usize, usize)>,
    j: int,
    outgoing: bool,
    kind: nat,
    ty: Seq<char>,
)
    requires
        0 <= j < lst.len(),
    ensures
        prefix_paths(ns, es, lst, j + 1, outgoing, kind, ty) == if selects(es[lst[j].0 as int].2, kind, ty) {
            prefix_paths(ns, es, lst, j, outgoing, kind, ty).insert(ns[far_entry(lst[j], outgoing) as int].0)
        } else {
            prefix_paths(ns, es, lst, j, outgoing, kind, ty)
        },
{
    let a = prefix_paths(ns, es, lst, j + 1, outgoing, kind, ty);
    let b = prefix_paths(ns, es, lst, j, outgoing, kind, ty);
    let x = ns[far_entry(lst[j], outgoing) as int].0;
    if selects(es[lst[j].0 as int].2, kind, ty) {
        assert forall|p: Seq<char>| a.contains(p) <==> b.insert(x).contains(p) by {
            if a.contains(p) {
                let k = choose|k: int| 0 <= k < j + 1 && selects(es[lst[k].0 as int].2, kind, ty) && #[trigger] ns[far_entry(lst[k], outgoing) as int].0 == p;
                if k < j {
                    assert(b.contains(p));
                }
            }
            if b.contains(p) {
                let k = choose|k: int| 0 <= k < j && selects(es[lst[k].0 as int].2, kind, ty) && #[trigger] ns[far_entry(lst[k], outgoing) as int].0 == p;
                assert(0 <= k < j + 1);
            }
        }
        assert(a =~= b.insert(x));
    } else {
        assert forall|p: Seq<char>| a.contains(p) <==> b.contains(p) by {
            if a.contains(p) {
                let k = choose|k: int| 0 <= k < j + 1 && selects(es[lst[k].0 as int].2, kind, ty) && #[trigger] ns[far_entry(lst[k], outgoing) as int].0 == p;
                assert(k < j);
            }
            if b.contains(p) {
                let k = choose|k: int| 0 <= k < j && selects(es[lst[k].0 as int].2, kind, ty) && #[trigger] ns[far_entry(lst[k], outgoing) as int].0 == p;
                assert(0 <= k < j + 1);
            }
        }
        assert(a =~= b);
    }
}

proof fn lemma_prefix_types_step(es: Seq<EdgeView>, lst: Seq<(usize, usize, usize)>, j: int)
    requires
        0 <= j < lst.len(),
    ensures
        prefix_types(es, lst, j + 1) == if selects(es[lst[j].0 as int].2, 5, es[lst[j].0 as int].2.0) {
            prefix_types(es, lst, j).insert(es[lst[j].0 as int].2.0)
        } else {
            prefix_types(es, lst, j)
        },
{
    let a = prefix_types(es, lst, j + 1);
    let b = prefix_types(es, lst, j);
    let d = es[lst[j].0 as int].2;
    assert forall|t: Seq<char>| a.contains(t) <==> (if selects(d, 5, d.0) { b.insert(d.0) } else { b }).contains(t) by {
        if a.contains(t) {
            let k = choose|k: int| 0 <= k < j + 1 && #[trigger] selects(es[lst[k].0 as int].2, 5, t);
            if k < j {
                assert(b.contains(t));
            }
        }
        if b.contains(t) {
            let k = choose|k: int| 0 <= k < j && #[trigger] selects(es[lst[k].0 as int].2, 5, t);
            assert(0 <= k < j + 1);
        }
        if selects(d, 5, d.0) && t == d.0 {
            assert(selects(es[lst[j].0 as int].2, 5, t));
        }
    }
    if selects(d, 5, d.0) {
        assert(a =~= b.insert(d.0));
    } else {
        assert(a =~= b);
    }
}

/// Paths of a type not among the types so far: none yet.
proof fn lemma_prefix_paths_new_type(
    ns: Seq<NodeView>,
    es: Seq<EdgeView>,
    lst: Seq<(usize, usize, usize)>,
    j: int,
    outgoing: bool,
    ty: Seq<char>,
)
    requires
        !prefix_types(es, lst, j).contains(ty),
    ensures
        prefix_paths(ns, es, lst, j, outgoing, 5, ty) == Set::<Seq<char>>::empty(),
{
    assert forall|p: Seq<char>| !prefix_paths(ns, es, lst, j, outgoing, 5, ty).contains(p) by {
        if prefix_paths(ns, es, lst, j, outgoing, 5, ty).contains(p) {
            let k = choose|k: int| 0 <= k < j && selects(es[lst[k].0 as int].2, 5, ty) && #[trigger] ns[far_entry(lst[k], outgoing) as int].0 == p;
            assert(selects(es[lst[k].0 as int].2, 5, ty));
        }
    }
    assert(prefix_paths(ns, es, lst, j, outgoing, 5, ty) =~= Set::<Seq<char>>::empty());
}

/// A complete, exact list of the edges of `v` in a direction gives, over all its entries,
/// the linked paths and other types.
proof fn lemma_prefix_complete(
    ns: Seq<NodeView>,
    es: Seq<EdgeView>,
    lst: Seq<(usize, usize, usize)>,
    v: nat,
    outgoing: bool,
    kind: nat,
    ty: Seq<char>,
)
    requires
        forall|k: int| 0 <= k < lst.len() ==> {
            &&& #[trigger] lst[k].0 < es.len()
            &&& lst[k].1 == es[lst[k].0 as int].0
            &&& lst[k].2 == es[lst[k].0 as int].1
            &&& incident_in(es, lst[k].0 as int, v, outgoing)
        },
        forall|e: int| 0 <= e < es.len() && incident_in(es, e, v, outgoing) ==> exists|k: int| 0 <= k < lst.len() && #[trigger] lst[k].0 == e,
    ensures
        prefix_paths(ns, es, lst, lst.len() as int, outgoing, kind, ty) == linked_paths(ns, es, v, outgoing, kind, ty),
        prefix_types(es, lst, lst.len() as int) == other_types(es, v, outgoing),
{
    let n = lst.len() as int;
    assert forall|p: Seq<char>| prefix_paths(ns, es, lst, n, outgoing, kind, ty).contains(p) <==> linked_paths(ns, es, v, outgoing, kind, ty).contains(p) by {
        if prefix_paths(ns, es, lst, n, outgoing, kind, ty).contains(p) {
            let k = choose|k: int| 0 <= k < n && selects(es[lst[k].0 as int].2, kind, ty) && #[trigger] ns[far_entry(lst[k], outgoing) as int].0 == p;
            let e = lst[k].0 as int;
            assert(lst[k].0 < es.len());
            assert(far(es, e, outgoing) == far_entry(lst[k], outgoing));
            assert(ns[far(es, e, outgoing) as int].0 == p);
        }
        if linked_paths(ns, es, v, outgoing, kind, ty).contains(p) {
            let e = choose|e: int| 0 <= e < es.len() && incident_in(es, e, v, outgoing) && selects(es[e].2, kind, ty) && #[trigger] ns[far(es, e, outgoing) as int].0 == p;
            let k = choose|k: int| 0 <= k < lst.len() && #[trigger] lst[k].0 == e;
            assert(lst[k].0 < es.len());
            assert(far(es, e, outgoing) == far_entry(lst[k], outgoing));
            assert(ns[far_entry(lst[k], outgoing) as int].0 == p);
        }
    }
    assert(prefix_paths(ns, es, lst, n, outgoing, kind, ty) =~= linked_paths(ns, es, v, outgoing, kind, ty));
    assert forall|t: Seq<char>| prefix_types(es, lst, n).contains(t) <==> other_types(es, v, outgoing).contains(t) by {
        if prefix_types(es, lst, n).contains(t) {
            let k = choose|k: int| 0 <= k < n && #[trigger] selects(es[lst[k].0 as int].2, 5, t);
            assert(lst[k].0 < es.len());
            assert(selects(es[lst[k].0 as int].2, 5, t));
        }
        if other_types(es, v, outgoing).contains(t) {
            let e = choose|e: int| 0 <= e < es.len() && incident_in(es, e, v, outgoing) && #[trigger] selects(es[e].2, 5, t);
            let k = choose|k: int| 0 <= k < lst.len() && #[trigger] lst[k].0 == e;
            assert(lst[k].0 < es.len());
            assert(selects(es[lst[k].0 as int].2, 5, t));
        }
    }
    assert(prefix_types(es, lst, n) =~= other_types(es, v, outgoing));
}

/// The state of collecting one direction after the first `j` listed edges.
pub open spec fn collected(
    ns: Seq<NodeView>,
    es: Seq<EdgeView>,
    lst: Seq<(usize, usize, usize)>,
    j: int,
    outgoing: bool,
    lists: Seq<Vec<String>>,
    gs: Seq<(String, Vec<String>)>,
) -> bool {
    &&& lists.len() == 5
    &&& forall|c: int| 0 <= c < 5 ==> sorted_distinct(views(#[trigger] lists[c]@)) && views(lists[c]@).to_set() == prefix_paths(ns, es, lst, j, outgoing, c as nat, Seq::empty())
    &&& sorted_distinct(gs.map_values(|g: (String, Vec<String>)| g.0@))
    &&& gs.map_values(|g: (String, Vec<String>)| g.0@).to_set() == prefix_types(es, lst, j)
    &&& forall|g: int| 0 <= g < gs.len() ==> sorted_distinct(views(#[trigger] gs[g].1@)) && views(gs[g].1@).to_set() == prefix_paths(ns, es, lst, j, outgoing, 5, gs[g].0@)
}

impl KnowledgeGraph {
    /// The relation lists and other groups of node `v` in one direction.
    fn lineage_direction(&self, v: usize, outgoing: bool) -> (r: (Vec<Vec<String>>, Vec<(String, Vec<String>)>))
        requires
            self.wf(),
            v < self.nodes().len(),
        ensures
            direction_annotated(self.nodes(), self.edges(), v as nat, outgoing, r.0@, r.1@),
    {
        let ghost ns = self.nodes();
        let ghost es = self.edges();
        let lst = self.edges_at(v, outgoing);
        let mut lists: Vec<Vec<String>> = Vec::new();
        while lists.len() < 5
            invariant
                lists.len() <= 5,
                forall|c: int| 0 <= c < lists.len() ==> (#[trigger] lists[c]).len() == 0,
            decreases 5 - lists.len(),
        {
            lists.push(Vec::new());
        }
        let mut gs: Vec<(String, Vec<String>)> = Vec::new();
        proof {
            assert forall|c: int| 0 <= c < 5 implies sorted_distinct(views(#[trigger] lists[c]@)) && views(lists[c]@).to_set()
                == prefix_paths(ns, es, lst@, 0, outgoing, c as nat, Seq::empty()) by {
                assert(views(lists[c]@) =~= Seq::<Seq<char>>::empty());
                assert(prefix_paths(ns, es, lst@, 0, outgoing, c as nat, Seq::empty()) =~= Set::<Seq<char>>::empty());
            }
            assert(gs@.map_values(|g: (String, Vec<String>)| g.0@) =~= Seq::<Seq<char>>::empty());
            assert(prefix_types(es, lst@, 0) =~= Set::<Seq<char>>::empty());
            assert(gs@.map_values(|g: (String, Vec<String>)| g.0@).to_set() =~= Set::<Seq<char>>::empty());
            assert(lists.len() == 5);
            assert(collected(ns, es, lst@, 0, outgoing, lists@, gs@));
        }
        let mut j: usize = 0;
        while j < lst.len()
            invariant
                self.wf(),
                ns == self.nodes(),
                es == self.edges(),
                v < ns.len(),
                forall|k: int| 0 <= k < lst.len() ==> {
                    &&& #[trigger] lst[k].0 < es.len()
                    &&& lst[k].1 == es[lst[k].0 as int].0
                    &&& lst[k].2 == es[lst[k].0 as int].1
                    &&& incident_in(es, lst[k].0 as int, v as nat, outgoing)
                },
                j <= lst.len(),
                collected(ns, es, lst@, j as int, outgoing, lists@, gs@),
            decreases lst.len() - j,
        {
            let (e, s, t) = lst[j];
            let far_node = if outgoing { t } else { s };
            let w = self.edge_at(e);
            let lower = str_to_lowercase(w.edge_type.as_str());
            let k = lineage_kind_exec(&lower);
            let path = self.node_at(far_node).path.clone();
            let ghost d = es[e as int].2;
            let ghost l0 = lists@;
            let ghost g0 = gs@;
            proof {
                assert(lst@[j as int] == (e, s, t));
                assert(far_entry(lst@[j as int], outgoing) == far_node);
                assert(kind_of(d) == k);
                lemma_prefix_types_step(es, lst@, j as int);
            }
            if k < 5 {
                let mut l = lists[k].clone();
                insert_sorted(&mut l, path);
                lists.set(k, l);
                proof {
                    assert(!selects(d, 5, d.0));
                    assert forall|g: int| 0 <= g < gs.len() implies sorted_distinct(views(#[trigger] gs[g].1@)) && views(gs[g].1@).to_set()
                        == prefix_paths(ns, es, lst@, j + 1, outgoing, 5, gs[g].0@) by {
                        lemma_prefix_paths_step(ns, es, lst@, j as int, outgoing, 5, gs[g].0@);
                    }
                    assert forall|c: int| 0 <= c < 5 implies sorted_distinct(views(#[trigger] lists[c]@)) && views(lists[c]@).to_set()
                        == prefix_paths(ns, es, lst@, j + 1, outgoing, c as nat, Seq::empty()) by {
                        lemma_prefix_paths_step(ns, es, lst@, j as int, outgoing, c as nat, Seq::empty());
                        if c != k {
                            assert(lists[c] == l0[c]);
                        }
                    }
                }
            } else if w.class == EdgeClass::StructuralLink {
                let ty = w.edge_type.clone();
                proof {
                    assert(selects(d, 5, d.0));
                    assert(ty@ == d.0);
                }
                insert_group(&mut gs, ty, path);
                proof {
                    assert forall|c: int| 0 <= c < 5 implies sorted_distinct(views(#[trigger] lists[c]@)) && views(lists[c]@).to_set()
                        == prefix_paths(ns, es, lst@, j + 1, outgoing, c as nat, Seq::empty()) by {
                        lemma_prefix_paths_step(ns, es, lst@, j as int, outgoing, c as nat, Seq::empty());
                    }
                    assert forall|g: int| 0 <= g < gs.len() implies sorted_distinct(views(#[trigger] gs[g].1@)) && views(gs[g].1@).to_set()
                        == prefix_paths(ns, es, lst@, j + 1, outgoing, 5, gs[g].0@) by {
                        let key = gs[g].0@;
                        lemma_prefix_paths_step(ns, es, lst@, j as int, outgoing, 5, key);
                        let k0 = g0.map_values(|x: (String, Vec<String>)| x.0@);
                        if k0.contains(key) {
                            let h = choose|h: int| 0 <= h < k0.len() && k0[h] == key;
                            lemma_group_set_at(g0, h);
                            assert(g0[h].0@ == key);
                        } else {
                            lemma_group_set_absent(g0, key);
                            assert(!prefix_types(es, lst@, j as int).contains(key)) by {
                                assert(k0.to_set() == prefix_types(es, lst@, j as int));
                            }
                            lemma_prefix_paths_new_type(ns, es, lst@, j as int, outgoing, key);
                        }
                    }
                }
            } else {
                proof {
                    assert(!selects(d, 5, d.0));
                    assert forall|g: int| 0 <= g < gs.len() implies sorted_distinct(views(#[trigger] gs[g].1@)) && views(gs[g].1@).to_set()
                        == prefix_paths(ns, es, lst@, j + 1, outgoing, 5, gs[g].0@) by {
                        lemma_prefix_paths_step(ns, es, lst@, j as int, outgoing, 5, gs[g].0@);
                    }
                    assert forall|c: int| 0 <= c < 5 implies sorted_distinct(views(#[trigger] lists[c]@)) && views(lists[c]@).to_set()
                        == prefix_paths(ns, es, lst@, j + 1, outgoing, c as nat, Seq::empty()) by {
                        lemma_prefix_paths_step(ns, es, lst@, j as int, outgoing, c as nat, Seq::empty());
                    }
                }
            }
            j += 1;
        }
        proof {
            assert forall|c: int| 0 <= c < 5 implies lists_sorted(#[trigger] lists[c]@, linked_paths(ns, es, v as nat, outgoing, c as nat, Seq::empty())) by {
                lemma_prefix_complete(ns, es, lst@, v as nat, outgoing, c as nat, Seq::empty());
            }
            lemma_prefix_complete(ns, es, lst@, v as nat, outgoing, 5, Seq::empty());
            assert forall|g: int| 0 <= g < gs.len() implies lists_sorted(#[trigger] gs[g].1@, linked_paths(ns, es, v as nat, outgoing, 5, gs[g].0@)) by {
                lemma_prefix_complete(ns, es, lst@, v as nat, outgoing, 5, gs[g].0@);
            }
        }
        (lists, gs)
    }

    /// The lineage annotation of the note at `path`: for each lineage relation (supersedes,
    /// implements, depends on, ADR for, parent of, compared ignoring case) the notes it bears
    /// it to and those that bear it to the note, and its other structural links grouped by
    /// edge type; each list sorted and without duplicates. `None` when no note has the path, or
    /// when the note has no such link at all.
    pub fn extract_lineage_for_node(&self, path: &str) -> (r: Option<LineageAnnotation>)
        requires
            self.wf(),
        ensures
            r is None <==> !has_path(self.nodes(), path@) || lineage_empty(
                self.nodes(),
                self.edges(),
                path_index(self.nodes(), path@) as nat,
            ),
            r matches Some(a) ==> annotates(self.nodes(), self.edges(), path_index(self.nodes(), path@) as nat, a),
    {
        let v = match self.get_node(path) {
            Some(v) => v,
            None => return None,
        };
        proof {
            lemma_path_index(self.nodes(), path@, v as int);
        }
        let (out_lists, out_groups) = self.lineage_direction(v, true);
        let (in_lists, in_groups) = self.lineage_direction(v, false);
        let a = LineageAnnotation {
            supersedes: out_lists[0].clone(),
            superseded_by: in_lists[0].clone(),
            implements: out_lists[1].clone(),
            implemented_by: in_lists[1].clone(),
            depends_on: out_lists[2].clone(),
            depended_on_by: in_lists[2].clone(),
            adr_for: out_lists[3].clone(),
            has_adr: in_lists[3].clone(),
            parent_of: out_lists[4].clone(),
            child_of: in_lists[4].clone(),
            incoming: in_groups,
            outgoing: out_groups,
        };
        proof {
            assert(lists_sorted(out_lists@[0]@, linked_paths(self.nodes(), self.edges(), v as nat, true, 0, Seq::empty())));
            assert(lists_sorted(out_lists@[1]@, linked_paths(self.nodes(), self.edges(), v as nat, true, 1, Seq::empty())));
            assert(lists_sorted(out_lists@[2]@, linked_paths(self.nodes(), self.edges(), v as nat, true, 2, Seq::empty())));
            assert(lists_sorted(out_lists@[3]@, linked_paths(self.nodes(), self.edges(), v as nat, true, 3, Seq::empty())));
            assert(lists_sorted(out_lists@[4]@, linked_paths(self.nodes(), self.edges(), v as nat, true, 4, Seq::empty())));
            assert(lists_sorted(in_lists@[0]@, linked_paths(self.nodes(), self.edges(), v as nat, false, 0, Seq::empty())));
            assert(lists_sorted(in_lists@[1]@, linked_paths(self.nodes(), self.edges(), v as nat, false, 1, Seq::empty())));
            assert(lists_sorted(in_lists@[2]@, linked_paths(self.nodes(), self.edges(), v as nat, false, 2, Seq::empty())));
            assert(lists_sorted(in_lists@[3]@, linked_paths(self.nodes(), self.edges(), v as nat, false, 3, Seq::empty())));
            assert(lists_sorted(in_lists@[4]@, linked_paths(self.nodes(), self.edges(), v as nat, false, 4, Seq::empty())));
            lemma_empty_iff(self.nodes(), self.edges(), v as nat, a);
        }
        if a.is_empty() {
            None
        } else {
            Some(a)
        }
    }
}

impl LineageAnnotation {
    /// Whether every list and every group map is empty.
    pub fn is_empty(&self) -> (r: bool)
        ensures
            r == no_entries(*self),
    {
        self.supersedes.len() == 0 && self.superseded_by.len() == 0 && self.implements.len() == 0
            && self.implemented_by.len() == 0 && self.depends_on.len() == 0 && self.depended_on_by.len() == 0
            && self.adr_for.len() == 0 && self.has_adr.len() == 0 && self.parent_of.len() == 0
            && self.child_of.len() == 0 && self.incoming.len() == 0 && self.outgoing.len() == 0
    }
}

/// Every list and group map of `a` is empty.
pub open spec fn no_entries(a: LineageAnnotation) -> bool {
    &&& a.supersedes.len() == 0
    &&& a.superseded_by.len() == 0
    &&& a.implements.len() == 0
    &&& a.implemented_by.len() == 0
    &&& a.depends_on.len() == 0
    &&& a.depended_on_by.len() == 0
    &&& a.adr_for.len() == 0
    &&& a.has_adr.len() == 0
    &&& a.parent_of.len() == 0
    &&& a.child_of.len() == 0
    &&& a.incoming.len() == 0
    &&& a.outgoing.len() == 0
}

/// Node `v` has no lineage link in either direction and no other structural link.
pub open spec fn lineage_empty(ns: Seq<NodeView>, es: Seq<EdgeView>, v: nat) -> bool {
    &&& forall|c: nat| c < 5 ==> #[trigger] linked_paths(ns, es, v, true, c, Seq::empty()).is_empty()
    &&& forall|c: nat| c < 5 ==> #[trigger] linked_paths(ns, es, v, false, c, Seq::empty()).is_empty()
    &&& other_types(es, v, true).is_empty()
    &&& other_types(es, v, false).is_empty()
}

proof fn lemma_to_set_empty<A>(s: Seq<A>)
    ensures
        s.to_set().is_empty() <==> s.len() == 0,
{
    if s.len() > 0 {
        assert(s.to_set().contains(s[0]));
    } else {
        assert(s.to_set() =~= Set::<A>::empty());
    }
}

proof fn lemma_empty_iff(ns: Seq<NodeView>, es: Seq<EdgeView>, v: nat, a: LineageAnnotation)
    requires
        annotates(ns, es, v, a),
    ensures
        no_entries(a) <==> lineage_empty(ns, es, v),
{
    lemma_to_set_empty(views(a.supersedes@));
    lemma_to_set_empty(views(a.superseded_by@));
    lemma_to_set_empty(views(a.implements@));
    lemma_to_set_empty(views(a.implemented_by@));
    lemma_to_set_empty(views(a.depends_on@));
    lemma_to_set_empty(views(a.depended_on_by@));
    lemma_to_set_empty(views(a.adr_for@));
    lemma_to_set_empty(views(a.has_adr@));
    lemma_to_set_empty(views(a.parent_of@));
    lemma_to_set_empty(views(a.child_of@));
    lemma_to_set_empty(a.incoming@.map_values(|g: (String, Vec<String>)| g.0@));
    lemma_to_set_empty(a.outgoing@.map_values(|g: (String, Vec<String>)| g.0@));
    if no_entries(a) {
        assert forall|c: nat| c < 5 implies #[trigger] linked_paths(ns, es, v, true, c, Seq::empty()).is_empty() by {
            if c == 0 {} else if c == 1 {} else if c == 2 {} else if c == 3 {} else {}
        }
        assert forall|c: nat| c < 5 implies #[trigger] linked_paths(ns, es, v, false, c, Seq::empty()).is_empty() by {
            if c == 0 {} else if c == 1 {} else if c == 2 {} else if c == 3 {} else {}
        }
    }
    if lineage_empty(ns, es, v) {
        assert(linked_paths(ns, es, v, true, 0, Seq::empty()).is_empty());
        assert(linked_paths(ns, es, v, true, 1, Seq::empty()).is_empty());
        assert(linked_paths(ns, es, v, true, 2, Seq::empty()).is_empty());
        assert(linked_paths(ns, es, v, true, 3, Seq::empty()).is_empty());
        assert(linked_paths(ns, es, v, true, 4, Seq::empty()).is_empty());
        assert(linked_paths(ns, es, v, false, 0, Seq::empty()).is_empty());
        assert(linked_paths(ns, es, v, false, 1, Seq::empty()).is_empty());
        assert(linked_paths(ns, es, v, false, 2, Seq::empty()).is_empty());
        assert(linked_paths(ns, es, v, false, 3, Seq::empty()).is_empty());
        assert(linked_paths(ns, es, v, false, 4, Seq::empty()).is_empty());
    }
}

/// `a` is the lineage annotation of node `v`.
pub open spec fn annotates(ns: Seq<NodeView>, es: Seq<EdgeView>, v: nat, a: LineageAnnotation) -> bool {
    &&& lists_sorted(a.supersedes@, linked_paths(ns, es, v, true, 0, Seq::empty()))
    &&& lists_sorted(a.superseded_by@, linked_paths(ns, es, v, false, 0, Seq::empty()))
    &&& lists_sorted(a.implements@, linked_paths(ns, es, v, true, 1, Seq::empty()))
    &&& lists_sorted(a.implemented_by@, linked_paths(ns, es, v, false, 1, Seq::empty()))
    &&& lists_sorted(a.depends_on@, linked_paths(ns, es, v, true, 2, Seq::empty()))
    &&& lists_sorted(a.depended_on_by@, linked_paths(ns, es, v, false, 2, Seq::empty()))
    &&& lists_sorted(a.adr_for@, linked_paths(ns, es, v, true, 3, Seq::empty()))
    &&& lists_sorted(a.has_adr@, linked_paths(ns, es, v, false, 3, Seq::empty()))
    &&& lists_sorted(a.parent_of@, linked_paths(ns, es, v, true, 4, Seq::empty()))
    &&& lists_sorted(a.child_of@, linked_paths(ns, es, v, false, 4, Seq::empty()))
    &&& groups_sorted(ns, es, v, false, a.incoming@)
    &&& groups_sorted(ns, es, v, true, a.outgoing@)
}

} // verus!
