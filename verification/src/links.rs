//! Link listings of a note: the notes that link to it and the notes it links to, grouped
//! by edge type.
use vstd::prelude::*;

use crate::graph::{has_path, incident_in, lemma_path_index, path_index, EdgeClass, EdgeView, KnowledgeGraph, NodeView};

verus! {

/// Edge `e` links node `i` (entering it when `incoming`, leaving it otherwise) and passes
/// the class filter.
pub open spec fn is_link(es: Seq<EdgeView>, e: int, i: nat, incoming: bool, class: Option<EdgeClass>) -> bool {
    &&& 0 <= e < es.len()
    &&& if incoming { es[e].1 == i } else { es[e].0 == i }
    &&& match class {
        Some(c) => es[e].2.3 == c,
        None => true,
    }
}

/// The far end of a link: the source of an incoming edge, the target of an outgoing one.
pub open spec fn far_end(es: Seq<EdgeView>, e: int, incoming: bool) -> nat {
    if incoming { es[e].0 } else { es[e].1 }
}

/// Some link of node `i` has type `t` and a far end with path `p`.
pub open spec fn has_link_to(
    ns: Seq<NodeView>,
    es: Seq<EdgeView>,
    i: nat,
    incoming: bool,
    class: Option<EdgeClass>,
    t: Seq<char>,
    p: Seq<char>,
) -> bool {
    exists|e: int| #[trigger] is_link(es, e, i, incoming, class) && es[e].2.0 == t && ns[far_end(es, e, incoming) as int].0 == p
}

/// Some group of `r` is for type `t` and lists path `p`.
pub open spec fn group_lists(r: Seq<(String, Vec<String>)>, t: Seq<char>, p: Seq<char>) -> bool {
    exists|g: int, k: int| 0 <= g < r.len() && 0 <= k < r[g].1.len() && #[trigger] r[g].0@ == t && (#[trigger] r[g].1[k])@ == p
}

/// Some link of `links` has edge type `t`.
pub open spec fn some_link_typed(es: Seq<EdgeView>, links: Seq<(usize, usize)>, t: Seq<char>) -> bool {
    exists|k: int| 0 <= k < links.len() && #[trigger] es[links[k].0 as int].2.0 == t
}

/// Some string of `v` is `p`.
pub open spec fn lists(v: Seq<String>, p: Seq<char>) -> bool {
    exists|k: int| 0 <= k < v.len() && #[trigger] v[k]@ == p
}

/// `r` groups the far ends of the links of node `i` by edge type: one non-empty group per
/// type that occurs, holding the paths of exactly the far ends of the links of that type.
pub open spec fn grouped_links(
    ns: Seq<NodeView>,
    es: Seq<EdgeView>,
    i: nat,
    incoming: bool,
    class: Option<EdgeClass>,
    r: Seq<(String, Vec<String>)>,
) -> bool {
    &&& forall|g: int, h: int| 0 <= g < h < r.len() ==> #[trigger] r[g].0@ != #[trigger] r[h].0@
    &&& forall|g: int| 0 <= g < r.len() ==> (#[trigger] r[g]).1.len() > 0
    &&& forall|g: int, k: int| 0 <= g < r.len() && 0 <= k < r[g].1.len() ==> has_link_to(
        ns,
        es,
        i,
        incoming,
        class,
        r[g].0@,
        (#[trigger] r[g].1[k])@,
    )
    &&& forall|e: int| #[trigger] is_link(es, e, i, incoming, class) ==> group_lists(r, es[e].2.0, ns[far_end(es, e, incoming) as int].0)
}

impl KnowledgeGraph {
    /// The links of node `i` that pass the class filter, as `(edge, far end)`, in petgraph's
    /// list order.
    pub(crate) fn links_at(&self, i: usize, incoming: bool, class: Option<EdgeClass>) -> (r: Vec<(usize, usize)>)
        requires
            self.wf(),
            i < self.nodes().len(),
        ensures
            forall|k: int| 0 <= k < r.len() ==> is_link(self.edges(), (#[trigger] r[k]).0 as int, i as nat, incoming, class)
                && r[k].1 == far_end(self.edges(), r[k].0 as int, incoming) && r[k].1 < self.nodes().len(),
            forall|e: int| #[trigger] is_link(self.edges(), e, i as nat, incoming, class) ==> exists|k: int| 0 <= k < r.len() && (#[trigger] r[k]).0 == e,
    {
        let outgoing = !incoming;
        let all = self.edges_at(i, outgoing);
        let mut r: Vec<(usize, usize)> = Vec::new();
        let mut k: usize = 0;
        while k < all.len()
            invariant
                self.wf(),
                i < self.nodes().len(),
                k <= all.len(),
                outgoing == !incoming,
                forall|j: int| 0 <= j < all.len() ==> {
                    &&& #[trigger] all[j].0 < self.edges().len()
                    &&& all[j].1 == self.edges()[all[j].0 as int].0
                    &&& all[j].2 == self.edges()[all[j].0 as int].1
                    &&& incident_in(self.edges(), all[j].0 as int, i as nat, outgoing)
                },
                forall|j: int| 0 <= j < r.len() ==> is_link(self.edges(), (#[trigger] r[j]).0 as int, i as nat, incoming, class)
                    && r[j].1 == far_end(self.edges(), r[j].0 as int, incoming) && r[j].1 < self.nodes().len(),
                forall|jj: int| 0 <= jj < k && is_link(self.edges(), (#[trigger] all[jj]).0 as int, i as nat, incoming, class)
                    ==> exists|j: int| 0 <= j < r.len() && (#[trigger] r[j]).0 == all[jj].0,
            decreases all.len() - k,
        {
            let (e, src, tgt) = all[k];
            let w = self.edge_at(e);
            let ok = match class {
                Some(c) => w.class.accepts(c),
                None => true,
            };
            if ok {
                let far = if incoming { src } else { tgt };
                let ghost r0 = r@;
                r.push((e, far));
                proof {
                    assert forall|j: int| 0 <= j < r.len() implies is_link(self.edges(), (#[trigger] r[j]).0 as int, i as nat, incoming, class)
                        && r[j].1 == far_end(self.edges(), r[j].0 as int, incoming) && r[j].1 < self.nodes().len() by {
                        if j < r0.len() {
                            assert(r[j] == r0[j]);
                        }
                    }
                    assert forall|jj: int| 0 <= jj < k + 1 && is_link(self.edges(), (#[trigger] all[jj]).0 as int, i as nat, incoming, class)
                        implies exists|j: int| 0 <= j < r.len() && (#[trigger] r[j]).0 == all[jj].0 by {
                        if jj < k {
                            let j = choose|j: int| 0 <= j < r0.len() && (#[trigger] r0[j]).0 == all[jj].0;
                            assert(r[j] == r0[j]);
                        } else {
                            assert(r[r0.len() as int].0 == all[jj].0);
                        }
                    }
                }
            }
            k += 1;
        }
        proof {
            assert forall|e: int| #[trigger] is_link(self.edges(), e, i as nat, incoming, class) implies exists|j: int| 0 <= j < r.len() && (#[trigger] r[j]).0 == e by {
                assert(incident_in(self.edges(), e, i as nat, outgoing));
                let jj = choose|jj: int| 0 <= jj < all.len() && #[trigger] all[jj].0 == e;
                assert(is_link(self.edges(), all[jj].0 as int, i as nat, incoming, class));
            }
        }
        r
    }

    /// The paths of the far ends of the links whose edge type is `t`, in link order.
    fn far_paths_of_type(
        &self,
        i: usize,
        incoming: bool,
        class: Option<EdgeClass>,
        links: &Vec<(usize, usize)>,
        t: &String,
    ) -> (r: Vec<String>)
        requires
            forall|j: int| 0 <= j < links.len() ==> is_link(self.edges(), (#[trigger] links[j]).0 as int, i as nat, incoming, class)
                && links[j].1 == far_end(self.edges(), links[j].0 as int, incoming) && links[j].1 < self.nodes().len(),
        ensures
            forall|k: int| 0 <= k < r.len() ==> has_link_to(self.nodes(), self.edges(), i as nat, incoming, class, t@, (#[trigger] r[k])@),
            forall|j: int| 0 <= j < links.len() && self.edges()[(#[trigger] links[j]).0 as int].2.0 == t@ ==> lists(
                r@,
                self.nodes()[links[j].1 as int].0,
            ),
    {
        let mut r: Vec<String> = Vec::new();
        let mut j: usize = 0;
        while j < links.len()
            invariant
                j <= links.len(),
                forall|jj: int| 0 <= jj < links.len() ==> is_link(self.edges(), (#[trigger] links[jj]).0 as int, i as nat, incoming, class)
                    && links[jj].1 == far_end(self.edges(), links[jj].0 as int, incoming) && links[jj].1 < self.nodes().len(),
                forall|k: int| 0 <= k < r.len() ==> has_link_to(self.nodes(), self.edges(), i as nat, incoming, class, t@, (#[trigger] r[k])@),
                forall|jj: int| 0 <= jj < j && self.edges()[(#[trigger] links[jj]).0 as int].2.0 == t@ ==> lists(
                    r@,
                    self.nodes()[links[jj].1 as int].0,
                ),
            decreases links.len() - j,
        {
            let (e, far) = links[j];
            let w = self.edge_at(e);
            if crate::text::string_eq(&w.edge_type, t) {
                let node = self.node_at(far);
                let ghost r0 = r@;
                r.push(node.path.clone());
                proof {
                    assert(is_link(self.edges(), e as int, i as nat, incoming, class));
                    assert forall|k: int| 0 <= k < r.len() implies has_link_to(self.nodes(), self.edges(), i as nat, incoming, class, t@, (#[trigger] r[k])@) by {
                        if k < r0.len() {
                            assert(r[k] == r0[k]);
                        }
                    }
                    assert forall|jj: int| 0 <= jj < j + 1 && self.edges()[(#[trigger] links[jj]).0 as int].2.0 == t@ implies lists(
                        r@,
                        self.nodes()[links[jj].1 as int].0,
                    ) by {
                        if jj < j {
                            let k = choose|k: int| 0 <= k < r0.len() && #[trigger] r0[k]@ == self.nodes()[links[jj].1 as int].0;
                            assert(r@[k] == r0[k]);
                        } else {
                            assert(r@[r0.len() as int]@ == self.nodes()[far as int].0);
                        }
                    }
                }
            }
            j += 1;
        }
        r
    }
    /// The distinct edge types of `links`, in order of first appearance.
    fn link_types(&self, links: &Vec<(usize, usize)>) -> (types: Vec<String>)
        requires
            forall|j: int| 0 <= j < links.len() ==> (#[trigger] links[j]).0 < self.edges().len(),
        ensures
            forall|a: int, b: int| 0 <= a < b < types.len() ==> #[trigger] types[a]@ != #[trigger] types[b]@,
            forall|a: int| 0 <= a < types.len() ==> some_link_typed(self.edges(), links@, (#[trigger] types[a])@),
            forall|k: int| 0 <= k < links.len() ==> lists(types@, self.edges()[(#[trigger] links[k]).0 as int].2.0),
    {
        let mut types: Vec<String> = Vec::new();
        let mut j: usize = 0;
        while j < links.len()
            invariant
                j <= links.len(),
                forall|k: int| 0 <= k < links.len() ==> (#[trigger] links[k]).0 < self.edges().len(),
                forall|a: int, b: int| 0 <= a < b < types.len() ==> #[trigger] types[a]@ != #[trigger] types[b]@,
                forall|a: int| 0 <= a < types.len() ==> some_link_typed(self.edges(), links@, (#[trigger] types[a])@),
                forall|k: int| 0 <= k < j ==> lists(types@, self.edges()[(#[trigger] links[k]).0 as int].2.0),
            decreases links.len() - j,
        {
            let w = self.edge_at(links[j].0);
            let mut g: usize = 0;
            let mut found = false;
            while g < types.len()
                invariant_except_break
                    g <= types.len(),
                    !found,
                    forall|x: int| 0 <= x < g ==> #[trigger] types[x]@ != w.edge_type@,
                ensures
                    found ==> g < types.len() && types[g as int]@ == w.edge_type@,
                    !found ==> forall|x: int| 0 <= x < types.len() ==> #[trigger] types[x]@ != w.edge_type@,
                decreases types.len() - g,
            {
                if crate::text::string_eq(&types[g], &w.edge_type) {
                    found = true;
                    break;
                }
                g += 1;
            }
            let ghost t0 = types@;
            if !found {
                types.push(w.edge_type.clone());
            }
            proof {
                let tj = self.edges()[links[j as int].0 as int].2.0;
                assert(tj == w.edge_type@);
                assert forall|a: int, b: int| 0 <= a < b < types.len() implies #[trigger] types[a]@ != #[trigger] types[b]@ by {
                    if b >= t0.len() {
                        assert(types[a] == t0[a]);
                    } else {
                        assert(types[a] == t0[a] && types[b] == t0[b]);
                    }
                }
                assert forall|a: int| 0 <= a < types.len() implies some_link_typed(self.edges(), links@, (#[trigger] types[a])@) by {
                    if a < t0.len() {
                        assert(types[a] == t0[a]);
                    } else {
                        assert(self.edges()[links@[j as int].0 as int].2.0 == types[a]@);
                    }
                }
                assert forall|k: int| 0 <= k < j + 1 implies lists(types@, self.edges()[(#[trigger] links[k]).0 as int].2.0) by {
                    if k < j {
                        let a = choose|a: int| 0 <= a < t0.len() && #[trigger] t0[a]@ == self.edges()[links[k].0 as int].2.0;
                        assert(types@[a] == t0[a]);
                    } else if found {
                        assert(types@[g as int]@ == tj);
                    } else {
                        assert(types@[t0.len() as int]@ == tj);
                    }
                }
            }
            j += 1;
        }
        types
    }

    /// The links of `path` that pass the class filter, grouped by edge type.
    fn grouped_links_of(&self, path: &str, incoming: bool, class: Option<EdgeClass>) -> (r: Vec<(String, Vec<String>)>)
        requires
            self.wf(),
        ensures
            !has_path(self.nodes(), path@) ==> r.len() == 0,
            has_path(self.nodes(), path@) ==> grouped_links(
                self.nodes(),
                self.edges(),
                path_index(self.nodes(), path@) as nat,
                incoming,
                class,
                r@,
            ),
    {
        let i = match self.get_node(path) {
            Some(i) => i,
            None => {
                return Vec::new();
            },
        };
        proof {
            lemma_path_index(self.nodes(), path@, i as int);
        }
        let links = self.links_at(i, incoming, class);
        let types = self.link_types(&links);
        let mut r: Vec<(String, Vec<String>)> = Vec::new();
        let mut g: usize = 0;
        while g < types.len()
            invariant
                g <= types.len(),
                forall|k: int| 0 <= k < links.len() ==> is_link(self.edges(), (#[trigger] links[k]).0 as int, i as nat, incoming, class)
                    && links[k].1 == far_end(self.edges(), links[k].0 as int, incoming) && links[k].1 < self.nodes().len(),
                forall|a: int| 0 <= a < types.len() ==> some_link_typed(self.edges(), links@, (#[trigger] types[a])@),
                r.len() == g,
                forall|a: int| 0 <= a < g ==> (#[trigger] r[a]).0@ == types[a]@ && r[a].1.len() > 0,
                forall|a: int, k: int| 0 <= a < g && 0 <= k < r[a].1.len() ==> has_link_to(
                    self.nodes(),
                    self.edges(),
                    i as nat,
                    incoming,
                    class,
                    r[a].0@,
                    (#[trigger] r[a].1[k])@,
                ),
                forall|kk: int, a: int| 0 <= kk < links.len() && 0 <= a < g && #[trigger] types[a]@ == self.edges()[(#[trigger] links[kk]).0 as int].2.0
                    ==> lists(r[a].1@, self.nodes()[links[kk].1 as int].0),
            decreases types.len() - g,
        {
            let names = self.far_paths_of_type(i, incoming, class, &links, &types[g]);
            let ghost r0 = r@;
            proof {
                assert(some_link_typed(self.edges(), links@, types[g as int]@));
                let k0 = choose|k: int| 0 <= k < links@.len() && #[trigger] self.edges()[links@[k].0 as int].2.0 == types[g as int]@;
                assert(self.edges()[links[k0].0 as int].2.0 == types[g as int]@);
                assert(lists(names@, self.nodes()[links[k0].1 as int].0));
            }
            r.push((types[g].clone(), names));
            proof {
                assert forall|a: int| 0 <= a < g + 1 implies (#[trigger] r[a]).0@ == types[a]@ && r[a].1.len() > 0 by {
                    if a < g {
                        assert(r[a] == r0[a]);
                    }
                }
                assert forall|a: int, k: int| 0 <= a < g + 1 && 0 <= k < r[a].1.len() implies has_link_to(
                    self.nodes(),
                    self.edges(),
                    i as nat,
                    incoming,
                    class,
                    r[a].0@,
                    (#[trigger] r[a].1[k])@,
                ) by {
                    if a < g {
                        assert(r[a] == r0[a]);
                    } else {
                        assert(r[a].1[k] == names[k]);
                    }
                }
                assert forall|kk: int, a: int| 0 <= kk < links.len() && 0 <= a < g + 1 && #[trigger] types[a]@ == self.edges()[(#[trigger] links[kk]).0 as int].2.0
                    implies lists(r[a].1@, self.nodes()[links[kk].1 as int].0) by {
                    if a < g {
                        assert(r[a] == r0[a]);
                    }
                }
            }
            g += 1;
        }
        proof {
            assert forall|a: int, b: int| 0 <= a < b < r.len() implies #[trigger] r[a].0@ != #[trigger] r[b].0@ by {
                assert(r[a].0@ == types[a]@ && r[b].0@ == types[b]@);
            }
            assert forall|e: int| #[trigger] is_link(self.edges(), e, i as nat, incoming, class) implies group_lists(
                r@,
                self.edges()[e].2.0,
                self.nodes()[far_end(self.edges(), e, incoming) as int].0,
            ) by {
                let kk = choose|kk: int| 0 <= kk < links.len() && (#[trigger] links[kk]).0 == e;
                assert(lists(types@, self.edges()[links[kk].0 as int].2.0));
                let a = choose|a: int| 0 <= a < types.len() && #[trigger] types@[a]@ == self.edges()[links[kk].0 as int].2.0;
                assert(types[a]@ == self.edges()[links[kk].0 as int].2.0);
                assert(lists(r[a].1@, self.nodes()[links[kk].1 as int].0));
                let k = choose|k: int| 0 <= k < r[a].1@.len() && #[trigger] r[a].1@[k]@ == self.nodes()[links[kk].1 as int].0;
                assert(r[a].0@ == types[a]@);
                assert(r@[a].1[k]@ == self.nodes()[far_end(self.edges(), e, incoming) as int].0);
            }
        }
        r
    }

    /// Get all notes that link TO this note, grouped by edge type.
    pub fn backlinks(&self, path: &str, edge_class_filter: Option<EdgeClass>) -> (r: Vec<(String, Vec<String>)>)
        requires
            self.wf(),
        ensures
            !has_path(self.nodes(), path@) ==> r.len() == 0,
            has_path(self.nodes(), path@) ==> grouped_links(
                self.nodes(),
                self.edges(),
                path_index(self.nodes(), path@) as nat,
                true,
                edge_class_filter,
                r@,
            ),
    {
        self.grouped_links_of(path, true, edge_class_filter)
    }

    /// Get all notes this note links TO, grouped by edge type.
    pub fn forwardlinks(&self, path: &str, edge_class_filter: Option<EdgeClass>) -> (r: Vec<(String, Vec<String>)>)
        requires
            self.wf(),
        ensures
            !has_path(self.nodes(), path@) ==> r.len() == 0,
            has_path(self.nodes(), path@) ==> grouped_links(
                self.nodes(),
                self.edges(),
                path_index(self.nodes(), path@) as nat,
                false,
                edge_class_filter,
                r@,
            ),
    {
        self.grouped_links_of(path, false, edge_class_filter)
    }
}

} // verus!
