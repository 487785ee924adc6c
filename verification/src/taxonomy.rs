//! Taxonomy checks on the knowledge graph: ADR notes without structural links, structural
//! links to notes that do not exist, and the full edge listing.
use vstd::prelude::*;

use crate::graph::{has_path, lemma_path_index, path_index, EdgeClass, EdgeProvenance, EdgeView, KnowledgeGraph, NodeView};
use crate::graph_report::{BrokenLink, EdgeRecord, OrphanAdr};
use crate::links::is_link;
use crate::search::{string_set_contains, string_set_contents};
use crate::text::{chars_ends_with, chars_eq, opt_view, seq_ends_with, str_chars, string_from_chars};

verus! {

/// No structural edge enters or leaves node `v`.
pub open spec fn structurally_isolated(es: Seq<EdgeView>, v: nat) -> bool {
    forall|e: int| 0 <= e < es.len() ==> !((es[e].0 == v || es[e].1 == v) && es[e].2.3 == EdgeClass::StructuralLink)
}

/// The reason given for an ADR note without structural links.
pub open spec fn reason_unlinked() -> Seq<char> {
    "ADR note has no inbound or outbound structural links"@
}

/// The reason given for an ADR note that is not in the graph.
pub open spec fn reason_missing() -> Seq<char> {
    "ADR note is not connected to the knowledge graph"@
}

/// The orphan ADR reports for `paths`, in order: `(path, title, reason)` for each path
/// that is not in the graph or whose node has no structural edge.
pub open spec fn orphan_adr_reports(
    ns: Seq<NodeView>,
    es: Seq<EdgeView>,
    paths: Seq<Seq<char>>,
) -> Seq<(Seq<char>, Option<Seq<char>>, Seq<char>)>
    decreases paths.len(),
{
    if paths.len() == 0 {
        Seq::empty()
    } else {
        let rest = orphan_adr_reports(ns, es, paths.drop_last());
        let p = paths.last();
        if !has_path(ns, p) {
            rest.push((p, None, reason_missing()))
        } else if structurally_isolated(es, path_index(ns, p) as nat) {
            rest.push((p, ns[path_index(ns, p)].1, reason_unlinked()))
        } else {
            rest
        }
    }
}

/// The view of an orphan ADR report.
pub open spec fn orphan_view(o: OrphanAdr) -> (Seq<char>, Option<Seq<char>>, Seq<char>) {
    (o.path@, opt_view(o.title), o.reason@)
}

/// The view of an edge record: source path, target path, type, weight bits, provenance.
pub open spec fn record_view(r: EdgeRecord) -> (Seq<char>, Seq<char>, Seq<char>, u32, EdgeProvenance) {
    (r.source@, r.target@, r.edge_type@, r.weight_bits, r.provenance)
}

/// A link target resolves to an existing note: it exists as written, with `.md` added, or
/// (when it ends in `.md`) without it.
pub open spec fn target_resolves(existing: Set<Seq<char>>, t: Seq<char>) -> bool {
    existing.contains(t) || existing.contains(t + ".md"@) || (seq_ends_with(t, ".md"@) && existing.contains(
        t.subrange(0, t.len() - 3),
    ))
}

/// The key under which a broken link is reported once: `source->target:type`.
pub open spec fn link_key(s: Seq<char>, t: Seq<char>, ty: Seq<char>) -> Seq<char> {
    s + "->"@ + t + ":"@ + ty
}

/// The broken structural links among the first `k` edges, in edge order, each key once:
/// `(source, target, type, provenance)`.
pub open spec fn broken_links_upto(
    ns: Seq<NodeView>,
    es: Seq<EdgeView>,
    existing: Set<Seq<char>>,
    k: nat,
) -> Seq<(Seq<char>, Seq<char>, Seq<char>, EdgeProvenance)>
    decreases k,
{
    if k == 0 {
        Seq::empty()
    } else {
        let rest = broken_links_upto(ns, es, existing, (k - 1) as nat);
        let x = es[k - 1];
        let s = ns[x.0 as int].0;
        let t = ns[x.1 as int].0;
        if x.2.3 == EdgeClass::StructuralLink && !target_resolves(existing, t) && !(exists|j: int|
            0 <= j < rest.len() && #[trigger] link_key(rest[j].0, rest[j].1, rest[j].2) == link_key(s, t, x.2.0)) {
            rest.push((s, t, x.2.0, x.2.2))
        } else {
            rest
        }
    }
}

/// The view of a broken-link report.
pub open spec fn broken_view(b: BrokenLink) -> (Seq<char>, Seq<char>, Seq<char>, EdgeProvenance) {
    (b.source@, b.target@, b.edge_type@, b.provenance)
}

/// The characters of `a` followed by those of `b`.
fn concat_chars(a: &[char], b: &[char]) -> (r: Vec<char>)
    ensures
        r@ == a@ + b@,
{
    let mut r: Vec<char> = Vec::new();
    let mut i: usize = 0;
    while i < a.len()
        invariant
            i <= a.len(),
            r@ == a@.subrange(0, i as int),
        decreases a.len() - i,
    {
        r.push(a[i]);
        i += 1;
        assert(r@ == a@.subrange(0, i as int));
    }
    let mut j: usize = 0;
    while j < b.len()
        invariant
            j <= b.len(),
            a.len() == i,
            r@ == a@ + b@.subrange(0, j as int),
        decreases b.len() - j,
    {
        r.push(b[j]);
        j += 1;
        assert(r@ == a@ + b@.subrange(0, j as int));
    }
    assert(b@.subrange(0, b.len() as int) == b@);
    r
}

impl KnowledgeGraph {
    /// Detect unattached orphan ADR notes: ADR notes with no inbound or outbound structural
    /// links, and ADR notes that are not in the graph at all.
    pub fn detect_orphan_adrs(&self, adr_paths: &[String]) -> (r: Vec<OrphanAdr>)
        requires
            self.wf(),
        ensures
            r@.map_values(|o: OrphanAdr| orphan_view(o)) == orphan_adr_reports(
                self.nodes(),
                self.edges(),
                adr_paths@.map_values(|s: String| s@),
            ),
    {
        let mut r: Vec<OrphanAdr> = Vec::new();
        let mut k: usize = 0;
        let ghost paths = adr_paths@.map_values(|s: String| s@);
        proof {
            reveal_strlit("ADR note has no inbound or outbound structural links");
            reveal_strlit("ADR note is not connected to the knowledge graph");
        }
        while k < adr_paths.len()
            invariant
                self.wf(),
                k <= adr_paths.len(),
                paths == adr_paths@.map_values(|s: String| s@),
                r@.map_values(|o: OrphanAdr| orphan_view(o)) == orphan_adr_reports(
                    self.nodes(),
                    self.edges(),
                    paths.take(k as int),
                ),
            decreases adr_paths.len() - k,
        {
            let path = &adr_paths[k];
            let ghost r0 = r@;
            proof {
                assert(paths.take(k + 1).drop_last() == paths.take(k as int));
                assert(paths.take(k + 1).last() == path@);
            }
            match self.get_node(path.as_str()) {
                Some(idx) => {
                    proof {
                        lemma_path_index(self.nodes(), path@, idx as int);
                    }
                    let ins = self.links_at(idx, true, Some(EdgeClass::StructuralLink));
                    let outs = self.links_at(idx, false, Some(EdgeClass::StructuralLink));
                    if ins.len() == 0 && outs.len() == 0 {
                        proof {
                            assert forall|e: int| 0 <= e < self.edges().len() implies !((self.edges()[e].0 == idx as nat
                                || self.edges()[e].1 == idx as nat) && self.edges()[e].2.3 == EdgeClass::StructuralLink) by {
                                if self.edges()[e].2.3 == EdgeClass::StructuralLink {
                                    if self.edges()[e].1 == idx as nat {
                                        assert(is_link(self.edges(), e, idx as nat, true, Some(EdgeClass::StructuralLink)));
                                    }
                                    if self.edges()[e].0 == idx as nat {
                                        assert(is_link(self.edges(), e, idx as nat, false, Some(EdgeClass::StructuralLink)));
                                    }
                                }
                            }
                        }
                        let node = self.node_at(idx);
                        r.push(
                            OrphanAdr {
                                path: path.clone(),
                                title: node.title.clone(),
                                reason: "ADR note has no inbound or outbound structural links".to_owned(),
                            },
                        );
                        proof {
                            assert(r@.map_values(|o: OrphanAdr| orphan_view(o)) == r0.map_values(|o: OrphanAdr| orphan_view(o)).push(
                                orphan_view(r@.last()),
                            ));
                        }
                    } else {
                        proof {
                            if ins.len() > 0 {
                                assert(is_link(self.edges(), ins[0].0 as int, idx as nat, true, Some(EdgeClass::StructuralLink)));
                            } else {
                                assert(is_link(self.edges(), outs[0].0 as int, idx as nat, false, Some(EdgeClass::StructuralLink)));
                            }
                        }
                    }
                },
                None => {
                    r.push(
                        OrphanAdr {
                            path: path.clone(),
                            title: None,
                            reason: "ADR note is not connected to the knowledge graph".to_owned(),
                        },
                    );
                    proof {
                        assert(r@.map_values(|o: OrphanAdr| orphan_view(o)) == r0.map_values(|o: OrphanAdr| orphan_view(o)).push(
                            orphan_view(r@.last()),
                        ));
                    }
                },
            }
            k += 1;
        }
        proof {
            assert(paths.take(adr_paths.len() as int) == paths);
        }
        r
    }

    /// Retrieve all edges currently in the knowledge graph, in edge order, with their
    /// endpoints named by path.
    pub fn get_all_edges(&self) -> (r: Vec<EdgeRecord>)
        requires
            self.wf(),
        ensures
            r.len() == self.edges().len(),
            forall|e: int| 0 <= e < r.len() ==> #[trigger] record_view(r[e]) == (
                self.nodes()[self.edges()[e].0 as int].0,
                self.nodes()[self.edges()[e].1 as int].0,
                self.edges()[e].2.0,
                self.edges()[e].2.1,
                self.edges()[e].2.2,
            ),
    {
        let m = self.edge_count();
        let mut r: Vec<EdgeRecord> = Vec::new();
        let mut e: usize = 0;
        while e < m
            invariant
                self.wf(),
                m == self.edges().len(),
                e <= m,
                r.len() == e,
                forall|j: int| 0 <= j < e ==> #[trigger] record_view(r[j]) == (
                    self.nodes()[self.edges()[j].0 as int].0,
                    self.nodes()[self.edges()[j].1 as int].0,
                    self.edges()[j].2.0,
                    self.edges()[j].2.1,
                    self.edges()[j].2.2,
                ),
            decreases m - e,
        {
            let (a, b) = self.endpoints_at(e);
            let w = self.edge_at(e);
            let ghost r0 = r@;
            r.push(
                EdgeRecord {
                    source: self.node_at(a).path.clone(),
                    target: self.node_at(b).path.clone(),
                    edge_type: w.edge_type.clone(),
                    weight_bits: w.weight_bits,
                    provenance: w.provenance,
                },
            );
            proof {
                assert forall|j: int| 0 <= j < e + 1 implies #[trigger] record_view(r[j]) == (
                    self.nodes()[self.edges()[j].0 as int].0,
                    self.nodes()[self.edges()[j].1 as int].0,
                    self.edges()[j].2.0,
                    self.edges()[j].2.1,
                    self.edges()[j].2.2,
                ) by {
                    if j < e {
                        assert(r[j] == r0[j]);
                    }
                }
            }
            e += 1;
        }
        r
    }
    /// Detect broken structural links: structural edges whose target note does not resolve
    /// to an existing path, in edge order, each `source->target:type` key once.
    pub fn detect_broken_links(&self, existing_paths: &std::collections::HashSet<String>) -> (r: Vec<BrokenLink>)
        requires
            self.wf(),
        ensures
            r@.map_values(|b: BrokenLink| broken_view(b)) == broken_links_upto(
                self.nodes(),
                self.edges(),
                string_set_contents(*existing_paths),
                self.edges().len(),
            ),
    {
        let ghost existing = string_set_contents(*existing_paths);
        let m = self.edge_count();
        let mut broken: Vec<BrokenLink> = Vec::new();
        let mut seen: Vec<Vec<char>> = Vec::new();
        let mut e: usize = 0;
        let arrow = str_chars("->");
        let colon = str_chars(":");
        while e < m
            invariant
                self.wf(),
                m == self.edges().len(),
                existing == string_set_contents(*existing_paths),
                arrow@ == "->"@,
                colon@ == ":"@,
                e <= m,
                broken@.map_values(|b: BrokenLink| broken_view(b)) == broken_links_upto(self.nodes(), self.edges(), existing, e as nat),
                seen.len() == broken.len(),
                forall|j: int| 0 <= j < seen.len() ==> (#[trigger] seen[j])@ == link_key(
                    broken[j].source@,
                    broken[j].target@,
                    broken[j].edge_type@,
                ),
            decreases m - e,
        {
            let w = self.edge_at(e);
            let ghost bv = broken@.map_values(|b: BrokenLink| broken_view(b));
            let ghost es = self.edges();
            let ghost srcv = self.nodes()[es[e as int].0 as int].0;
            let ghost tgtv = self.nodes()[es[e as int].1 as int].0;
            if w.class == EdgeClass::StructuralLink {
                let (a, b) = self.endpoints_at(e);
                let src = &self.node_at(a).path;
                let tgt = &self.node_at(b).path;
                assert(src@ == srcv && tgt@ == tgtv);
                if !self.target_exists(existing_paths, tgt.as_str()) {
                    let k1 = concat_chars(str_chars(src.as_str()).as_slice(), arrow.as_slice());
                    let k2 = concat_chars(k1.as_slice(), str_chars(tgt.as_str()).as_slice());
                    let k3 = concat_chars(k2.as_slice(), colon.as_slice());
                    let key = concat_chars(k3.as_slice(), str_chars(w.edge_type.as_str()).as_slice());
                    let mut j: usize = 0;
                    let mut dup = false;
                    while j < seen.len()
                        invariant_except_break
                            j <= seen.len(),
                            !dup,
                            forall|jj: int| 0 <= jj < j ==> (#[trigger] seen[jj])@ != key@,
                        ensures
                            dup ==> j < seen.len() && seen[j as int]@ == key@,
                            !dup ==> forall|jj: int| 0 <= jj < seen.len() ==> (#[trigger] seen[jj])@ != key@,
                        decreases seen.len() - j,
                    {
                        if chars_eq(seen[j].as_slice(), key.as_slice()) {
                            dup = true;
                            break;
                        }
                        j += 1;
                    }
                    proof {
                        assert(key@ == link_key(src@, tgt@, w.edge_type@));
                        if dup {
                            assert(bv[j as int] == broken_view(broken[j as int]));
                            assert(link_key(bv[j as int].0, bv[j as int].1, bv[j as int].2) == link_key(src@, tgt@, w.edge_type@));
                        } else {
                            assert forall|jj: int| 0 <= jj < bv.len() implies #[trigger] link_key(bv[jj].0, bv[jj].1, bv[jj].2) != key@ by {
                                assert(bv[jj] == broken_view(broken[jj]));
                                assert(seen[jj]@ != key@);
                            }
                        }
                    }
                    if !dup {
                        let ghost s0 = seen@;
                        let ghost b0 = broken@;
                        seen.push(key);
                        broken.push(
                            BrokenLink {
                                source: src.clone(),
                                target: tgt.clone(),
                                edge_type: w.edge_type.clone(),
                                provenance: w.provenance,
                            },
                        );
                        proof {
                            assert(broken@.map_values(|b: BrokenLink| broken_view(b)) == bv.push(broken_view(broken@.last())));
                            assert forall|j2: int| 0 <= j2 < seen.len() implies (#[trigger] seen[j2])@ == link_key(
                                broken[j2].source@,
                                broken[j2].target@,
                                broken[j2].edge_type@,
                            ) by {
                                if j2 < s0.len() {
                                    assert(seen[j2] == s0[j2]);
                                    assert(broken[j2] == b0[j2]);
                                }
                            }
                        }
                    }
                }
            }
            proof {
                let es = self.edges();
                assert(broken_links_upto(self.nodes(), es, existing, (e + 1) as nat) == {
                    let rest = broken_links_upto(self.nodes(), es, existing, e as nat);
                    let x = es[e as int];
                    let s = self.nodes()[x.0 as int].0;
                    let t = self.nodes()[x.1 as int].0;
                    if x.2.3 == EdgeClass::StructuralLink && !target_resolves(existing, t) && !(exists|j: int|
                        0 <= j < rest.len() && #[trigger] link_key(rest[j].0, rest[j].1, rest[j].2) == link_key(s, t, x.2.0)) {
                        rest.push((s, t, x.2.0, x.2.2))
                    } else {
                        rest
                    }
                });
            }
            e += 1;
        }
        broken
    }

    /// Whether a link target names an existing note (`target_resolves`).
    fn target_exists(&self, existing_paths: &std::collections::HashSet<String>, t: &str) -> (r: bool)
        ensures
            r == target_resolves(string_set_contents(*existing_paths), t@),
    {
        proof {
            reveal_strlit(".md");
        }
        if string_set_contains(existing_paths, t) {
            return true;
        }
        let tc = str_chars(t);
        let md = str_chars(".md");
        let with_md = string_from_chars(concat_chars(tc.as_slice(), md.as_slice()).as_slice());
        if string_set_contains(existing_paths, with_md.as_str()) {
            return true;
        }
        if chars_ends_with(tc.as_slice(), md.as_slice()) {
            let stem = string_from_chars(crate::text::chars_slice(tc.as_slice(), 0, tc.len() - 3).as_slice());
            return string_set_contains(existing_paths, stem.as_str());
        }
        false
    }
}

} // verus!
