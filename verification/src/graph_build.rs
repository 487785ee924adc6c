//! Building graph edges from a parsed document: wikilinks and frontmatter fields become
//! typed edges according to the configured edge types.
use vstd::prelude::*;

use crate::graph::{after_add_edge, graph_wf, EdgeClass, EdgeData, EdgeProvenance, EdgeView, KnowledgeGraph, NodeView};
use crate::graph_laws::law_add_edge_stores_edge;

verus! {

/// Where the edges of an edge type come from.
#[derive(Debug, Clone, Copy, PartialEq, Eq, Structural)]
pub enum EdgeSource {
    /// `[[wikilinks]]` in the document body.
    Wikilink,
    /// Tags shared between documents.
    Tag,
    /// A frontmatter field naming other documents.
    Frontmatter,
    /// Markdown reference links.
    Reference,
    /// Code structure.
    Code,
}

/// Direction of a frontmatter edge relative to the document that names the target.
#[derive(Debug, Clone, Copy, PartialEq, Eq, Structural)]
pub enum EdgeDirection {
    /// From the document to the target.
    Outbound,
    /// From the target to the document.
    Inbound,
}

/// Configuration of one edge type.
#[derive(Debug, Clone)]
pub struct EdgeTypeConfig {
    /// The edge type's name.
    pub name: String,
    /// Where its edges come from.
    pub source: EdgeSource,
    /// Edge weight, as the bits of an `f32`.
    pub weight_bits: u32,
    /// Whether each edge is added in both directions.
    pub bidirectional: bool,
    /// The frontmatter field that names targets.
    pub field: Option<String>,
    /// The direction of frontmatter edges (outbound when not given).
    pub direction: Option<EdgeDirection>,
    /// Tags used by more documents than this make no edges.
    pub max_frequency: Option<usize>,
    /// The class of the edges (inferred from the source when not given).
    pub class: Option<EdgeClass>,
}

/// A `[[wikilink]]` of a document.
#[derive(Debug, Clone)]
pub struct Wikilink {
    /// The linked path.
    pub target: String,
}

/// What a frontmatter field holds, as far as edge building reads it.
#[derive(Debug, Clone)]
pub enum FrontmatterValue {
    /// A string.
    Text(String),
    /// An array; each element is its string, or nothing when it is not a string.
    List(Vec<Option<String>>),
    /// Any other value.
    Other,
}

/// A parsed document, with what edge building reads of it.
#[derive(Debug, Clone)]
pub struct Document {
    /// Relative path.
    pub path: String,
    /// Title, when known.
    pub title: Option<String>,
    /// Tags.
    pub tags: Vec<String>,
    /// Wikilinks, in order.
    pub wikilinks: Vec<Wikilink>,
    /// Frontmatter fields, when the document has frontmatter.
    pub frontmatter: Option<Vec<(String, FrontmatterValue)>>,
}

/// The class that edges of a source have when the configuration gives none: tags make
/// semantic edges, every other source structural ones.
pub open spec fn class_of_source(source: EdgeSource) -> EdgeClass {
    match source {
        EdgeSource::Tag => EdgeClass::Semantic,
        _ => EdgeClass::StructuralLink,
    }
}

impl EdgeClass {
    /// The class that edges of `source` have when the configuration gives none.
    pub fn infer_from_source(source: &EdgeSource) -> (c: EdgeClass)
        ensures
            c == class_of_source(*source),
    {
        match source {
            EdgeSource::Tag => EdgeClass::Semantic,
            _ => EdgeClass::StructuralLink,
        }
    }
}

/// The class of the edges of an edge type.
pub open spec fn config_class(config: EdgeTypeConfig) -> EdgeClass {
    match config.class {
        Some(c) => c,
        None => class_of_source(config.source),
    }
}

/// The targets named by a frontmatter field: the first entry with that key; a string names
/// one target, an array names its string elements in order, anything else none.
pub open spec fn field_targets(fm: Seq<(String, FrontmatterValue)>, field: Seq<char>) -> Seq<Seq<char>>
    decreases fm.len(),
{
    if fm.len() == 0 {
        Seq::empty()
    } else if fm[0].0@ == field {
        match fm[0].1 {
            FrontmatterValue::Text(s) => seq![s@],
            FrontmatterValue::List(items) => list_strings(items@),
            FrontmatterValue::Other => Seq::empty(),
        }
    } else {
        field_targets(fm.drop_first(), field)
    }
}

/// The string elements of an array, in order.
pub open spec fn list_strings(items: Seq<Option<String>>) -> Seq<Seq<char>>
    decreases items.len(),
{
    if items.len() == 0 {
        Seq::empty()
    } else {
        let r = list_strings(items.drop_last());
        match items.last() {
            Some(s) => r.push(s@),
            None => r,
        }
    }
}

/// The views of strings.
pub open spec fn string_views(v: Seq<String>) -> Seq<Seq<char>> {
    v.map_values(|s: String| s@)
}

/// Extract target paths from a frontmatter field: a single string, or the strings of an
/// array.
pub fn extract_frontmatter_targets(frontmatter: &Vec<(String, FrontmatterValue)>, field: &str) -> (r: Vec<String>)
    ensures
        string_views(r@) == field_targets(frontmatter@, field@),
{
    let mut i: usize = 0;
    assert(frontmatter@.skip(0) =~= frontmatter@);
    while i < frontmatter.len()
        invariant
            i <= frontmatter.len(),
            field_targets(frontmatter@, field@) == field_targets(frontmatter@.skip(i as int), field@),
        decreases frontmatter.len() - i,
    {
        assert(frontmatter@.skip(i as int).drop_first() =~= frontmatter@.skip(i + 1));
        assert(frontmatter@.skip(i as int)[0] == frontmatter@[i as int]);
        if crate::text::str_eq(frontmatter[i].0.as_str(), field) {
            let mut r: Vec<String> = Vec::new();
            match &frontmatter[i].1 {
                FrontmatterValue::Text(s) => {
                    r.push(s.clone());
                    assert(string_views(r@) =~= seq![s@]);
                },
                FrontmatterValue::List(items) => {
                    let mut k: usize = 0;
                    while k < items.len()
                        invariant
                            k <= items.len(),
                            string_views(r@) == list_strings(items@.take(k as int)),
                        decreases items.len() - k,
                    {
                        assert(items@.take(k + 1).drop_last() =~= items@.take(k as int));
                        let ghost r0 = r@;
                        match &items[k] {
                            Some(s) => {
                                r.push(s.clone());
                                assert(string_views(r@) =~= string_views(r0).push(s@));
                            },
                            None => {},
                        }
                        k += 1;
                    }
                    assert(items@.take(items.len() as int) =~= items@);
                },
                FrontmatterValue::Other => {
                    assert(string_views(r@) =~= Seq::<Seq<char>>::empty());
                },
            }
            return r;
        }
        i += 1;
    }
    assert(frontmatter@.skip(i as int) =~= Seq::<(String, FrontmatterValue)>::empty());
    let r: Vec<String> = Vec::new();
    assert(string_views(r@) =~= Seq::<Seq<char>>::empty());
    r
}

/// The `(source, target)` pairs for links from `doc` to each of `targets`, in order: for each
/// target the edge in the configured direction (towards `doc` when `inbound`), then, when
/// `bidi`, the reverse edge.
pub open spec fn link_pairs(doc: Seq<char>, targets: Seq<Seq<char>>, inbound: bool, bidi: bool) -> Seq<(Seq<char>, Seq<char>)>
    decreases targets.len(),
{
    if targets.len() == 0 {
        Seq::empty()
    } else {
        let p = link_pairs(doc, targets.drop_last(), inbound, bidi);
        let t = targets.last();
        let a = if inbound { (t, doc) } else { (doc, t) };
        if bidi {
            p.push(a).push((a.1, a.0))
        } else {
            p.push(a)
        }
    }
}

/// The graph after adding, in order, one edge with data `d` for each pair.
pub open spec fn add_edges(g: (Seq<NodeView>, Seq<EdgeView>), pairs: Seq<(Seq<char>, Seq<char>)>, d: EdgeData) -> (
    Seq<NodeView>,
    Seq<EdgeView>,
)
    decreases pairs.len(),
{
    if pairs.len() == 0 {
        g
    } else {
        let g1 = add_edges(g, pairs.drop_last(), d);
        after_add_edge(g1.0, g1.1, pairs.last().0, pairs.last().1, d)
    }
}

/// Adding an edge keeps the invariant and adds at most two nodes and one edge.
proof fn lemma_add_edge_growth(ns: Seq<NodeView>, es: Seq<EdgeView>, s: Seq<char>, t: Seq<char>, d: EdgeData)
    requires
        graph_wf(ns, es),
        ns.len() + 2 <= u32::MAX,
        es.len() < u32::MAX,
    ensures
        graph_wf(after_add_edge(ns, es, s, t, d).0, after_add_edge(ns, es, s, t, d).1),
        after_add_edge(ns, es, s, t, d).0.len() <= ns.len() + 2,
        after_add_edge(ns, es, s, t, d).1.len() <= es.len() + 1,
{
    law_add_edge_stores_edge(ns, es, s, t, d);
}

/// The number of edges added for `n` targets.
pub open spec fn link_count(n: nat, bidi: bool) -> nat {
    if bidi { 2 * n } else { n }
}

proof fn lemma_link_pairs_len(doc: Seq<char>, targets: Seq<Seq<char>>, inbound: bool, bidi: bool)
    ensures
        link_pairs(doc, targets, inbound, bidi).len() == link_count(targets.len(), bidi),
    decreases targets.len(),
{
    if targets.len() > 0 {
        lemma_link_pairs_len(doc, targets.drop_last(), inbound, bidi);
    }
}

impl KnowledgeGraph {
    /// Adds one edge from `doc` to each of `targets` (from each target to `doc` when
    /// `inbound`), and the reverse edge too when `bidi`.
    fn add_link_edges(
        &mut self,
        doc: &str,
        targets: &Vec<String>,
        inbound: bool,
        bidi: bool,
        name: &str,
        weight_bits: u32,
        provenance: EdgeProvenance,
        class: EdgeClass,
    )
        requires
            old(self).wf(),
            old(self).nodes().len() + 2 * link_count(targets.len() as nat, bidi) <= u32::MAX,
            old(self).edges().len() + link_count(targets.len() as nat, bidi) <= u32::MAX,
        ensures
            final(self).wf(),
            (final(self).nodes(), final(self).edges()) == add_edges(
                (old(self).nodes(), old(self).edges()),
                link_pairs(doc@, string_views(targets@), inbound, bidi),
                (name@, weight_bits, provenance, class),
            ),
    {
        let ghost g0 = (self.nodes(), self.edges());
        let ghost d: EdgeData = (name@, weight_bits, provenance, class);
        let ghost tv = string_views(targets@);
        let mut k: usize = 0;
        proof {
            assert(tv.take(0) =~= Seq::<Seq<char>>::empty());
        }
        while k < targets.len()
            invariant
                self.wf(),
                g0.0.len() + 2 * link_count(targets.len() as nat, bidi) <= u32::MAX,
                g0.1.len() + link_count(targets.len() as nat, bidi) <= u32::MAX,
                tv == string_views(targets@),
                d == (name@, weight_bits, provenance, class),
                k <= targets.len(),
                (self.nodes(), self.edges()) == add_edges(g0, link_pairs(doc@, tv.take(k as int), inbound, bidi), d),
                self.nodes().len() <= g0.0.len() + 2 * link_count(k as nat, bidi),
                self.edges().len() <= g0.1.len() + link_count(k as nat, bidi),
            decreases targets.len() - k,
        {
            let t = targets[k].as_str();
            let ghost p0 = link_pairs(doc@, tv.take(k as int), inbound, bidi);
            let ghost a: (Seq<char>, Seq<char>) = if inbound { (t@, doc@) } else { (doc@, t@) };
            let ghost s0 = (self.nodes(), self.edges());
            proof {
                assert(tv.take(k + 1).drop_last() =~= tv.take(k as int));
                assert(tv.take(k + 1).last() == t@);
                assert(link_pairs(doc@, tv.take(k + 1), inbound, bidi) == if bidi {
                    p0.push(a).push((a.1, a.0))
                } else {
                    p0.push(a)
                });
                assert(p0.push(a).drop_last() =~= p0);
                lemma_add_edge_growth(self.nodes(), self.edges(), a.0, a.1, d);
            }
            if inbound {
                self.add_edge(t, doc, name, weight_bits, provenance, class);
            } else {
                self.add_edge(doc, t, name, weight_bits, provenance, class);
            }
            assert((self.nodes(), self.edges()) == after_add_edge(s0.0, s0.1, a.0, a.1, d));
            assert((self.nodes(), self.edges()) == add_edges(g0, p0.push(a), d));
            if bidi {
                let ghost p1 = p0.push(a);
                let ghost s1 = (self.nodes(), self.edges());
                proof {
                    lemma_add_edge_growth(self.nodes(), self.edges(), a.1, a.0, d);
                    assert(p1.push((a.1, a.0)).drop_last() =~= p1);
                }
                if inbound {
                    self.add_edge(doc, t, name, weight_bits, provenance, class);
                } else {
                    self.add_edge(t, doc, name, weight_bits, provenance, class);
                }
                assert((self.nodes(), self.edges()) == after_add_edge(s1.0, s1.1, a.1, a.0, d));
                assert((self.nodes(), self.edges()) == add_edges(g0, p1.push((a.1, a.0)), d));
            }
            k += 1;
        }
        proof {
            assert(tv.take(targets.len() as int) =~= tv);
        }
    }

    /// Add an edge from the document to each of its wikilinks (and back, for a bidirectional
    /// edge type), with the configured name, weight and class, provenance `Wikilink`.
    pub fn build_wikilink_edges(&mut self, doc: &Document, config: &EdgeTypeConfig)
        requires
            old(self).wf(),
            old(self).nodes().len() + 2 * link_count(doc.wikilinks.len() as nat, config.bidirectional) <= u32::MAX,
            old(self).edges().len() + link_count(doc.wikilinks.len() as nat, config.bidirectional) <= u32::MAX,
        ensures
            final(self).wf(),
            (final(self).nodes(), final(self).edges()) == add_edges(
                (old(self).nodes(), old(self).edges()),
                link_pairs(doc.path@, doc.wikilinks@.map_values(|w: Wikilink| w.target@), false, config.bidirectional),
                (config.name@, config.weight_bits, EdgeProvenance::Wikilink, config_class(*config)),
            ),
    {
        let class = match config.class {
            Some(c) => c,
            None => EdgeClass::infer_from_source(&config.source),
        };
        let mut targets: Vec<String> = Vec::new();
        let mut i: usize = 0;
        while i < doc.wikilinks.len()
            invariant
                i <= doc.wikilinks.len(),
                string_views(targets@) == doc.wikilinks@.take(i as int).map_values(|w: Wikilink| w.target@),
            decreases doc.wikilinks.len() - i,
        {
            let ghost t0 = targets@;
            let x = doc.wikilinks[i].target.clone();
            targets.push(x);
            proof {
                assert(string_views(targets@) =~= string_views(t0).push(x@));
                assert(doc.wikilinks@.take(i + 1).map_values(|w: Wikilink| w.target@) =~= doc.wikilinks@.take(i as int).map_values(
                    |w: Wikilink| w.target@,
                ).push(doc.wikilinks@[i as int].target@));
            }
            i += 1;
        }
        proof {
            assert(doc.wikilinks@.take(doc.wikilinks.len() as int) =~= doc.wikilinks@);
        }
        self.add_link_edges(
            doc.path.as_str(),
            &targets,
            false,
            config.bidirectional,
            config.name.as_str(),
            config.weight_bits,
            EdgeProvenance::Wikilink,
            class,
        );
    }

    /// Add an edge for each target named by the configured frontmatter field: from the
    /// document to the target (from the target to the document for an inbound edge type),
    /// and the reverse too for a bidirectional one, provenance `Frontmatter`. Nothing is
    /// added without frontmatter or without a configured field.
    pub fn build_frontmatter_edges(&mut self, doc: &Document, config: &EdgeTypeConfig)
        requires
            old(self).wf(),
            doc.frontmatter matches Some(fm) && config.field matches Some(f) ==> old(self).nodes().len() + 2 * link_count(
                field_targets(fm@, f@).len(),
                config.bidirectional,
            ) <= u32::MAX && old(self).edges().len() + link_count(field_targets(fm@, f@).len(), config.bidirectional)
                <= u32::MAX,
        ensures
            final(self).wf(),
            (final(self).nodes(), final(self).edges()) == match (doc.frontmatter, config.field) {
                (Some(fm), Some(f)) => add_edges(
                    (old(self).nodes(), old(self).edges()),
                    link_pairs(doc.path@, field_targets(fm@, f@), config.direction == Some(EdgeDirection::Inbound), config.bidirectional),
                    (config.name@, config.weight_bits, EdgeProvenance::Frontmatter, config_class(*config)),
                ),
                _ => (old(self).nodes(), old(self).edges()),
            },
    {
        let fm = match &doc.frontmatter {
            Some(fm) => fm,
            None => return,
        };
        let field = match &config.field {
            Some(f) => f,
            None => return,
        };
        let targets = extract_frontmatter_targets(fm, field.as_str());
        let inbound = match config.direction {
            Some(EdgeDirection::Inbound) => true,
            _ => false,
        };
        let class = match config.class {
            Some(c) => c,
            None => EdgeClass::infer_from_source(&config.source),
        };
        self.add_link_edges(
            doc.path.as_str(),
            &targets,
            inbound,
            config.bidirectional,
            config.name.as_str(),
            config.weight_bits,
            EdgeProvenance::Frontmatter,
            class,
        );
    }
}

} // verus!
