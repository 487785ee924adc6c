//! Linking documents of one corpus to code symbols of another: which frontmatter targets
//! become cross-corpus edges, and how such an edge enters a corpus graph.
use vstd::prelude::*;

use crate::graph::{
    after_add_edge, graph_wf, has_path, lemma_path_index, lemma_upsert_node_wf, path_index, upsert_node, EdgeClass,
    EdgeData, EdgeProvenance, EdgeView, KnowledgeGraph, NodeView,
};
use crate::graph_laws::{
    law_add_edge_idempotent, law_add_edge_stores_edge, law_add_node_then_lookup, lemma_endpoints, lemma_upsert_node_same,
};

verus! {

/// A code symbol found under a qualified name in some corpus.
#[derive(Debug, Clone)]
pub struct SymbolMatch {
    /// The corpus that defines the symbol.
    pub corpus: String,
    /// The symbol's qualified scope path.
    pub scope_path: String,
    /// The symbol's short name.
    pub name: String,
}

/// A decided cross-corpus link.
#[derive(Debug, Clone)]
pub struct CrossLink {
    /// The corpus of the linking document.
    pub doc_corpus: String,
    /// The linking document.
    pub doc_path: String,
    /// The frontmatter edge type that names the target.
    pub edge_type: String,
    /// The corpus of the linked symbol.
    pub target_corpus: String,
    /// The graph key of the linked symbol: `<corpus>::<scope_path>`.
    pub node_key: String,
    /// The linked symbol's name.
    pub title: Option<String>,
}

/// The link a frontmatter target makes, as `(target corpus, node key, title)`: none when the
/// target already names a symbol node of the document's own corpus, none unless exactly one
/// symbol across all corpora has that name, none when that symbol is in the document's own
/// corpus; else a link to `<corpus>::<scope_path>`.
pub open spec fn link_of(
    doc_corpus: Seq<char>,
    doc_path: Seq<char>,
    raw_target: Seq<char>,
    target_in_graph: bool,
    intra_symbol: bool,
    resolved: Seq<SymbolMatch>,
) -> Option<(Seq<char>, Seq<char>, Seq<char>)> {
    if target_in_graph && raw_target != doc_path && intra_symbol {
        None
    } else if resolved.len() != 1 {
        None
    } else if resolved[0].corpus@ == doc_corpus {
        None
    } else {
        Some((resolved[0].corpus@, resolved[0].corpus@ + "::"@ + resolved[0].scope_path@, resolved[0].name@))
    }
}

/// Decide whether a document's frontmatter target becomes a cross-corpus link. `target_in_graph`
/// says whether the document's corpus graph has a node named like the target, `intra_symbol`
/// whether the document's own corpus defines a symbol of that qualified name, and `resolved`
/// lists every symbol of that qualified name across all corpora. Ambiguous and unresolved
/// targets make no link.
pub fn cross_link_decision(
    doc_corpus: &str,
    doc_path: &str,
    edge_type: &str,
    raw_target: &str,
    target_in_graph: bool,
    intra_symbol: bool,
    resolved: &[SymbolMatch],
) -> (r: Option<CrossLink>)
    ensures
        match r {
            Some(l) => link_of(doc_corpus@, doc_path@, raw_target@, target_in_graph, intra_symbol, resolved@) == Some(
                (l.target_corpus@, l.node_key@, l.title.unwrap()@),
            ) && l.title is Some && l.doc_corpus@ == doc_corpus@ && l.doc_path@ == doc_path@ && l.edge_type@ == edge_type@,
            None => link_of(doc_corpus@, doc_path@, raw_target@, target_in_graph, intra_symbol, resolved@) is None,
        },
{
    if target_in_graph && !crate::text::str_eq(raw_target, doc_path) && intra_symbol {
        return None;
    }
    if resolved.len() != 1 {
        return None;
    }
    let sym = &resolved[0];
    if crate::text::str_eq(sym.corpus.as_str(), doc_corpus) {
        return None;
    }
    let mut key = sym.corpus.clone();
    key.append("::");
    key.append(sym.scope_path.as_str());
    Some(
        CrossLink {
            doc_corpus: doc_corpus.to_owned(),
            doc_path: doc_path.to_owned(),
            edge_type: edge_type.to_owned(),
            target_corpus: sym.corpus.clone(),
            node_key: key,
            title: Some(sym.name.clone()),
        },
    )
}

/// The weight of a cross-corpus edge: `1.0` as `f32` bits.
pub open spec fn unit_weight_bits() -> u32 {
    0x3f80_0000u32
}

/// The data of the edge a link makes.
pub open spec fn link_edge_data(edge_type: Seq<char>) -> EdgeData {
    (edge_type, unit_weight_bits(), EdgeProvenance::DocumentsCode, EdgeClass::StructuralLink)
}

/// The graph after applying a link: the symbol node is upserted with its title, then the
/// edge from the document is added.
pub open spec fn after_link(
    ns: Seq<NodeView>,
    es: Seq<EdgeView>,
    doc: Seq<char>,
    key: Seq<char>,
    title: Option<Seq<char>>,
    edge_type: Seq<char>,
) -> (Seq<NodeView>, Seq<EdgeView>) {
    after_add_edge(upsert_node(ns, key, title), es, doc, key, link_edge_data(edge_type))
}

impl KnowledgeGraph {
    /// Add a decided cross-corpus link to this (the document's corpus) graph: the symbol node,
    /// titled with the symbol's name, and a `DocumentsCode` edge of the link's edge type.
    pub fn apply_cross_link(&mut self, link: &CrossLink)
        requires
            old(self).wf(),
            old(self).nodes().len() + 3 <= u32::MAX,
            old(self).edges().len() < u32::MAX,
        ensures
            final(self).wf(),
            (final(self).nodes(), final(self).edges()) == after_link(
                old(self).nodes(),
                old(self).edges(),
                link.doc_path@,
                link.node_key@,
                crate::text::opt_view(link.title),
                link.edge_type@,
            ),
    {
        let title: Option<&str> = match &link.title {
            Some(t) => Some(t.as_str()),
            None => None,
        };
        let _ = self.add_node(link.node_key.as_str(), title);
        assert(crate::graph::opt_str_view(title) == crate::text::opt_view(link.title));
        self.add_edge(
            link.doc_path.as_str(),
            link.node_key.as_str(),
            link.edge_type.as_str(),
            0x3f80_0000u32,
            EdgeProvenance::DocumentsCode,
            EdgeClass::StructuralLink,
        );
    }
}

/// Upserting the same path twice is upserting it once with the second title.
proof fn lemma_upsert_twice(ns: Seq<NodeView>, es: Seq<EdgeView>, p: Seq<char>, t1: Option<Seq<char>>, t2: Option<Seq<char>>)
    requires
        graph_wf(ns, es),
        has_path(ns, p) || ns.len() < u32::MAX,
    ensures
        upsert_node(upsert_node(ns, p, t1), p, t2) == upsert_node(ns, p, t2),
{
    lemma_upsert_node_wf(ns, es, p, t1);
    let n1 = upsert_node(ns, p, t1);
    let i = path_index(n1, p);
    if has_path(ns, p) {
        let k = path_index(ns, p);
        assert(n1[k].0 == p);
        lemma_path_index(n1, p, k);
        assert(n1.update(i, (p, t2)) =~= ns.update(i, (p, t2)));
    } else {
        assert(n1[ns.len() as int].0 == p);
        lemma_path_index(n1, p, ns.len() as int);
        assert(n1.update(i, (p, t2)) =~= ns.push((p, t2)));
    }
}

/// Upserting two different present paths gives the same nodes in either order.
proof fn lemma_upsert_commute(ns: Seq<NodeView>, es: Seq<EdgeView>, p: Seq<char>, a: Option<Seq<char>>, q: Seq<char>, b: Option<Seq<char>>)
    requires
        graph_wf(ns, es),
        has_path(ns, p),
        has_path(ns, q),
        p != q,
    ensures
        upsert_node(upsert_node(ns, p, a), q, b) == upsert_node(upsert_node(ns, q, b), p, a),
{
    lemma_upsert_node_wf(ns, es, p, a);
    lemma_upsert_node_wf(ns, es, q, b);
    let i = path_index(ns, p);
    let j = path_index(ns, q);
    assert(ns[i].0 != ns[j].0);
    assert(path_index(upsert_node(ns, p, a), q) == j);
    assert(path_index(upsert_node(ns, q, b), p) == i);
    assert(ns.update(i, (p, a)).update(j, (q, b)) =~= ns.update(j, (q, b)).update(i, (p, a)));
}

/// Applying the same cross-corpus link twice leaves the graph as applying it once: re-running
/// the linking pass neither duplicates edges nor grows the graph.
pub proof fn law_cross_link_idempotent(
    ns: Seq<NodeView>,
    es: Seq<EdgeView>,
    doc: Seq<char>,
    key: Seq<char>,
    title: Option<Seq<char>>,
    edge_type: Seq<char>,
)
    requires
        graph_wf(ns, es),
        ns.len() + 3 <= u32::MAX,
        es.len() < u32::MAX,
    ensures
        ({
            let g1 = after_link(ns, es, doc, key, title, edge_type);
            after_link(g1.0, g1.1, doc, key, title, edge_type) == g1
        }),
{
    let d = link_edge_data(edge_type);
    law_add_node_then_lookup(ns, es, key, title);
    let na = upsert_node(ns, key, title);
    lemma_endpoints(na, es, doc, key);
    law_add_edge_stores_edge(na, es, doc, key, d);
    law_add_edge_idempotent(na, es, doc, key, d);
    let g1 = after_add_edge(na, es, doc, key, d);
    let n1 = g1.0;
    let e1 = g1.1;
    // `n1` holds `doc` and `key`, both with no title.
    lemma_upsert_node_same(n1, doc, None);
    lemma_upsert_node_same(n1, key, None);
    let nb = upsert_node(n1, key, title);
    lemma_upsert_twice(n1, e1, key, title, None);
    if doc == key {
        lemma_upsert_twice(n1, e1, key, title, None);
        lemma_upsert_node_wf(n1, e1, key, title);
        lemma_upsert_twice(nb, e1, key, None, None);
        assert(upsert_node(upsert_node(nb, doc, None), key, None) == n1);
    } else {
        lemma_upsert_commute(n1, e1, key, title, doc, None);
        assert(upsert_node(nb, doc, None) == nb);
        assert(upsert_node(upsert_node(nb, doc, None), key, None) == n1);
    }
}

} // verus!
