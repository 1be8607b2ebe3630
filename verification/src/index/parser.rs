//! A parsed source file: the file node plus one node per extracted definition.

use vstd::prelude::*;

use crate::graph::{CONFIDENCE_FULL, Edge, Node, NodeKind, NodeView, Relation, SymbolDef, Timestamp, edges_view, nodes_view};
use crate::identity::{address_of, blake3_digest, UorAddress};
use crate::lang::builder::{
    contains_edges, def_address, edge_of, file_address, file_node, plain_edge, spec_file_address, symbol_address,
    tool_provenance,
};

verus! {

/// A parsed source file: file-level node plus extracted symbols.
/// Pure value — no handles, no state.
#[derive(Debug)]
pub struct ParsedFile {
    pub path: String,
    pub file_address: UorAddress,
    pub content_hash: UorAddress,
    pub nodes: Vec<Node>,
    pub edges: Vec<Edge>,
}

/// The end of a definition's byte range, cut at the end of the source.
pub open spec fn clamped_end(s: SymbolDef, source_len: nat) -> int {
    if s.span.end_byte <= source_len { s.span.end_byte as int } else { source_len as int }
}

/// The node of a definition in a parsed file; its text is cut at the end of the source.
pub open spec fn parsed_symbol_node(path: Seq<char>, source: Seq<u8>, lang: Seq<char>, s: SymbolDef) -> NodeView {
    NodeView {
        address: def_address(path, s),
        kind: NodeKind::Symbol,
        provenance: tool_provenance(lang),
        confidence: CONFIDENCE_FULL,
        created_at: 0,
        content_hash: blake3_digest(source.subrange(s.span.start_byte as int, clamped_end(s, source.len()))),
        span: Some(s.span),
    }
}

/// Every definition's byte range starts no later than where it is cut.
pub open spec fn starts_within(symbols: Seq<SymbolDef>, source_len: nat) -> bool {
    forall|i: int| 0 <= i < symbols.len() ==> (#[trigger] symbols[i]).span.start_byte <= clamped_end(symbols[i], source_len)
}

/// Builds the parsed file for `path` from the definitions that the `lang_name`
/// backend extracted from `source` (none when the source did not parse).
pub fn parse_one(path: &str, source: &[u8], lang_name: &str, symbols: &[SymbolDef]) -> (r: ParsedFile)
    requires
        starts_within(symbols@, source@.len()),
    ensures
        r.path@ == path@,
        r.file_address@ == spec_file_address(path@),
        r.content_hash@ == blake3_digest(source@),
        nodes_view(r.nodes@) == seq![file_node(path@, source@, lang_name@)]
            + symbols@.map_values(|s: SymbolDef| parsed_symbol_node(path@, source@, lang_name@, s)),
        edges_view(r.edges@) == contains_edges(path@, lang_name@, symbols@),
{
    let mut actor = String::from_str("tree-sitter-");
    actor.append(lang_name);
    let provenance = crate::graph::Provenance {
        source: crate::graph::Source::ToolOutput,
        actor,
        timestamp: Timestamp(0),
        justification: None,
    };
    let file_addr = file_address(path);
    let content_hash = address_of(source);
    let ghost p = path@;
    let ghost lang = lang_name@;
    let mut nodes: Vec<Node> = Vec::new();
    nodes.push(Node {
        address: file_addr,
        kind: NodeKind::File,
        provenance: provenance.duplicate(),
        confidence: CONFIDENCE_FULL,
        created_at: Timestamp(0),
        content_hash,
        span: None,
    });
    let mut edges: Vec<Edge> = Vec::new();
    let mut i: usize = 0;
    while i < symbols.len()
        invariant
            i <= symbols@.len(),
            starts_within(symbols@, source@.len()),
            provenance@ == tool_provenance(lang),
            file_addr@ == spec_file_address(p),
            p == path@,
            lang == lang_name@,
            nodes_view(nodes@) == seq![file_node(p, source@, lang)]
                + symbols@.take(i as int).map_values(|s: SymbolDef| parsed_symbol_node(p, source@, lang, s)),
            edges_view(edges@) == contains_edges(p, lang, symbols@.take(i as int)),
        decreases symbols@.len() - i,
    {
        let sym = &symbols[i];
        assert(starts_within(symbols@, source@.len()) ==> symbols@[i as int].span.start_byte <= clamped_end(symbols@[i as int], source@.len()));
        let address = symbol_address(path, sym.source_kind.as_str(), sym.name.as_str());
        let start = sym.span.start_byte as usize;
        let end = if (sym.span.end_byte as usize) < source.len() { sym.span.end_byte as usize } else { source.len() };
        let node = Node {
            address,
            kind: NodeKind::Symbol,
            provenance: provenance.duplicate(),
            confidence: CONFIDENCE_FULL,
            created_at: provenance.timestamp,
            content_hash: address_of(&source[start..end]),
            span: Some(sym.span),
        };
        assert(node@ == parsed_symbol_node(p, source@, lang, symbols@[i as int]));
        let edge = edge_of(file_addr, address, Relation::Contains, CONFIDENCE_FULL, &provenance);
        assert(edge@ == plain_edge(spec_file_address(p), def_address(p, symbols@[i as int]), Relation::Contains, CONFIDENCE_FULL, tool_provenance(lang)));
        let ghost old_nodes = nodes@;
        let ghost old_edges = edges@;
        nodes.push(node);
        edges.push(edge);
        proof {
            let t = symbols@.take(i as int);
            let t1 = symbols@.take(i + 1);
            assert(t1 =~= t.push(symbols@[i as int]));
            assert(nodes_view(nodes@) =~= nodes_view(old_nodes).push(parsed_symbol_node(p, source@, lang, symbols@[i as int])));
            assert(edges_view(edges@) =~= edges_view(old_edges).push(
                plain_edge(spec_file_address(p), def_address(p, symbols@[i as int]), Relation::Contains, CONFIDENCE_FULL, tool_provenance(lang))));
            assert(t1.map_values(|s: SymbolDef| parsed_symbol_node(p, source@, lang, s))
                =~= t.map_values(|s: SymbolDef| parsed_symbol_node(p, source@, lang, s)).push(parsed_symbol_node(p, source@, lang, symbols@[i as int])));
            assert(contains_edges(p, lang, t1) =~= contains_edges(p, lang, t).push(
                plain_edge(spec_file_address(p), def_address(p, symbols@[i as int]), Relation::Contains, CONFIDENCE_FULL, tool_provenance(lang))));
        }
        i = i + 1;
    }
    assert(symbols@.take(symbols@.len() as int) =~= symbols@);
    ParsedFile { path: path.to_owned(), file_address: file_addr, content_hash, nodes, edges }
}

} // verus!
