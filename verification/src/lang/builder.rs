//! Graph construction from the language-neutral symbol records of one file.

use vstd::prelude::*;
use vstd::utf8::encode_utf8;

use crate::graph::{
    CONFIDENCE_FULL, CONFIDENCE_HIGH, CONFIDENCE_MEDIUM, CallRef, Edge, EdgeView, ImplRef, ImportRef, Node, NodeKind, NodeView, Provenance, ProvenanceView,
    Relation, Source, Span, SymbolDef, Timestamp, addresses_view, edges_view, nodes_view,
};
use crate::identity::{address_of, address_of_str, blake3_digest, UorAddress};

verus! {

/// The text whose digest is a file's address.
pub open spec fn file_preimage(path: Seq<char>) -> Seq<char> {
    "file:"@ + path
}

/// The address of the file at `path`.
pub open spec fn spec_file_address(path: Seq<char>) -> Seq<u8> {
    blake3_digest(encode_utf8(file_preimage(path)))
}

/// The text whose digest is a symbol's address: file path, syntax kind and name.
pub open spec fn symbol_preimage(path: Seq<char>, kind: Seq<char>, name: Seq<char>) -> Seq<char> {
    "sym:"@ + path + ":"@ + kind + ":"@ + name
}

/// The address of the symbol of the given kind and name defined in the file at `path`.
pub open spec fn spec_symbol_address(path: Seq<char>, kind: Seq<char>, name: Seq<char>) -> Seq<u8> {
    blake3_digest(encode_utf8(symbol_preimage(path, kind, name)))
}

/// The address of a symbol definition of the file at `path`.
pub open spec fn def_address(path: Seq<char>, s: SymbolDef) -> Seq<u8> {
    spec_symbol_address(path, s.source_kind@, s.name@)
}

/// The provenance of facts extracted by the syntax backend for `lang`.
pub open spec fn tool_provenance(lang: Seq<char>) -> ProvenanceView {
    ProvenanceView {
        source: Source::ToolOutput,
        actor: "tree-sitter-"@ + lang,
        timestamp: 0,
        justification: None,
    }
}

/// The address that the file's symbol table gives `name`: that of the last
/// definition with that name.
pub open spec fn local_lookup(path: Seq<char>, symbols: Seq<SymbolDef>, name: Seq<char>) -> Option<Seq<u8>>
    decreases symbols.len(),
{
    if symbols.len() == 0 {
        None
    } else if symbols.last().name@ == name {
        Some(def_address(path, symbols.last()))
    } else {
        local_lookup(path, symbols.drop_last(), name)
    }
}

/// Whether the lines of `outer` cover those of `inner`.
pub open spec fn covers_lines(outer: Span, inner: Span) -> bool {
    outer.start_line <= inner.start_line && outer.end_line >= inner.end_line
}

/// The number of lines that a span extends past its first.
pub open spec fn line_width(s: Span) -> int {
    s.end_line - s.start_line
}

/// Whether symbol `i` is the innermost definition covering `span`: it covers
/// it, no covering definition is narrower, and none before it is as narrow.
pub open spec fn is_innermost(symbols: Seq<SymbolDef>, span: Span, i: int) -> bool {
    &&& 0 <= i < symbols.len()
    &&& covers_lines(symbols[i].span, span)
    &&& forall|j: int| 0 <= j < symbols.len() && covers_lines(#[trigger] symbols[j].span, span)
        ==> line_width(symbols[i].span) <= line_width(symbols[j].span)
    &&& forall|j: int| 0 <= j < i && covers_lines(#[trigger] symbols[j].span, span)
        ==> line_width(symbols[i].span) < line_width(symbols[j].span)
}

/// The index of the innermost definition covering `span`, if any covers it.
pub open spec fn innermost_index(symbols: Seq<SymbolDef>, span: Span) -> Option<int> {
    if exists|i: int| is_innermost(symbols, span, i) {
        Some(choose|i: int| is_innermost(symbols, span, i))
    } else {
        None
    }
}

/// Every definition that covers `span` has a well-ordered line range.
pub open spec fn covering_spans_ordered(symbols: Seq<SymbolDef>, span: Span) -> bool {
    forall|j: int| 0 <= j < symbols.len() && covers_lines(#[trigger] symbols[j].span, span)
        ==> symbols[j].span.start_line <= symbols[j].span.end_line
}

/// Every definition's byte range lies inside the source.
pub open spec fn byte_ranges_in(symbols: Seq<SymbolDef>, source_len: nat) -> bool {
    forall|i: int| 0 <= i < symbols.len() ==>
        (#[trigger] symbols[i]).span.start_byte <= symbols[i].span.end_byte
        && symbols[i].span.end_byte <= source_len
}

pub proof fn lemma_innermost_unique(symbols: Seq<SymbolDef>, span: Span, i: int, k: int)
    requires
        is_innermost(symbols, span, i),
        is_innermost(symbols, span, k),
    ensures
        i == k,
{
    if i < k {
        assert(covers_lines(symbols[i].span, span));
    } else if k < i {
        assert(covers_lines(symbols[k].span, span));
    }
}

/// The address of the file at `file_path`.
pub fn file_address(file_path: &str) -> (a: UorAddress)
    ensures
        a@ == spec_file_address(file_path@),
{
    let mut text = String::from_str("file:");
    text.append(file_path);
    address_of_str(text.as_str())
}

/// Symbol identity: file path, syntax kind and name. Definitions in different
/// files get different preimages; same-file definitions of equal kind and name share one.
pub fn symbol_address(file_path: &str, kind: &str, name: &str) -> (a: UorAddress)
    ensures
        a@ == spec_symbol_address(file_path@, kind@, name@),
{
    let mut text = String::from_str("sym:");
    text.append(file_path);
    text.append(":");
    text.append(kind);
    text.append(":");
    text.append(name);
    address_of_str(text.as_str())
}

/// The addresses of the definitions, in order.
fn build_local_table(file_path: &str, symbols: &[SymbolDef]) -> (table: Vec<UorAddress>)
    ensures
        table@.len() == symbols@.len(),
        forall|i: int| 0 <= i < symbols@.len() ==> #[trigger] table@[i]@ == def_address(file_path@, symbols@[i]),
{
    let mut table: Vec<UorAddress> = Vec::new();
    let mut i: usize = 0;
    while i < symbols.len()
        invariant
            i <= symbols@.len(),
            table@.len() == i,
            forall|k: int| 0 <= k < i ==> #[trigger] table@[k]@ == def_address(file_path@, symbols@[k]),
        decreases symbols@.len() - i,
    {
        let s = &symbols[i];
        table.push(symbol_address(file_path, s.source_kind.as_str(), s.name.as_str()));
        i = i + 1;
    }
    table
}

/// Looks `name` up in the file's symbol table.
fn lookup_local(file_path: &str, symbols: &[SymbolDef], table: &Vec<UorAddress>, name: &String) -> (r: Option<UorAddress>)
    requires
        table@.len() == symbols@.len(),
        forall|i: int| 0 <= i < symbols@.len() ==> #[trigger] table@[i]@ == def_address(file_path@, symbols@[i]),
    ensures
        match r {
            Some(a) => local_lookup(file_path@, symbols@, name@) == Some(a@),
            None => local_lookup(file_path@, symbols@, name@) is None,
        },
{
    let mut i: usize = symbols.len();
    assert(symbols@.take(i as int) =~= symbols@);
    while i > 0
        invariant
            i <= symbols@.len(),
            table@.len() == symbols@.len(),
            forall|k: int| 0 <= k < symbols@.len() ==> #[trigger] table@[k]@ == def_address(file_path@, symbols@[k]),
            local_lookup(file_path@, symbols@, name@) == local_lookup(file_path@, symbols@.take(i as int), name@),
        decreases i,
    {
        let ghost pre = symbols@.take(i as int);
        assert(pre.drop_last() =~= symbols@.take(i - 1));
        assert(pre.last() == symbols@[i - 1]);
        if symbols[i - 1].name == *name {
            return Some(table[i - 1]);
        }
        i = i - 1;
    }
    None
}

/// Innermost definition whose lines cover `span`: the narrowest covering
/// definition, the first of equally narrow ones (an outer `impl` or `mod`
/// block covers its methods but is wider).
fn find_enclosing(symbols: &[SymbolDef], span: &Span) -> (r: Option<usize>)
    requires
        covering_spans_ordered(symbols@, *span),
    ensures
        match r {
            Some(i) => innermost_index(symbols@, *span) == Some(i as int),
            None => innermost_index(symbols@, *span) is None,
        },
{
    let mut best: Option<usize> = None;
    let mut i: usize = 0;
    while i < symbols.len()
        invariant
            i <= symbols@.len(),
            covering_spans_ordered(symbols@, *span),
            match best {
                Some(b) => is_innermost(symbols@.take(i as int), *span, b as int),
                None => forall|j: int| 0 <= j < i ==> !covers_lines(#[trigger] symbols@[j].span, *span),
            },
        decreases symbols@.len() - i,
    {
        let s = symbols[i].span;
        if s.start_line <= span.start_line && s.end_line >= span.end_line {
            match best {
                None => {
                    best = Some(i);
                },
                Some(b) => {
                    let bs = symbols[b].span;
                    if s.end_line - s.start_line < bs.end_line - bs.start_line {
                        best = Some(i);
                    }
                },
            }
        }
        proof {
            let t = symbols@.take(i + 1);
            assert forall|j: int| 0 <= j < t.len() implies t[j] == symbols@[j] by {}
            match best {
                Some(b) => {
                    assert(is_innermost(t, *span, b as int)) by {
                        assert(t[b as int] == symbols@[b as int]);
                        assert forall|j: int| 0 <= j < t.len() && covers_lines(#[trigger] t[j].span, *span)
                            implies line_width(t[b as int].span) <= line_width(t[j].span) by {
                            if j < i {
                                assert(symbols@.take(i as int)[j] == t[j]);
                            }
                        }
                        assert forall|j: int| 0 <= j < b && covers_lines(#[trigger] t[j].span, *span)
                            implies line_width(t[b as int].span) < line_width(t[j].span) by {
                            assert(symbols@.take(i as int)[j] == t[j]);
                            if b < i {
                                assert(symbols@.take(i as int)[b as int] == t[b as int]);
                            }
                        }
                    }
                },
                None => {},
            }
        }
        i = i + 1;
    }
    assert(symbols@.take(symbols@.len() as int) =~= symbols@);
    match best {
        Some(b) => {
            proof {
                lemma_innermost_unique(symbols@, *span, b as int, choose|k: int| is_innermost(symbols@, *span, k));
            }
        },
        None => {
            assert(!exists|k: int| is_innermost(symbols@, *span, k));
        },
    }
    best
}

/// The file node of a file graph.
pub open spec fn file_node(path: Seq<char>, source: Seq<u8>, lang: Seq<char>) -> NodeView {
    NodeView {
        address: spec_file_address(path),
        kind: NodeKind::File,
        provenance: tool_provenance(lang),
        confidence: CONFIDENCE_FULL,
        created_at: 0,
        content_hash: blake3_digest(source),
        span: None,
    }
}

/// The node of a symbol definition: addressed by identity, hashed by its source text.
pub open spec fn symbol_node(path: Seq<char>, source: Seq<u8>, lang: Seq<char>, s: SymbolDef) -> NodeView {
    NodeView {
        address: def_address(path, s),
        kind: NodeKind::Symbol,
        provenance: tool_provenance(lang),
        confidence: CONFIDENCE_FULL,
        created_at: 0,
        content_hash: blake3_digest(source.subrange(s.span.start_byte as int, s.span.end_byte as int)),
        span: Some(s.span),
    }
}

/// An edge with no supporting evidence.
pub open spec fn plain_edge(source: Seq<u8>, target: Seq<u8>, relation: Relation, confidence: u64, prov: ProvenanceView) -> EdgeView {
    EdgeView { source, target, relation, confidence, provenance: prov, evidence: Seq::empty() }
}

/// The nodes of a file graph: the file, then one per definition.
pub open spec fn graph_nodes(path: Seq<char>, source: Seq<u8>, lang: Seq<char>, symbols: Seq<SymbolDef>) -> Seq<NodeView> {
    seq![file_node(path, source, lang)] + symbols.map_values(|s: SymbolDef| symbol_node(path, source, lang, s))
}

/// One `Contains` edge from the file to each definition.
pub open spec fn contains_edges(path: Seq<char>, lang: Seq<char>, symbols: Seq<SymbolDef>) -> Seq<EdgeView> {
    symbols.map_values(|s: SymbolDef| plain_edge(spec_file_address(path), def_address(path, s), Relation::Contains, CONFIDENCE_FULL, tool_provenance(lang)))
}

/// One `Imports` edge from the file for each import whose name the file defines.
pub open spec fn import_edges(path: Seq<char>, lang: Seq<char>, symbols: Seq<SymbolDef>, imports: Seq<ImportRef>) -> Seq<EdgeView>
    decreases imports.len(),
{
    if imports.len() == 0 {
        Seq::empty()
    } else {
        let rest = import_edges(path, lang, symbols, imports.drop_last());
        match local_lookup(path, symbols, imports.last().imported_name@) {
            Some(t) => rest.push(plain_edge(spec_file_address(path), t, Relation::Imports, CONFIDENCE_HIGH, tool_provenance(lang))),
            None => rest,
        }
    }
}

/// One `Calls` edge for each call whose callee the file defines and whose
/// span some definition covers, from the innermost covering definition.
pub open spec fn call_edges(path: Seq<char>, lang: Seq<char>, symbols: Seq<SymbolDef>, calls: Seq<CallRef>) -> Seq<EdgeView>
    decreases calls.len(),
{
    if calls.len() == 0 {
        Seq::empty()
    } else {
        let rest = call_edges(path, lang, symbols, calls.drop_last());
        let c = calls.last();
        match (local_lookup(path, symbols, c.callee_name@), innermost_index(symbols, c.caller_span)) {
            (Some(t), Some(i)) => rest.push(plain_edge(def_address(path, symbols[i]), t, Relation::Calls, CONFIDENCE_MEDIUM, tool_provenance(lang))),
            _ => rest,
        }
    }
}

/// One `Implements` edge for each trait implementation whose type and trait the file defines.
pub open spec fn impl_edges(path: Seq<char>, lang: Seq<char>, symbols: Seq<SymbolDef>, impls: Seq<ImplRef>) -> Seq<EdgeView>
    decreases impls.len(),
{
    if impls.len() == 0 {
        Seq::empty()
    } else {
        let rest = impl_edges(path, lang, symbols, impls.drop_last());
        let m = impls.last();
        match m.trait_name {
            Some(tn) => match (local_lookup(path, symbols, m.implementing_type@), local_lookup(path, symbols, tn@)) {
                (Some(a), Some(b)) => rest.push(plain_edge(a, b, Relation::Implements, CONFIDENCE_HIGH, tool_provenance(lang))),
                _ => rest,
            },
            None => rest,
        }
    }
}

/// All edges of a file graph, in the order the builder emits them.
pub open spec fn graph_edges(
    path: Seq<char>,
    lang: Seq<char>,
    symbols: Seq<SymbolDef>,
    imports: Seq<ImportRef>,
    calls: Seq<CallRef>,
    impls: Seq<ImplRef>,
) -> Seq<EdgeView> {
    contains_edges(path, lang, symbols) + import_edges(path, lang, symbols, imports)
        + call_edges(path, lang, symbols, calls) + impl_edges(path, lang, symbols, impls)
}

/// Every call whose callee the file defines has well-ordered covering spans.
pub open spec fn calls_well_ordered(path: Seq<char>, symbols: Seq<SymbolDef>, calls: Seq<CallRef>) -> bool {
    forall|k: int| 0 <= k < calls.len() && local_lookup(path, symbols, (#[trigger] calls[k]).callee_name@) is Some
        ==> covering_spans_ordered(symbols, calls[k].caller_span)
}

fn tool_prov(lang_name: &str) -> (p: Provenance)
    ensures
        p@ == tool_provenance(lang_name@),
{
    let mut actor = String::from_str("tree-sitter-");
    actor.append(lang_name);
    Provenance { source: Source::ToolOutput, actor, timestamp: Timestamp(0), justification: None }
}

pub(crate) fn edge_of(source: UorAddress, target: UorAddress, relation: Relation, confidence: u64, prov: &Provenance) -> (e: Edge)
    ensures
        e@ == plain_edge(source@, target@, relation, confidence, prov@),
{
    let e = Edge { source, target, relation, confidence, provenance: prov.duplicate(), evidence: Vec::new() };
    assert(addresses_view(e.evidence@) =~= Seq::<Seq<u8>>::empty());
    e
}

/// Build graph nodes and edges for one file from its extracted definitions,
/// imports, calls and implementation blocks.
pub fn build_file_graph(
    file_path: &str,
    source: &[u8],
    lang_name: &str,
    symbols: &[SymbolDef],
    imports: &[ImportRef],
    calls: &[CallRef],
    impls: &[ImplRef],
) -> (r: (Vec<Node>, Vec<Edge>))
    requires
        byte_ranges_in(symbols@, source@.len()),
        calls_well_ordered(file_path@, symbols@, calls@),
    ensures
        nodes_view(r.0@) == graph_nodes(file_path@, source@, lang_name@, symbols@),
        edges_view(r.1@) == graph_edges(file_path@, lang_name@, symbols@, imports@, calls@, impls@),
{
    let prov = tool_prov(lang_name);
    let file_addr = file_address(file_path);
    let content_hash = address_of(source);
    let ghost path = file_path@;
    let ghost lang = lang_name@;

    let mut nodes: Vec<Node> = Vec::new();
    nodes.push(Node {
        address: file_addr,
        kind: NodeKind::File,
        provenance: prov.duplicate(),
        confidence: CONFIDENCE_FULL,
        created_at: Timestamp(0),
        content_hash,
        span: None,
    });
    let mut edges: Vec<Edge> = Vec::new();

    // Definitions become nodes, each contained in the file.
    let mut i: usize = 0;
    while i < symbols.len()
        invariant
            i <= symbols@.len(),
            byte_ranges_in(symbols@, source@.len()),
            prov@ == tool_provenance(lang),
            file_addr@ == spec_file_address(path),
            path == file_path@,
            lang == lang_name@,
            nodes_view(nodes@) == seq![file_node(path, source@, lang)]
                + symbols@.take(i as int).map_values(|s: SymbolDef| symbol_node(path, source@, lang, s)),
            edges_view(edges@) == contains_edges(path, lang, symbols@.take(i as int)),
        decreases symbols@.len() - i,
    {
        let sym = &symbols[i];
        assert(byte_ranges_in(symbols@, source@.len()) ==> symbols@[i as int].span.start_byte <= symbols@[i as int].span.end_byte);
        let addr = symbol_address(file_path, sym.source_kind.as_str(), sym.name.as_str());
        let start = sym.span.start_byte as usize;
        let end = sym.span.end_byte as usize;
        let text = &source[start..end];
        let node = Node {
            address: addr,
            kind: NodeKind::Symbol,
            provenance: prov.duplicate(),
            confidence: CONFIDENCE_FULL,
            created_at: Timestamp(0),
            content_hash: address_of(text),
            span: Some(sym.span),
        };
        assert(node@ == symbol_node(path, source@, lang, symbols@[i as int]));
        let edge = edge_of(file_addr, addr, Relation::Contains, CONFIDENCE_FULL, &prov);
        let ghost old_nodes = nodes@;
        let ghost old_edges = edges@;
        nodes.push(node);
        edges.push(edge);
        assert(nodes_view(nodes@) =~= nodes_view(old_nodes).push(symbol_node(path, source@, lang, symbols@[i as int])));
        assert(edges_view(edges@) =~= edges_view(old_edges).push(
            plain_edge(spec_file_address(path), def_address(path, symbols@[i as int]), Relation::Contains, CONFIDENCE_FULL, tool_provenance(lang))));
        proof {
            let t = symbols@.take(i as int);
            let t1 = symbols@.take(i + 1);
            assert(t1 =~= t.push(symbols@[i as int]));
            assert(t1.map_values(|s: SymbolDef| symbol_node(path, source@, lang, s))
                =~= t.map_values(|s: SymbolDef| symbol_node(path, source@, lang, s)).push(symbol_node(path, source@, lang, symbols@[i as int])));
            assert(contains_edges(path, lang, t1) =~= contains_edges(path, lang, t).push(
                plain_edge(spec_file_address(path), def_address(path, symbols@[i as int]), Relation::Contains, CONFIDENCE_FULL, tool_provenance(lang))));
        }
        i = i + 1;
    }
    assert(symbols@.take(symbols@.len() as int) =~= symbols@);

    let table = build_local_table(file_path, symbols);
    append_import_edges(file_path, lang_name, symbols, &table, imports, file_addr, &prov, &mut edges);
    append_call_edges(file_path, lang_name, symbols, &table, calls, &prov, &mut edges);
    append_impl_edges(file_path, lang_name, symbols, &table, impls, &prov, &mut edges);
    (nodes, edges)
}

fn append_import_edges(
    file_path: &str,
    lang_name: &str,
    symbols: &[SymbolDef],
    table: &Vec<UorAddress>,
    imports: &[ImportRef],
    file_addr: UorAddress,
    prov: &Provenance,
    edges: &mut Vec<Edge>,
)
    requires
        table@.len() == symbols@.len(),
        forall|i: int| 0 <= i < symbols@.len() ==> #[trigger] table@[i]@ == def_address(file_path@, symbols@[i]),
        file_addr@ == spec_file_address(file_path@),
        prov@ == tool_provenance(lang_name@),
    ensures
        edges_view(final(edges)@) == edges_view(old(edges)@) + import_edges(file_path@, lang_name@, symbols@, imports@),
{
    let mut k: usize = 0;
    while k < imports.len()
        invariant
            k <= imports@.len(),
            table@.len() == symbols@.len(),
            forall|i: int| 0 <= i < symbols@.len() ==> #[trigger] table@[i]@ == def_address(file_path@, symbols@[i]),
            file_addr@ == spec_file_address(file_path@),
            prov@ == tool_provenance(lang_name@),
            edges_view(edges@) == edges_view(old(edges)@) + import_edges(file_path@, lang_name@, symbols@, imports@.take(k as int)),
        decreases imports@.len() - k,
    {
        let ghost before = edges_view(edges@);
        assert(imports@.take(k + 1).drop_last() =~= imports@.take(k as int));
        assert(imports@.take(k + 1).last() == imports@[k as int]);
        if let Some(target) = lookup_local(file_path, symbols, table, &imports[k].imported_name) {
            edges.push(edge_of(file_addr, target, Relation::Imports, CONFIDENCE_HIGH, prov));
            assert(edges_view(edges@) =~= before.push(plain_edge(file_addr@, target@, Relation::Imports, CONFIDENCE_HIGH, prov@)));
        }
        k = k + 1;
    }
    assert(imports@.take(imports@.len() as int) =~= imports@);
}

fn append_call_edges(
    file_path: &str,
    lang_name: &str,
    symbols: &[SymbolDef],
    table: &Vec<UorAddress>,
    calls: &[CallRef],
    prov: &Provenance,
    edges: &mut Vec<Edge>,
)
    requires
        table@.len() == symbols@.len(),
        forall|i: int| 0 <= i < symbols@.len() ==> #[trigger] table@[i]@ == def_address(file_path@, symbols@[i]),
        prov@ == tool_provenance(lang_name@),
        calls_well_ordered(file_path@, symbols@, calls@),
    ensures
        edges_view(final(edges)@) == edges_view(old(edges)@) + call_edges(file_path@, lang_name@, symbols@, calls@),
{
    let mut k: usize = 0;
    while k < calls.len()
        invariant
            k <= calls@.len(),
            table@.len() == symbols@.len(),
            forall|i: int| 0 <= i < symbols@.len() ==> #[trigger] table@[i]@ == def_address(file_path@, symbols@[i]),
            prov@ == tool_provenance(lang_name@),
            calls_well_ordered(file_path@, symbols@, calls@),
            edges_view(edges@) == edges_view(old(edges)@) + call_edges(file_path@, lang_name@, symbols@, calls@.take(k as int)),
        decreases calls@.len() - k,
    {
        let ghost before = edges_view(edges@);
        assert(calls@.take(k + 1).drop_last() =~= calls@.take(k as int));
        assert(calls@.take(k + 1).last() == calls@[k as int]);
        let call = &calls[k];
        if let Some(callee) = lookup_local(file_path, symbols, table, &call.callee_name) {
            assert(covering_spans_ordered(symbols@, calls@[k as int].caller_span));
            if let Some(ci) = find_enclosing(symbols, &call.caller_span) {
                edges.push(edge_of(table[ci], callee, Relation::Calls, CONFIDENCE_MEDIUM, prov));
                assert(edges_view(edges@) =~= before.push(plain_edge(def_address(file_path@, symbols@[ci as int]), callee@, Relation::Calls, CONFIDENCE_MEDIUM, prov@)));
            }
        }
        k = k + 1;
    }
    assert(calls@.take(calls@.len() as int) =~= calls@);
}

fn append_impl_edges(
    file_path: &str,
    lang_name: &str,
    symbols: &[SymbolDef],
    table: &Vec<UorAddress>,
    impls: &[ImplRef],
    prov: &Provenance,
    edges: &mut Vec<Edge>,
)
    requires
        table@.len() == symbols@.len(),
        forall|i: int| 0 <= i < symbols@.len() ==> #[trigger] table@[i]@ == def_address(file_path@, symbols@[i]),
        prov@ == tool_provenance(lang_name@),
    ensures
        edges_view(final(edges)@) == edges_view(old(edges)@) + impl_edges(file_path@, lang_name@, symbols@, impls@),
{
    let mut k: usize = 0;
    while k < impls.len()
        invariant
            k <= impls@.len(),
            table@.len() == symbols@.len(),
            forall|i: int| 0 <= i < symbols@.len() ==> #[trigger] table@[i]@ == def_address(file_path@, symbols@[i]),
            prov@ == tool_provenance(lang_name@),
            edges_view(edges@) == edges_view(old(edges)@) + impl_edges(file_path@, lang_name@, symbols@, impls@.take(k as int)),
        decreases impls@.len() - k,
    {
        let ghost before = edges_view(edges@);
        assert(impls@.take(k + 1).drop_last() =~= impls@.take(k as int));
        assert(impls@.take(k + 1).last() == impls@[k as int]);
        let m = &impls[k];
        if let Some(trait_name) = &m.trait_name {
            if let Some(type_addr) = lookup_local(file_path, symbols, table, &m.implementing_type) {
                if let Some(trait_addr) = lookup_local(file_path, symbols, table, trait_name) {
                    edges.push(edge_of(type_addr, trait_addr, Relation::Implements, CONFIDENCE_HIGH, prov));
                    assert(edges_view(edges@) =~= before.push(plain_edge(type_addr@, trait_addr@, Relation::Implements, CONFIDENCE_HIGH, prov@)));
                }
            }
        }
        k = k + 1;
    }
    assert(impls@.take(impls@.len() as int) =~= impls@);
}

/// Symbol identity is file-scoped: definitions of the same kind and name in
/// two different files have different address preimages (their addresses are
/// the BLAKE3 digests of these preimages).
pub proof fn lemma_symbol_identity_file_scoped(p1: Seq<char>, p2: Seq<char>, kind: Seq<char>, name: Seq<char>)
    requires
        p1 != p2,
    ensures
        symbol_preimage(p1, kind, name) != symbol_preimage(p2, kind, name),
        encode_utf8(symbol_preimage(p1, kind, name)) != encode_utf8(symbol_preimage(p2, kind, name)),
{
    let x = ":"@ + kind + ":"@ + name;
    let a = symbol_preimage(p1, kind, name);
    let b = symbol_preimage(p2, kind, name);
    assert(a =~= "sym:"@ + p1 + x);
    assert(b =~= "sym:"@ + p2 + x);
    assert(a.len() == "sym:"@.len() + p1.len() + x.len());
    assert(b.len() == "sym:"@.len() + p2.len() + x.len());
    if a == b {
        assert(p1.len() == p2.len());
        assert forall|i: int| 0 <= i < p1.len() implies p1[i] == p2[i] by {
            assert(a["sym:"@.len() + i] == p1[i]);
            assert(b["sym:"@.len() + i] == p2[i]);
        }
        assert(p1 =~= p2);
    }
    if encode_utf8(a) == encode_utf8(b) {
        vstd::utf8::encode_utf8_decode_utf8(a);
        vstd::utf8::encode_utf8_decode_utf8(b);
    }
}

/// File identity: different paths have different address preimages.
pub proof fn lemma_file_identity_distinct(p1: Seq<char>, p2: Seq<char>)
    requires
        p1 != p2,
    ensures
        encode_utf8(file_preimage(p1)) != encode_utf8(file_preimage(p2)),
{
    let a = file_preimage(p1);
    let b = file_preimage(p2);
    assert(a.len() == "file:"@.len() + p1.len());
    assert(b.len() == "file:"@.len() + p2.len());
    if a == b {
        assert(p1.len() == p2.len());
        assert forall|i: int| 0 <= i < p1.len() implies p1[i] == p2[i] by {
            assert(a["file:"@.len() + i] == p1[i]);
            assert(b["file:"@.len() + i] == p2[i]);
        }
        assert(p1 =~= p2);
    }
    if encode_utf8(a) == encode_utf8(b) {
        vstd::utf8::encode_utf8_decode_utf8(a);
        vstd::utf8::encode_utf8_decode_utf8(b);
    }
}

/// Every definition yields a symbol node and a `Contains` edge from its file.
pub proof fn lemma_file_graph_covers_symbols(
    path: Seq<char>,
    source: Seq<u8>,
    lang: Seq<char>,
    symbols: Seq<SymbolDef>,
    i: int,
)
    requires
        0 <= i < symbols.len(),
    ensures
        graph_nodes(path, source, lang, symbols)[i + 1].address == def_address(path, symbols[i]),
        graph_nodes(path, source, lang, symbols)[i + 1].kind == NodeKind::Symbol,
        contains_edges(path, lang, symbols)[i].source == spec_file_address(path),
        contains_edges(path, lang, symbols)[i].target == def_address(path, symbols[i]),
        contains_edges(path, lang, symbols)[i].relation == Relation::Contains,
{
}

/// Call attribution picks the innermost enclosing definition: every call edge
/// of a file graph leaves the innermost definition whose lines cover one of
/// the calls, and ends at the file's definition of that call's callee.
pub proof fn lemma_call_edges_leave_innermost_caller(
    path: Seq<char>,
    lang: Seq<char>,
    symbols: Seq<SymbolDef>,
    calls: Seq<CallRef>,
    k: int,
)
    requires
        0 <= k < call_edges(path, lang, symbols, calls).len(),
    ensures
        exists|j: int, i: int|
            #![trigger calls[j], symbols[i]]
            0 <= j < calls.len() && is_innermost(symbols, calls[j].caller_span, i)
                && call_edges(path, lang, symbols, calls)[k].source == def_address(path, symbols[i])
                && local_lookup(path, symbols, calls[j].callee_name@) == Some(call_edges(path, lang, symbols, calls)[k].target)
                && call_edges(path, lang, symbols, calls)[k].relation == Relation::Calls,
    decreases calls.len(),
{
    let d = calls.drop_last();
    let rest = call_edges(path, lang, symbols, d);
    let all = call_edges(path, lang, symbols, calls);
    if k < rest.len() {
        lemma_call_edges_leave_innermost_caller(path, lang, symbols, d, k);
        let (j, i) = choose|j: int, i: int|
            #![trigger d[j], symbols[i]]
            0 <= j < d.len() && is_innermost(symbols, d[j].caller_span, i)
                && rest[k].source == def_address(path, symbols[i])
                && local_lookup(path, symbols, d[j].callee_name@) == Some(rest[k].target)
                && rest[k].relation == Relation::Calls;
        assert(d[j] == calls[j]);
        assert(all[k] == rest[k]);
        assert(0 <= j < calls.len() && is_innermost(symbols, calls[j].caller_span, i));
    } else {
        let j = calls.len() - 1;
        let c = calls.last();
        let i = innermost_index(symbols, c.caller_span).unwrap();
        assert(calls[j] == c);
        assert(is_innermost(symbols, calls[j].caller_span, i));
    }
}

proof fn lemma_local_lookup_last(path: Seq<char>, symbols: Seq<SymbolDef>, j: int)
    requires
        0 <= j < symbols.len(),
        forall|m: int| j < m < symbols.len() ==> (#[trigger] symbols[m]).name@ != symbols[j].name@,
    ensures
        local_lookup(path, symbols, symbols[j].name@) == Some(def_address(path, symbols[j])),
    decreases symbols.len(),
{
    if j < symbols.len() - 1 {
        let d = symbols.drop_last();
        assert(d[j] == symbols[j]);
        assert forall|m: int| j < m < d.len() implies (#[trigger] d[m]).name@ != d[j].name@ by {
            assert(d[m] == symbols[m]);
        }
        lemma_local_lookup_last(path, d, j);
        assert(symbols[symbols.len() - 1].name@ != symbols[j].name@);
    }
}

proof fn lemma_call_edges_include(path: Seq<char>, lang: Seq<char>, symbols: Seq<SymbolDef>, calls: Seq<CallRef>, k: int, i: int, t: Seq<u8>)
    requires
        0 <= k < calls.len(),
        local_lookup(path, symbols, calls[k].callee_name@) == Some(t),
        innermost_index(symbols, calls[k].caller_span) == Some(i),
    ensures
        call_edges(path, lang, symbols, calls).contains(
            plain_edge(def_address(path, symbols[i]), t, Relation::Calls, CONFIDENCE_MEDIUM, tool_provenance(lang))),
    decreases calls.len(),
{
    let e = plain_edge(def_address(path, symbols[i]), t, Relation::Calls, CONFIDENCE_MEDIUM, tool_provenance(lang));
    let all = call_edges(path, lang, symbols, calls);
    let d = calls.drop_last();
    let rest = call_edges(path, lang, symbols, d);
    if k == calls.len() - 1 {
        assert(all == rest.push(e));
        assert(all[all.len() - 1] == e);
    } else {
        assert(d[k] == calls[k]);
        lemma_call_edges_include(path, lang, symbols, d, k, i, t);
        let m = choose|m: int| 0 <= m < rest.len() && rest[m] == e;
        assert(all[m] == e);
    }
}

/// Every call is recorded: when the file defines the callee (its last
/// definition of that name is `symbols[j]`) and `symbols[i]` is the innermost
/// definition covering the call, the file graph holds a `Calls` edge from
/// `symbols[i]` to `symbols[j]`, also when they are the same definition (a
/// recursive call).
pub proof fn lemma_every_local_call_has_an_edge(
    path: Seq<char>,
    source: Seq<u8>,
    lang: Seq<char>,
    symbols: Seq<SymbolDef>,
    imports: Seq<ImportRef>,
    calls: Seq<CallRef>,
    impls: Seq<ImplRef>,
    k: int,
    i: int,
    j: int,
)
    requires
        0 <= k < calls.len(),
        0 <= j < symbols.len(),
        symbols[j].name@ == calls[k].callee_name@,
        forall|m: int| j < m < symbols.len() ==> (#[trigger] symbols[m]).name@ != symbols[j].name@,
        is_innermost(symbols, calls[k].caller_span, i),
    ensures
        exists|m: int| 0 <= m < graph_edges(path, lang, symbols, imports, calls, impls).len() && {
            let e = #[trigger] graph_edges(path, lang, symbols, imports, calls, impls)[m];
            &&& e.source == def_address(path, symbols[i])
            &&& e.target == def_address(path, symbols[j])
            &&& e.relation == Relation::Calls
            &&& e.confidence == CONFIDENCE_MEDIUM
        },
{
    lemma_local_lookup_last(path, symbols, j);
    let span = calls[k].caller_span;
    assert(exists|x: int| is_innermost(symbols, span, x));
    let c = choose|x: int| is_innermost(symbols, span, x);
    lemma_innermost_unique(symbols, span, c, i);
    assert(innermost_index(symbols, span) == Some(i));
    let t = def_address(path, symbols[j]);
    lemma_call_edges_include(path, lang, symbols, calls, k, i, t);
    let ce = call_edges(path, lang, symbols, calls);
    let e = plain_edge(def_address(path, symbols[i]), t, Relation::Calls, CONFIDENCE_MEDIUM, tool_provenance(lang));
    let q = choose|q: int| 0 <= q < ce.len() && ce[q] == e;
    let pre = contains_edges(path, lang, symbols) + import_edges(path, lang, symbols, imports);
    let all = graph_edges(path, lang, symbols, imports, calls, impls);
    assert(all == pre + ce + impl_edges(path, lang, symbols, impls));
    assert(all[pre.len() + q] == e);
}

} // verus!
