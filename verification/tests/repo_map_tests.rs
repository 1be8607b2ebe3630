use codegenome::graph::{CallRef, Edge, Node, NodeKind, Provenance, Relation, Source, Span, SymbolDef, Timestamp};
use codegenome::identity::{address_of, UorAddress};
use codegenome::index::parser::parse_one;
use codegenome::index::resolver::{resolve_multi, FileRefs, FileSymbols};
use codegenome::lang::detect::SourceFile;
use codegenome::repo_map::{render_map, render_map_nodes, signature_line};

const SOURCE: &str = "pub fn entry() { helper(); }\nfn helper() {}\n";

fn span(start_byte: u32, end_byte: u32, start_line: u32, end_line: u32) -> Span {
    Span { start_byte, end_byte, start_line, end_line }
}

fn defs() -> Vec<SymbolDef> {
    vec![
        SymbolDef { name: "entry".into(), source_kind: "function_item".into(), span: span(0, 28, 1, 1) },
        SymbolDef { name: "helper".into(), source_kind: "function_item".into(), span: span(29, 43, 2, 2) },
    ]
}

/// The index of `src/lib.rs` as the Rust backend and the resolver produce it.
fn fixture() -> (Vec<SourceFile>, Vec<Node>, Vec<Edge>) {
    let files: Vec<SourceFile> = vec![("src/lib.rs".to_string(), SOURCE.as_bytes().to_vec())];
    let parsed = vec![parse_one("src/lib.rs", SOURCE.as_bytes(), "rust", &defs())];
    let symbols = vec![FileSymbols { path: "src/lib.rs".into(), symbols: defs() }];
    let refs = vec![FileRefs {
        path: "src/lib.rs".into(),
        imports: vec![],
        calls: vec![CallRef { callee_name: "helper".into(), caller_span: span(0, 28, 1, 1) }],
        impls: vec![],
    }];
    let resolved = resolve_multi(&parsed, &symbols, &refs);
    let mut nodes = Vec::new();
    let mut edges = Vec::new();
    for pf in parsed {
        nodes.extend(pf.nodes);
        edges.extend(pf.edges);
    }
    edges.extend(resolved.edges);
    (files, nodes, edges)
}

#[test]
fn map_lists_files_and_signature_lines() {
    let (files, nodes, edges) = fixture();
    let map = render_map_nodes(&files, &nodes, &edges);
    assert!(map.contains("## src/lib.rs"));
    assert!(map.contains("pub fn entry()"), "map: {map}");
    assert!(map.contains("fn helper()"));
    assert!(map.contains("(L1"), "line numbers present");
}

#[test]
fn map_carries_call_fan_in_out() {
    let (files, nodes, edges) = fixture();
    let map = render_map_nodes(&files, &nodes, &edges);
    // entry calls helper -> helper has fan-in, entry has fan-out
    assert!(map.contains("out:1"), "caller fan-out shown: {map}");
    assert!(map.contains("in:1"), "callee fan-in shown: {map}");
}

#[test]
fn unindexed_file_is_listed_without_symbols() {
    let files: Vec<SourceFile> = vec![("src/other.rs".to_string(), b"fn x() {}".to_vec())];
    let map = render_map_nodes(&files, &[], &[]);
    assert!(map.contains("## src/other.rs"));
    assert!(map.contains("no symbols indexed"));
}

#[test]
fn map_text_is_exact() {
    let (files, nodes, edges) = fixture();
    let map = render_map_nodes(&files, &nodes, &edges);
    let expected = "# Repo Map (CODEGENOME projection)\n\n\
Signature lines from the syntax overlay; `in`/`out` are call-edge fan-in/fan-out from the fused graph.\n\n\
## src/lib.rs\n\n\
- `pub fn entry() { helper(); }` (L1) \u{2014} in:0 out:1\n\
- `fn helper() {}` (L2) \u{2014} in:1 out:0\n\n";
    assert_eq!(map, expected);
}

#[test]
fn map_without_nodes_lists_no_rows() {
    let (files, _, edges) = fixture();
    let map = render_map(&files, &edges);
    assert!(map.contains("## src/lib.rs\n\n\n"));
    assert!(!map.contains("entry"));
}

#[test]
fn signature_line_is_first_line_without_opening_brace() {
    let src = b"pub fn entry() { helper(); }\nfn helper() {}\n";
    assert_eq!(signature_line(src, 0), "pub fn entry() { helper(); }");
    assert_eq!(signature_line(src, 29), "fn helper() {}");
    assert_eq!(signature_line(b"  fn run() {  \nbody", 0), "fn run()");
    assert_eq!(signature_line(b"struct S;", 0), "struct S;");
    assert_eq!(signature_line(b"  pub fn f(x: u8) {\n  body\n}", 0), "pub fn f(x: u8)");
    assert_eq!(signature_line(b"\tfn t()\xc2\xa0{ \r\n", 0), "fn t()");
    assert_eq!(signature_line("\u{3000}fn w() {".as_bytes(), 0), "fn w()");
    assert_eq!(signature_line(b"abc", 10), "");
}

fn prov() -> Provenance {
    Provenance { source: Source::ToolOutput, actor: "t".into(), timestamp: Timestamp(0), justification: None }
}

fn sym(address: UorAddress, s: Span) -> Node {
    Node {
        address,
        kind: NodeKind::Symbol,
        provenance: prov(),
        confidence: 1.0f64.to_bits(),
        created_at: Timestamp(0),
        content_hash: address_of(b""),
        span: Some(s),
    }
}

fn edge(source: UorAddress, target: UorAddress, relation: Relation) -> Edge {
    Edge { source, target, relation, confidence: 1.0f64.to_bits(), provenance: prov(), evidence: vec![] }
}

fn two_function_file() -> (Vec<SourceFile>, Vec<Node>, Vec<Edge>) {
    let files: Vec<SourceFile> = vec![("a.rs".to_string(), b"fn f() {\n  g();\n}\nfn g() {}\n".to_vec())];
    let a = address_of(b"A");
    let b = address_of(b"B");
    let f = address_of(b"file:a.rs");
    let nodes = vec![sym(a, span(0, 17, 1, 3)), sym(b, span(18, 27, 4, 4))];
    let edges = vec![edge(f, a, Relation::Contains), edge(f, b, Relation::Contains), edge(a, b, Relation::Calls)];
    (files, nodes, edges)
}

#[test]
fn two_function_map_is_exact() {
    let (files, nodes, edges) = two_function_file();
    assert_eq!(
        render_map_nodes(&files, &nodes, &edges),
        "# Repo Map (CODEGENOME projection)\n\nSignature lines from the syntax overlay; `in`/`out` are call-edge fan-in/fan-out from the fused graph.\n\n## a.rs\n\n- `fn f()` (L1\u{2013}3) \u{2014} in:0 out:1\n- `fn g() {}` (L4) \u{2014} in:1 out:0\n\n"
    );
}

#[test]
fn other_edges_and_repeated_containment_leave_the_map_unchanged() {
    let (files, nodes, mut edges) = two_function_file();
    let before = render_map_nodes(&files, &nodes, &edges);
    let a = address_of(b"A");
    let b = address_of(b"B");
    let f = address_of(b"file:a.rs");
    edges.push(edge(a, b, Relation::Imports));
    edges.push(edge(b, a, Relation::Implements));
    edges.push(edge(f, a, Relation::Contains));
    assert_eq!(render_map_nodes(&files, &nodes, &edges), before);
    edges.push(edge(b, a, Relation::Calls));
    assert_ne!(render_map_nodes(&files, &nodes, &edges), before);
}
