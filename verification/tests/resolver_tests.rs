use codegenome::graph::{CallRef, Edge, ImplRef, ImportRef, Relation, Span, SymbolDef};
use codegenome::identity::UorAddress;
use codegenome::index::parser::{parse_one, ParsedFile};
use codegenome::index::resolver::{build_symbol_table, resolve_multi, FileRefs, FileSymbols};
use codegenome::lang::builder::symbol_address;

fn span(start_byte: u32, end_byte: u32, start_line: u32, end_line: u32) -> Span {
    Span { start_byte, end_byte, start_line, end_line }
}

fn def(name: &str, s: Span) -> SymbolDef {
    SymbolDef { name: name.to_string(), source_kind: "function_item".to_string(), span: s }
}

fn call(callee: &str, caller: Span) -> CallRef {
    CallRef { callee_name: callee.to_string(), caller_span: caller }
}

fn edge_exists(edges: &[Edge], source: UorAddress, target: UorAddress) -> bool {
    edges.iter().any(|edge| edge.source == source && edge.target == target && edge.relation == Relation::Calls)
}

const MAIN: &str = "fixture/main.rs";
const DECOY: &str = "fixture/decoy.rs";
const MAIN_SRC: &[u8] = b"fn leaf() {}\nfn middle() {\n    leaf();\n}\nfn top() {\n    middle();\n}\n";
const DECOY_SRC: &[u8] = b"fn decoy_leaf() {}\nfn middle() {\n    decoy_leaf();\n}\n";

fn main_defs() -> Vec<SymbolDef> {
    vec![def("leaf", span(0, 12, 1, 1)), def("middle", span(13, 40, 2, 4)), def("top", span(41, 67, 5, 7))]
}

fn decoy_defs() -> Vec<SymbolDef> {
    vec![def("decoy_leaf", span(0, 18, 1, 1)), def("middle", span(19, 52, 2, 4))]
}

/// What the Rust backend extracts from the two fixture files.
fn fixture() -> (Vec<ParsedFile>, Vec<FileSymbols>, Vec<FileRefs>) {
    let parsed = vec![
        parse_one(MAIN, MAIN_SRC, "rust", &main_defs()),
        parse_one(DECOY, DECOY_SRC, "rust", &decoy_defs()),
    ];
    let files = vec![
        FileSymbols { path: MAIN.to_string(), symbols: main_defs() },
        FileSymbols { path: DECOY.to_string(), symbols: decoy_defs() },
    ];
    let refs = vec![
        FileRefs {
            path: MAIN.to_string(),
            imports: vec![],
            calls: vec![call("leaf", span(13, 40, 2, 4)), call("middle", span(41, 67, 5, 7))],
            impls: vec![],
        },
        FileRefs {
            path: DECOY.to_string(),
            imports: vec![],
            calls: vec![call("decoy_leaf", span(19, 52, 2, 4))],
            impls: vec![],
        },
    ];
    (parsed, files, refs)
}

#[test]
fn duplicate_names_and_overlapping_spans_remain_file_scoped() {
    let (parsed, files, refs) = fixture();
    let symbols = build_symbol_table(&files);

    let main_middle = symbols.resolve(MAIN, "middle").unwrap();
    let main_leaf = symbols.resolve(MAIN, "leaf").unwrap();
    let main_top = symbols.resolve(MAIN, "top").unwrap();
    let decoy_middle = symbols.resolve(DECOY, "middle").unwrap();
    let decoy_leaf = symbols.resolve(DECOY, "decoy_leaf").unwrap();

    assert_ne!(main_middle, decoy_middle);
    assert!(symbols.resolve("fixture/missing.rs", "middle").is_none());

    let resolved = resolve_multi(&parsed, &files, &refs);

    assert!(edge_exists(&resolved.edges, main_middle, main_leaf));
    assert!(edge_exists(&resolved.edges, main_top, main_middle));
    assert!(edge_exists(&resolved.edges, decoy_middle, decoy_leaf));
    assert!(!edge_exists(&resolved.edges, main_middle, decoy_leaf));
    assert!(!edge_exists(&resolved.edges, decoy_middle, main_leaf));
}

#[test]
fn unique_name_resolves_across_files() {
    let (_, files, _) = fixture();
    let symbols = build_symbol_table(&files);
    // `leaf` is defined once, in main.rs, so other files resolve it there.
    assert_eq!(
        symbols.resolve("fixture/other.rs", "leaf"),
        Some(symbol_address(MAIN, "function_item", "leaf"))
    );
    assert_eq!(
        symbols.resolve(MAIN, "middle"),
        Some(symbol_address(MAIN, "function_item", "middle"))
    );
}

#[test]
fn resolved_edges_carry_resolver_confidence_and_provenance() {
    let (parsed, files, _) = fixture();
    let refs = vec![FileRefs {
        path: "fixture/other.rs".to_string(),
        imports: vec![ImportRef { imported_name: "leaf".to_string() }, ImportRef { imported_name: "middle".to_string() }],
        calls: vec![],
        impls: vec![ImplRef { implementing_type: "top".to_string(), trait_name: Some("leaf".to_string()) }],
    }];
    let resolved = resolve_multi(&parsed, &files, &refs);
    // `middle` is ambiguous across files, so only `leaf` is imported.
    assert_eq!(resolved.edges.len(), 2);
    let import = &resolved.edges[0];
    assert_eq!(import.relation, Relation::Imports);
    assert_eq!(f64::from_bits(import.confidence), 0.8);
    assert_eq!(import.target, symbol_address(MAIN, "function_item", "leaf"));
    assert_eq!(import.provenance.actor, "heuristic-resolver");
    let implements = &resolved.edges[1];
    assert_eq!(implements.relation, Relation::Implements);
    assert_eq!(implements.source, symbol_address(MAIN, "function_item", "top"));
}

#[test]
fn calls_from_unknown_spans_are_dropped() {
    let (parsed, files, _) = fixture();
    let refs = vec![FileRefs {
        path: MAIN.to_string(),
        imports: vec![],
        calls: vec![call("leaf", span(0, 5, 9, 9)), call("nowhere", span(13, 40, 2, 4))],
        impls: vec![],
    }];
    let resolved = resolve_multi(&parsed, &files, &refs);
    assert!(resolved.edges.is_empty());
}

#[test]
fn parsed_file_holds_file_node_and_symbol_nodes() {
    let p = parse_one(MAIN, MAIN_SRC, "rust", &main_defs());
    assert_eq!(p.path, MAIN);
    assert_eq!(p.nodes.len(), 4);
    assert_eq!(p.edges.len(), 3);
    assert!(p.edges.iter().all(|e| e.relation == Relation::Contains && e.source == p.file_address));
    assert_eq!(p.nodes[1].address, symbol_address(MAIN, "function_item", "leaf"));
    assert_eq!(p.nodes[1].content_hash, codegenome::identity::address_of(b"fn leaf() {}"));
}

#[test]
fn file_paths_are_compared_by_components() {
    let (parsed, files, _) = fixture();
    let symbols = build_symbol_table(&files);
    let main_middle = symbols.resolve(MAIN, "middle").unwrap();
    assert_eq!(symbols.resolve("fixture//main.rs", "middle"), Some(main_middle));
    assert_eq!(symbols.resolve("fixture/./main.rs/", "middle"), Some(main_middle));
    // A leading `.` is a component of its own, so this names another file and
    // the ambiguous name does not resolve.
    assert_eq!(symbols.resolve("./fixture/main.rs", "middle"), None);

    let refs = vec![FileRefs {
        path: "fixture//main.rs".to_string(),
        imports: vec![],
        calls: vec![call("leaf", span(13, 40, 2, 4))],
        impls: vec![],
    }];
    let resolved = resolve_multi(&parsed, &files, &refs);
    assert!(edge_exists(&resolved.edges, main_middle, symbols.resolve(MAIN, "leaf").unwrap()));
}
