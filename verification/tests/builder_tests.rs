use codegenome::graph::{CallRef, ImplRef, ImportRef, NodeKind, Relation, Source, Span, SymbolDef};
use codegenome::identity::address_of;
use codegenome::lang::builder::{build_file_graph, file_address, symbol_address};

fn span(start_byte: u32, end_byte: u32, start_line: u32, end_line: u32) -> Span {
    Span { start_byte, end_byte, start_line, end_line }
}

fn def(name: &str, kind: &str, s: Span) -> SymbolDef {
    SymbolDef { name: name.to_string(), source_kind: kind.to_string(), span: s }
}

const SRC: &[u8] = b"fn helper() {}\nfn outer() {\n    fn inner() { helper(); }\n    inner();\n}\ntrait Greet {}\nstruct Bot;\nimpl Greet for Bot {}\n";

fn symbols() -> Vec<SymbolDef> {
    vec![
        def("helper", "function_item", span(0, 14, 1, 1)),
        def("outer", "function_item", span(15, 71, 2, 5)),
        def("inner", "function_item", span(32, 56, 3, 3)),
        def("Greet", "trait_item", span(72, 86, 6, 6)),
        def("Bot", "struct_item", span(87, 98, 7, 7)),
    ]
}

#[test]
fn file_graph_has_file_node_symbols_and_edges() {
    let syms = symbols();
    let imports = vec![ImportRef { imported_name: "helper".into() }, ImportRef { imported_name: "elsewhere".into() }];
    let calls = vec![
        CallRef { callee_name: "helper".into(), caller_span: span(32, 56, 3, 3) },
        CallRef { callee_name: "inner".into(), caller_span: span(61, 69, 4, 4) },
        CallRef { callee_name: "missing".into(), caller_span: span(61, 69, 4, 4) },
    ];
    let impls = vec![
        ImplRef { implementing_type: "Bot".into(), trait_name: Some("Greet".into()) },
        ImplRef { implementing_type: "Bot".into(), trait_name: None },
    ];
    let (nodes, edges) = build_file_graph("src/lib.rs", SRC, "rust", &syms, &imports, &calls, &impls);

    let file = file_address("src/lib.rs");
    assert_eq!(nodes.len(), 6);
    assert_eq!(nodes[0].address, file);
    assert_eq!(nodes[0].kind, NodeKind::File);
    assert_eq!(nodes[0].content_hash, address_of(SRC));
    assert_eq!(nodes[0].provenance.actor, "tree-sitter-rust");
    assert_eq!(nodes[0].provenance.source, Source::ToolOutput);
    assert_eq!(nodes[1].address, symbol_address("src/lib.rs", "function_item", "helper"));
    assert_eq!(nodes[1].content_hash, address_of(b"fn helper() {}"));
    assert_eq!(nodes[1].span, Some(span(0, 14, 1, 1)));

    // five contains, one import, two calls, one implements
    assert_eq!(edges.len(), 9);
    assert!(edges[..5].iter().all(|e| e.relation == Relation::Contains && e.source == file && f64::from_bits(e.confidence) == 1.0));
    let helper = symbol_address("src/lib.rs", "function_item", "helper");
    let outer = symbol_address("src/lib.rs", "function_item", "outer");
    let inner = symbol_address("src/lib.rs", "function_item", "inner");
    assert_eq!(edges[5].relation, Relation::Imports);
    assert_eq!((edges[5].source, edges[5].target, edges[5].confidence), (file, helper, 0.8f64.to_bits()));
    // the call inside the nested fn is attributed to the innermost enclosing symbol
    assert_eq!(edges[6].relation, Relation::Calls);
    assert_eq!((edges[6].source, edges[6].target, edges[6].confidence), (inner, helper, 0.7f64.to_bits()));
    assert_eq!((edges[7].source, edges[7].target), (outer, inner));
    assert_eq!(edges[8].relation, Relation::Implements);
    assert_eq!(edges[8].source, symbol_address("src/lib.rs", "struct_item", "Bot"));
    assert_eq!(edges[8].target, symbol_address("src/lib.rs", "trait_item", "Greet"));
    assert_eq!(f64::from_bits(edges[8].confidence), 0.8);
}

#[test]
fn call_outside_every_symbol_makes_no_edge() {
    let syms = symbols();
    let calls = vec![CallRef { callee_name: "helper".into(), caller_span: span(0, 1, 40, 41) }];
    let (_, edges) = build_file_graph("src/lib.rs", SRC, "rust", &syms, &[], &calls, &[]);
    assert_eq!(edges.len(), 5);
}

#[test]
fn empty_file_graph_is_just_the_file_node() {
    let (nodes, edges) = build_file_graph("empty.py", b"", "python", &[], &[], &[], &[]);
    assert_eq!(nodes.len(), 1);
    assert_eq!(nodes[0].provenance.actor, "tree-sitter-python");
    assert!(edges.is_empty());
}
