use codegenome::graph::{Edge, Node, NodeKind, Provenance, Relation, Source, Span, Timestamp};
use codegenome::identity::{address_of, UorAddress};
use codegenome::query::{find_node_at, node_location, normalize_path, resolve_indexed_file, StoredOverlay};

fn test_provenance() -> Provenance {
    Provenance {
        source: Source::ToolOutput,
        actor: "test".to_string(),
        timestamp: Timestamp(0),
        justification: None,
    }
}

fn test_node(address: UorAddress, span: Option<Span>) -> Node {
    Node {
        address,
        kind: if span.is_some() { NodeKind::Symbol } else { NodeKind::File },
        provenance: test_provenance(),
        confidence: 1.0f64.to_bits(),
        created_at: Timestamp(0),
        content_hash: address_of(b"content"),
        span,
    }
}

fn contains_edge(file: UorAddress, symbol: UorAddress) -> Edge {
    Edge {
        source: file,
        target: symbol,
        relation: Relation::Contains,
        confidence: 1.0f64.to_bits(),
        provenance: test_provenance(),
        evidence: vec![],
    }
}

fn span(start_byte: u32, end_byte: u32, start_line: u32, end_line: u32) -> Span {
    Span { start_byte, end_byte, start_line, end_line }
}

#[test]
fn find_node_at_is_scoped_to_requested_file() {
    let a_file = "src/a.rs";
    let b_file = "src/b.rs";
    let a_file_addr = address_of(format!("file:{a_file}").as_bytes());
    let b_file_addr = address_of(format!("file:{b_file}").as_bytes());
    let alpha = address_of(b"alpha");
    let beta = address_of(b"beta");
    let s = span(0, 20, 1, 3);
    let overlay = StoredOverlay {
        nodes: vec![
            test_node(a_file_addr, None),
            test_node(alpha, Some(s)),
            test_node(b_file_addr, None),
            test_node(beta, Some(s)),
        ],
        edges: vec![contains_edge(a_file_addr, alpha), contains_edge(b_file_addr, beta)],
    };

    assert_eq!(find_node_at(&overlay, b_file, 2).unwrap(), Some(beta));
    assert_eq!(find_node_at(&overlay, a_file, 2).unwrap(), Some(alpha));
}

#[test]
fn find_node_at_prefers_innermost_symbol_in_file() {
    let file = "src/lib.rs";
    let file_addr = address_of(format!("file:{file}").as_bytes());
    let outer = address_of(b"outer");
    let inner = address_of(b"inner");
    let overlay = StoredOverlay {
        nodes: vec![
            test_node(file_addr, None),
            test_node(outer, Some(span(0, 100, 1, 20))),
            test_node(inner, Some(span(20, 60, 5, 8))),
        ],
        edges: vec![contains_edge(file_addr, outer), contains_edge(file_addr, inner)],
    };

    assert_eq!(find_node_at(&overlay, file, 6).unwrap(), Some(inner));
}

#[test]
fn resolve_indexed_file_supports_unique_relative_suffix_and_rejects_ambiguity() {
    let mut indexed = vec![
        "/workspace/project/src/a.rs".to_string(),
        "/workspace/project/src/b.rs".to_string(),
    ];

    assert_eq!(resolve_indexed_file(&indexed, "src/b.rs").unwrap(), "/workspace/project/src/b.rs");
    assert!(resolve_indexed_file(&indexed, "missing.rs").is_err());

    indexed.push("/other/project/src/b.rs".to_string());
    assert!(resolve_indexed_file(&indexed, "src/b.rs").is_err());
}

#[test]
fn find_node_at_without_covering_symbol_is_none() {
    let file = "src/lib.rs";
    let file_addr = address_of(format!("file:{file}").as_bytes());
    let f = address_of(b"f");
    let overlay = StoredOverlay {
        nodes: vec![test_node(file_addr, None), test_node(f, Some(span(0, 10, 1, 2)))],
        edges: vec![contains_edge(file_addr, f)],
    };
    assert_eq!(find_node_at(&overlay, file, 5).unwrap(), None);
    assert_eq!(find_node_at(&overlay, "src/other.rs", 1).unwrap(), None);
}

#[test]
fn find_node_at_reports_equally_specific_symbols() {
    let file = "src/lib.rs";
    let file_addr = address_of(format!("file:{file}").as_bytes());
    let x = address_of(b"x");
    let y = address_of(b"y");
    let overlay = StoredOverlay {
        nodes: vec![test_node(x, Some(span(0, 10, 3, 4))), test_node(y, Some(span(0, 10, 3, 4)))],
        edges: vec![contains_edge(file_addr, x), contains_edge(file_addr, y)],
    };
    assert_eq!(
        find_node_at(&overlay, file, 3).unwrap_err(),
        "2 equally specific symbols contain line 3 in src/lib.rs"
    );
}

#[test]
fn exact_path_wins_over_suffix_match() {
    let indexed = vec!["src/b.rs".to_string(), "/workspace/project/src/b.rs".to_string()];
    assert_eq!(resolve_indexed_file(&indexed, "./src/b.rs").unwrap(), "src/b.rs");
}

#[test]
fn resolve_indexed_file_error_messages() {
    let indexed = vec!["/p/src/b.rs".to_string(), "/q/src/b.rs".to_string()];
    assert_eq!(
        resolve_indexed_file(&indexed, "src/b.rs").unwrap_err(),
        "file path is ambiguous across 2 indexed sources: /p/src/b.rs, /q/src/b.rs"
    );
    assert_eq!(
        resolve_indexed_file(&indexed, "missing.rs").unwrap_err(),
        "file is not present in the index: missing.rs"
    );
    assert_eq!(resolve_indexed_file(&indexed, "./").unwrap_err(), "requested file path is empty");
}

#[test]
fn normalize_path_examples() {
    assert_eq!(normalize_path(".\\src\\a.rs"), "src/a.rs");
    assert_eq!(normalize_path("src/dir//"), "src/dir");
    assert_eq!(normalize_path("././a"), "./a");
    assert_eq!(normalize_path(""), "");
}

#[test]
fn node_location_shows_line_range_or_address() {
    let f = address_of(b"f");
    let g = address_of(b"g");
    let overlay = StoredOverlay { nodes: vec![test_node(f, Some(span(0, 10, 4, 9)))], edges: vec![] };
    assert_eq!(node_location(&overlay, &f), "line 4:9");
    assert_eq!(node_location(&overlay, &g), g.to_hex());
}

#[test]
fn overlay_exposes_its_nodes_and_edges() {
    let a = address_of(b"a");
    let overlay = StoredOverlay { nodes: vec![test_node(a, None)], edges: vec![contains_edge(a, a)] };
    assert_eq!(overlay.nodes().len(), 1);
    assert_eq!(overlay.edges()[0].target, a);
}
