use codegenome::tools::{
    invalid_arguments_message, listing_policy, parse_direction, results_count, select_tool, tool_catalog, Direction,
    ToolKind,
};

/// A stand-in for the server's argument decoding of the context tool's `line`
/// field (the decoding itself belongs to the JSON decoder outside the
/// library); what the library contributes, and what these tests check, is the
/// tool selection and the invalid-arguments error that frames the decoder's
/// complaint.
fn decode_context_line(arguments: Option<&serde_json::Value>) -> Result<u32, String> {
    let empty = serde_json::Value::Object(serde_json::Map::new());
    let args = arguments.unwrap_or(&empty);
    match args.get("line") {
        Some(v) => match v.as_u64() {
            Some(n) if n <= u32::MAX as u64 => Ok(n as u32),
            _ => Err(invalid_arguments_message("codegenome_context", &format!("invalid type: {v}, expected u32"))),
        },
        None => Err(invalid_arguments_message("codegenome_context", "missing field `line`")),
    }
}

#[test]
fn malformed_args_return_error_not_panic() {
    // `line` is required by the context tool but has the wrong type here.
    let mut m = serde_json::Map::new();
    m.insert("file".to_string(), serde_json::Value::String("src/lib.rs".to_string()));
    m.insert("line".to_string(), serde_json::Value::String("not-a-number".to_string()));
    let args = serde_json::Value::Object(m);
    assert_eq!(select_tool("codegenome_context").unwrap(), ToolKind::Context);
    let err = decode_context_line(Some(&args)).expect_err("malformed arguments must yield an error");
    assert!(err.contains("invalid arguments"), "error should identify invalid arguments, got: {}", err);
}

#[test]
fn missing_required_args_return_error() {
    assert!(select_tool("codegenome_context").is_ok());
    assert!(decode_context_line(None).is_err());
}

#[test]
fn unknown_tool_returns_error() {
    let err = select_tool("codegenome_nonexistent").expect_err("unknown tool must yield an error");
    assert!(err.contains("unknown tool"));
    assert_eq!(err, "unknown tool: codegenome_nonexistent");
}

#[test]
fn every_listed_tool_dispatches_by_its_name() {
    let tools = tool_catalog();
    assert_eq!(tools.len(), 11);
    for k in &tools {
        assert_eq!(select_tool(k.name()).unwrap(), *k);
        assert!(!k.description().is_empty());
    }
    assert_eq!(tools[0].name(), "codegenome_context");
    assert_eq!(tools[10].name(), "codegenome_assert");
    assert_eq!(ToolKind::Impact.description(), "Blast radius from a symbol change");
}

#[test]
fn direction_parsing_defaults_to_downstream() {
    assert_eq!(parse_direction("upstream"), Direction::Upstream);
    assert_eq!(parse_direction("both"), Direction::Both);
    assert_eq!(parse_direction("downstream"), Direction::Downstream);
    assert_eq!(parse_direction("Upstream"), Direction::Downstream);
    assert_eq!(parse_direction(""), Direction::Downstream);
}

#[test]
fn experiment_results_default_to_ten() {
    assert_eq!(results_count(0), 10);
    assert_eq!(results_count(3), 3);
}

#[test]
fn invalid_arguments_message_names_tool_and_cause() {
    assert_eq!(
        invalid_arguments_message("codegenome_trace", "missing field `entry`"),
        "invalid arguments for tool codegenome_trace: missing field `entry`"
    );
}

#[test]
fn tool_listing_is_cached_publicly_for_an_hour() {
    let p = listing_policy();
    assert_eq!(p.ttl_ms, 3_600_000);
    assert!(p.public_cache);
}
