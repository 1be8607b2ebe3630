use codegenome::attest::{
    attest_store, digest_of, verify_statement, Artifact, IndexSummary, Statement, PREDICATE_TYPE, STATEMENT_TYPE,
};

fn artifact(name: &str, bytes: &[u8]) -> Artifact {
    (name.to_string(), bytes.to_vec())
}

/// What verification reads back from a store: for each subject, the bytes now
/// stored under its name, if the file is still there.
fn read_back(statement: &Statement, store: &[Artifact]) -> Vec<Option<Vec<u8>>> {
    statement
        .subjects
        .iter()
        .map(|s| store.iter().find(|(n, _)| *n == s.name).map(|(_, b)| b.clone()))
        .collect()
}

#[test]
fn attestation_covers_all_store_files_and_verifies() {
    let store = vec![artifact("fused.bin", b"overlay-bytes"), artifact("meta.json", b"{}")];
    let statement = attest_store("roundtrip", &store, None).unwrap();
    assert_eq!(statement.statement_type, STATEMENT_TYPE);
    assert_eq!(statement.predicate_type, PREDICATE_TYPE);
    assert_eq!(statement.statement_type, "https://in-toto.io/Statement/v1");
    assert_eq!(statement.predicate_type, "urn:codegenome:attestation:index-snapshot:v1");
    assert_eq!(statement.subjects.len(), 2);

    let failures = verify_statement(&statement.subjects, &read_back(&statement, &store));
    assert!(failures.is_empty(), "untouched store must verify");
}

#[test]
fn tampering_is_detected() {
    let store = vec![artifact("fused.bin", b"original")];
    let statement = attest_store("tamper", &store, None).unwrap();

    let tampered = vec![artifact("fused.bin", b"poisoned")];
    let failures = verify_statement(&statement.subjects, &read_back(&statement, &tampered));
    assert_eq!(failures.len(), 1);
    assert!(failures[0].contains("digest mismatch"));
}

#[test]
fn missing_artifact_is_detected() {
    let store = vec![artifact("fused.bin", b"original")];
    let statement = attest_store("missing", &store, None).unwrap();

    let emptied: Vec<Artifact> = vec![];
    let failures = verify_statement(&statement.subjects, &read_back(&statement, &emptied));
    assert_eq!(failures.len(), 1);
    assert!(failures[0].contains("missing"));
}

#[test]
fn empty_store_refuses_to_attest() {
    let store: Vec<Artifact> = vec![];
    assert!(attest_store("empty", &store, None).is_err());
}

#[test]
fn empty_store_error_names_the_directory() {
    let store: Vec<Artifact> = vec![];
    assert_eq!(attest_store("/tmp/empty", &store, None).unwrap_err(), "no store artifacts found in /tmp/empty");
}

#[test]
fn subjects_are_sorted_by_name_with_blake3_hex_digests() {
    let store = vec![artifact("z.bin", b"zz"), artifact("a.bin", b""), artifact("m.json", b"{}")];
    let index = IndexSummary { timestamp: 5, file_count: 1, node_count: 2, edge_count: 3 };
    let statement = attest_store("store", &store, Some(index)).unwrap();
    let names: Vec<&str> = statement.subjects.iter().map(|s| s.name.as_str()).collect();
    assert_eq!(names, vec!["a.bin", "m.json", "z.bin"]);
    assert_eq!(
        statement.subjects[0].digest,
        "af1349b9f5f9a1a6a0404dea36dcc9499bcb25c9adc112b7cc9a93cae41f3262"
    );
    assert_eq!(statement.store_dir, "store");
    assert_eq!(statement.index.unwrap().edge_count, 3);
}

#[test]
fn failures_are_reported_in_subject_order() {
    let store = vec![artifact("a", b"1"), artifact("b", b"2"), artifact("c", b"3")];
    let statement = attest_store("s", &store, None).unwrap();
    let later = vec![artifact("a", b"1"), artifact("c", b"changed")];
    let failures = verify_statement(&statement.subjects, &read_back(&statement, &later));
    assert_eq!(failures, vec!["b: missing".to_string(), "c: digest mismatch".to_string()]);
}

#[test]
fn digest_of_is_lowercase_hex() {
    assert_eq!(digest_of(b"abc"), "6437b3ac38465133ffb63b75273a8db548c558465d79db03fd359c6cd5bd9d85");
}
