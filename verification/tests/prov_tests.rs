use codegenome::graph::{Edge, Node, NodeKind, Provenance, Relation, Source, Span, Timestamp};
use codegenome::identity::address_of;
use codegenome::prov::{
    activity_type, agent_type, is_ai_generated, kind_label, relation_label, to_prov_json, EntityAttrs, ProvDocument,
};

fn node(kind: NodeKind, source: Source, actor: &str) -> Node {
    Node {
        address: address_of(format!("{kind:?}:{actor}").as_bytes()),
        kind,
        provenance: Provenance { source, actor: actor.into(), timestamp: Timestamp(42), justification: None },
        confidence: 1.0f64.to_bits(),
        created_at: Timestamp(42),
        content_hash: address_of(b"content"),
        span: None,
    }
}

fn entity<'a>(doc: &'a ProvDocument, id: &str) -> Option<&'a EntityAttrs> {
    doc.entities.iter().find(|(k, _)| k == id).map(|(_, v)| v)
}

fn ai_generated(attrs: &EntityAttrs) -> bool {
    match attrs {
        EntityAttrs::Node { ai_generated, .. } => *ai_generated,
        EntityAttrs::Claim { ai_generated, .. } => *ai_generated,
    }
}

#[test]
fn nodes_become_entities_with_generation_and_attribution() {
    let n = node(NodeKind::Symbol, Source::ToolOutput, "tree-sitter-rust");
    let doc = to_prov_json(&[n.duplicate()], &[]);

    let entity_id = format!("cg:node:{}", n.address.to_hex());
    let attrs = entity(&doc, &entity_id).expect("entity present");
    match attrs {
        EntityAttrs::Node { kind, .. } => assert_eq!(kind_label(*kind), "Symbol"),
        EntityAttrs::Claim { .. } => panic!("a node must become a node entity"),
    }

    assert_eq!(doc.generations.len(), 1);
    assert_eq!(doc.attributions.len(), 1);

    let agent = doc.agents.iter().find(|(k, _)| k == "cg:agent:tree-sitter-rust").unwrap();
    assert_eq!(agent.1.prov_type, "prov:SoftwareAgent");
    let activity = doc.activities.iter().find(|(k, _)| k == "cg:activity:tree-sitter-rust").unwrap();
    assert_eq!(activity.1, "cg:ToolExtraction");
}

#[test]
fn edges_become_claim_entities_with_confidence_and_evidence() {
    let a = address_of(b"a");
    let b = address_of(b"b");
    let ev = address_of(b"evidence");
    let edge = Edge {
        source: a,
        target: b,
        relation: Relation::Calls,
        confidence: 0.94f64.to_bits(),
        provenance: Provenance {
            source: Source::Inferred,
            actor: "heuristic-resolver".into(),
            timestamp: Timestamp(7),
            justification: None,
        },
        evidence: vec![ev],
    };
    let doc = to_prov_json(&[], &[edge]);

    assert_eq!(doc.entities.len(), 1);
    let (_, claim) = &doc.entities[0];
    match claim {
        EntityAttrs::Claim { relation, confidence, evidence, ai_generated, .. } => {
            assert_eq!(relation_label(*relation), "Calls");
            assert_eq!(f64::from_bits(*confidence), 0.94);
            assert_eq!(evidence[0], ev.to_hex());
            assert!(*ai_generated, "inferred claims must be labelled AI-generated");
        }
        EntityAttrs::Node { .. } => panic!("an edge must become a claim entity"),
    }
}

#[test]
fn belief_nodes_are_labelled_ai_generated() {
    let n = node(NodeKind::Belief, Source::UserStated, "alice");
    let doc = to_prov_json(&[n.duplicate()], &[]);
    let entity_id = format!("cg:node:{}", n.address.to_hex());
    assert!(ai_generated(entity(&doc, &entity_id).unwrap()));
    // user-asserted beliefs attribute to a person, not software
    let agent = doc.agents.iter().find(|(k, _)| k == "cg:agent:alice").unwrap();
    assert_eq!(agent.1.prov_type, "prov:Person");
}

#[test]
fn compiler_grade_facts_are_not_labelled_ai_generated() {
    let n = node(NodeKind::File, Source::ToolOutput, "tree-sitter-rust");
    let doc = to_prov_json(&[n.duplicate()], &[]);
    let entity_id = format!("cg:node:{}", n.address.to_hex());
    assert!(!ai_generated(entity(&doc, &entity_id).unwrap()));
}

#[test]
fn claim_ids_carry_short_addresses_relation_and_position() {
    let a = address_of(b"");
    let prov = Provenance { source: Source::ToolOutput, actor: "x".into(), timestamp: Timestamp(1), justification: None };
    let e = |p: &Provenance| Edge {
        source: a,
        target: a,
        relation: Relation::Contains,
        confidence: 1.0f64.to_bits(),
        provenance: p.duplicate(),
        evidence: vec![],
    };
    let doc = to_prov_json(&[], &[e(&prov), e(&prov)]);
    assert_eq!(doc.entities.len(), 2);
    assert_eq!(doc.entities[0].0, "cg:claim:af1349b9:Contains:af1349b9:0");
    assert_eq!(doc.entities[1].0, "cg:claim:af1349b9:Contains:af1349b9:1");
}

#[test]
fn shared_actor_yields_one_activity_agent_and_association() {
    let n1 = node(NodeKind::Symbol, Source::ToolOutput, "tree-sitter-rust");
    let mut n2 = node(NodeKind::File, Source::ToolOutput, "tree-sitter-rust");
    n2.span = Some(Span { start_byte: 0, end_byte: 1, start_line: 3, end_line: 4 });
    let doc = to_prov_json(&[n1, n2], &[]);
    assert_eq!(doc.entities.len(), 2);
    assert_eq!(doc.activities.len(), 1);
    assert_eq!(doc.agents.len(), 1);
    assert_eq!(doc.associations.len(), 1);
    assert_eq!(doc.generations.len(), 2);
    assert_eq!(doc.attributions.len(), 2);
    assert_eq!(doc.generations[0].1 .2, 42);
}

#[test]
fn actor_names_are_escaped_in_ids() {
    let n = node(NodeKind::Symbol, Source::Consolidated, "my tool/v1");
    let doc = to_prov_json(&[n], &[]);
    assert_eq!(doc.agents[0].0, "cg:agent:my000020_tool00002f_v1");
    assert_eq!(doc.activities[0].0, "cg:activity:my000020_tool00002f_v1");
    assert_eq!(doc.activities[0].1, "cg:Consolidation");
}

#[test]
fn provenance_classification() {
    assert!(is_ai_generated(&Source::Inferred, false));
    assert!(is_ai_generated(&Source::ToolOutput, true));
    assert!(!is_ai_generated(&Source::UserStated, false));
    assert!(!is_ai_generated(&Source::Consolidated, false));
    assert_eq!(activity_type(&Source::Inferred), "cg:Inference");
    assert_eq!(activity_type(&Source::UserStated), "cg:Assertion");
    assert_eq!(agent_type(&Source::UserStated), "prov:Person");
    assert_eq!(agent_type(&Source::Inferred), "prov:SoftwareAgent");
}

#[test]
fn distinct_actors_get_distinct_agents() {
    let mut n1 = node(NodeKind::Symbol, Source::ToolOutput, "tree sitter");
    n1.address = address_of(b"one");
    let mut n2 = node(NodeKind::Symbol, Source::ToolOutput, "tree-sitter");
    n2.address = address_of(b"two");
    let doc = to_prov_json(&[n1, n2], &[]);
    assert_eq!(doc.agents.len(), 2);
    assert_eq!(doc.activities.len(), 2);
    assert_eq!(doc.associations.len(), 2);
    let actors: Vec<&str> = doc.agents.iter().map(|(_, a)| a.actor.as_str()).collect();
    assert!(actors.contains(&"tree sitter"));
    assert!(actors.contains(&"tree-sitter"));
    let agent = doc.agents.iter().find(|(k, _)| k == "cg:agent:tree-sitter").unwrap();
    assert_eq!(agent.1.actor, "tree-sitter");
}
