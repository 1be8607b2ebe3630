//! W3C PROV-DM export of the graph's intrinsic provenance.
//!
//! Every node and every edge-claim becomes a `prov:Entity`; every distinct
//! provenance actor implies a `prov:Activity` and a `prov:Agent` associated
//! with it; each fact is linked to its producer by `wasGeneratedBy` and
//! `wasAttributedTo`. Facts from inference or belief assertion are labelled
//! AI-generated. The document is a set of keyed tables; rendering it as
//! PROV-JSON is a matter of writing each table out as a JSON object.

use vstd::prelude::*;

use crate::graph::{
    Edge, EdgeView, Node, NodeKind, NodeView, Provenance, ProvenanceView, Relation, Source, edges_view, nodes_view,
};
use crate::keyed::{find_key, keyed_map, keys_distinct, lemma_keyed_push, lemma_keyed_update};
use crate::text::{
    chars_of, decimal, hex_digit_char, hex_lower, is_alphanumeric, is_decimal_digit, lemma_decimal_digits, lemma_decimal_injective,
    push_char, push_decimal, push_hex, unicode_alphanumeric,
};

verus! {

/// LLM-derived or human-asserted beliefs are AI/assertion provenance;
/// tool output and consolidation are observation-grade.
pub open spec fn spec_is_ai_generated(source: Source, is_belief: bool) -> bool {
    is_belief || source == Source::Inferred
}

/// LLM-derived or human-asserted beliefs are AI/assertion provenance;
/// tool output and consolidation are observation-grade.
pub fn is_ai_generated(source: &Source, is_belief: bool) -> (r: bool)
    ensures
        r == spec_is_ai_generated(*source, is_belief),
{
    is_belief || *source == Source::Inferred
}

/// The PROV type of the activity that produced facts from `source`.
pub open spec fn spec_activity_type(source: Source) -> Seq<char> {
    match source {
        Source::ToolOutput => "cg:ToolExtraction"@,
        Source::Inferred => "cg:Inference"@,
        Source::UserStated => "cg:Assertion"@,
        Source::Consolidated => "cg:Consolidation"@,
    }
}

/// The PROV type of the activity that produced facts from `source`.
pub fn activity_type(source: &Source) -> (r: &'static str)
    ensures
        r@ == spec_activity_type(*source),
{
    match source {
        Source::ToolOutput => "cg:ToolExtraction",
        Source::Inferred => "cg:Inference",
        Source::UserStated => "cg:Assertion",
        Source::Consolidated => "cg:Consolidation",
    }
}

/// The PROV type of the agent behind facts from `source`: a person for
/// user-stated facts, software otherwise.
pub open spec fn spec_agent_type(source: Source) -> Seq<char> {
    match source {
        Source::UserStated => "prov:Person"@,
        _ => "prov:SoftwareAgent"@,
    }
}

/// The PROV type of the agent behind facts from `source`.
pub fn agent_type(source: &Source) -> (r: &'static str)
    ensures
        r@ == spec_agent_type(*source),
{
    match source {
        Source::UserStated => "prov:Person",
        _ => "prov:SoftwareAgent",
    }
}

/// The name of a node kind.
pub open spec fn kind_name(k: NodeKind) -> Seq<char> {
    match k {
        NodeKind::File => "File"@,
        NodeKind::Symbol => "Symbol"@,
        NodeKind::Belief => "Belief"@,
    }
}

/// The name of a node kind.
pub fn kind_label(k: NodeKind) -> (r: &'static str)
    ensures
        r@ == kind_name(k),
{
    match k {
        NodeKind::File => "File",
        NodeKind::Symbol => "Symbol",
        NodeKind::Belief => "Belief",
    }
}

/// The name of a relation.
pub open spec fn relation_name(r: Relation) -> Seq<char> {
    match r {
        Relation::Contains => "Contains"@,
        Relation::Calls => "Calls"@,
        Relation::Imports => "Imports"@,
        Relation::Implements => "Implements"@,
    }
}

/// The name of a relation.
pub fn relation_label(r: Relation) -> (s: &'static str)
    ensures
        s@ == relation_name(r),
{
    match r {
        Relation::Contains => "Contains",
        Relation::Calls => "Calls",
        Relation::Imports => "Imports",
        Relation::Implements => "Implements",
    }
}

/// The attributes of a PROV entity.
#[derive(Debug)]
pub enum EntityAttrs {
    /// A graph node: `cg:kind`, `cg:confidence`, `cg:contentHash`,
    /// `cg:startLine`/`cg:endLine` when it has a span, `cg:aiGenerated` when set.
    Node {
        kind: NodeKind,
        confidence: u64,
        content_hash: String,
        lines: Option<(u32, u32)>,
        ai_generated: bool,
    },
    /// An edge-claim: `cg:relation`, `cg:confidence`, `cg:source`, `cg:target`,
    /// `cg:evidence` when there is any, `cg:aiGenerated` when set.
    Claim {
        relation: Relation,
        confidence: u64,
        source: String,
        target: String,
        evidence: Vec<String>,
        ai_generated: bool,
    },
}

pub enum EntityAttrsView {
    Node { kind: NodeKind, confidence: u64, content_hash: Seq<char>, lines: Option<(u32, u32)>, ai_generated: bool },
    Claim {
        relation: Relation,
        confidence: u64,
        source: Seq<char>,
        target: Seq<char>,
        evidence: Seq<Seq<char>>,
        ai_generated: bool,
    },
}

impl View for EntityAttrs {
    type V = EntityAttrsView;

    open spec fn view(&self) -> EntityAttrsView {
        match self {
            EntityAttrs::Node { kind, confidence, content_hash, lines, ai_generated } => EntityAttrsView::Node {
                kind: *kind,
                confidence: *confidence,
                content_hash: content_hash@,
                lines: *lines,
                ai_generated: *ai_generated,
            },
            EntityAttrs::Claim { relation, confidence, source, target, evidence, ai_generated } => EntityAttrsView::Claim {
                relation: *relation,
                confidence: *confidence,
                source: source@,
                target: target@,
                evidence: evidence@.map_values(|s: String| s@),
                ai_generated: *ai_generated,
            },
        }
    }
}

/// A PROV agent: its type and the actor it stands for.
#[derive(Debug)]
pub struct AgentRecord {
    pub prov_type: &'static str,
    pub actor: String,
}

/// A PROV-DM document as keyed tables (entity, activity, agent,
/// wasAssociatedWith, wasGeneratedBy, wasAttributedTo).
#[derive(Debug)]
pub struct ProvDocument {
    pub entities: Vec<(String, EntityAttrs)>,
    /// Activity id and its `prov:type`.
    pub activities: Vec<(String, &'static str)>,
    pub agents: Vec<(String, AgentRecord)>,
    /// Association key and its (`prov:activity`, `prov:agent`).
    pub associations: Vec<(String, (String, String))>,
    /// Generation key and its (`prov:entity`, `prov:activity`, `prov:time`).
    pub generations: Vec<(String, (String, String, u64))>,
    /// Attribution key and its (`prov:entity`, `prov:agent`).
    pub attributions: Vec<(String, (String, String))>,
}

impl ProvDocument {
    pub open spec fn entities_view(&self) -> Seq<(Seq<char>, EntityAttrsView)> {
        self.entities@.map_values(|e: (String, EntityAttrs)| (e.0@, e.1@))
    }

    pub open spec fn activities_view(&self) -> Seq<(Seq<char>, Seq<char>)> {
        self.activities@.map_values(|e: (String, &'static str)| (e.0@, e.1@))
    }

    pub open spec fn agents_view(&self) -> Seq<(Seq<char>, (Seq<char>, Seq<char>))> {
        self.agents@.map_values(|e: (String, AgentRecord)| (e.0@, (e.1.prov_type@, e.1.actor@)))
    }

    pub open spec fn associations_view(&self) -> Seq<(Seq<char>, (Seq<char>, Seq<char>))> {
        self.associations@.map_values(|e: (String, (String, String))| (e.0@, (e.1.0@, e.1.1@)))
    }

    pub open spec fn generations_view(&self) -> Seq<(Seq<char>, (Seq<char>, Seq<char>, u64))> {
        self.generations@.map_values(|e: (String, (String, String, u64))| (e.0@, (e.1.0@, e.1.1@, e.1.2)))
    }

    pub open spec fn attributions_view(&self) -> Seq<(Seq<char>, (Seq<char>, Seq<char>))> {
        self.attributions@.map_values(|e: (String, (String, String))| (e.0@, (e.1.0@, e.1.1@)))
    }

    /// The keyed tables have no repeated key.
    pub open spec fn well_formed(&self) -> bool {
        &&& keys_distinct(self.entities_view())
        &&& keys_distinct(self.activities_view())
        &&& keys_distinct(self.agents_view())
        &&& keys_distinct(self.associations_view())
    }
}

/// The reference to a node: `cg:node:` and its address.
pub open spec fn node_ref(a: Seq<u8>) -> Seq<char> {
    "cg:node:"@ + hex_lower(a)
}

/// The entity id of an edge-claim: endpoints' short addresses, relation, and
/// the edge's position (distinct claims can share endpoints and relation).
pub open spec fn claim_id(e: EdgeView, i: int) -> Seq<char> {
    "cg:claim:"@ + hex_lower(e.source.take(4)) + ":"@ + relation_name(e.relation) + ":"@
        + hex_lower(e.target.take(4)) + ":"@ + decimal(i as nat)
}

/// The entity attributes of a node.
pub open spec fn node_attrs(n: NodeView) -> EntityAttrsView {
    EntityAttrsView::Node {
        kind: n.kind,
        confidence: n.confidence,
        content_hash: hex_lower(n.content_hash),
        lines: match n.span {
            Some(s) => Some((s.start_line, s.end_line)),
            None => None,
        },
        ai_generated: spec_is_ai_generated(n.provenance.source, n.kind == NodeKind::Belief),
    }
}

/// The entity attributes of an edge-claim.
pub open spec fn claim_attrs(e: EdgeView) -> EntityAttrsView {
    EntityAttrsView::Claim {
        relation: e.relation,
        confidence: e.confidence,
        source: node_ref(e.source),
        target: node_ref(e.target),
        evidence: e.evidence.map_values(|a: Seq<u8>| hex_lower(a)),
        ai_generated: spec_is_ai_generated(e.provenance.source, false),
    }
}

/// The entity ids of all facts: nodes, then edges.
pub open spec fn fact_ids(nodes: Seq<NodeView>, edges: Seq<EdgeView>) -> Seq<Seq<char>> {
    nodes.map_values(|n: NodeView| node_ref(n.address)) + edges.map(|i: int, e: EdgeView| claim_id(e, i))
}

/// The entity attributes of all facts: nodes, then edges.
pub open spec fn fact_attrs(nodes: Seq<NodeView>, edges: Seq<EdgeView>) -> Seq<EntityAttrsView> {
    nodes.map_values(|n: NodeView| node_attrs(n)) + edges.map_values(|e: EdgeView| claim_attrs(e))
}

/// The provenance of all facts: nodes, then edges.
pub open spec fn fact_provs(nodes: Seq<NodeView>, edges: Seq<EdgeView>) -> Seq<ProvenanceView> {
    nodes.map_values(|n: NodeView| n.provenance) + edges.map_values(|e: EdgeView| e.provenance)
}

/// Whether a character stands for itself in an id: a letter, a digit or `-`.
pub open spec fn id_safe(c: char) -> bool {
    unicode_alphanumeric(c) || c == '-'
}

/// The three bytes of a character's code point, most significant first.
pub open spec fn code_bytes(c: char) -> Seq<u8> {
    seq![((c as u32) / 65536) as u8, (((c as u32) / 256) % 256) as u8, ((c as u32) % 256) as u8]
}

/// How a character is written in an id: itself when it is id-safe, otherwise
/// its code point as six lowercase hex digits followed by `_`.
pub open spec fn slug_char(c: char) -> Seq<char> {
    if id_safe(c) {
        seq![c]
    } else {
        hex_lower(code_bytes(c)) + seq!['_']
    }
}

/// The actor name as written in ids: letters, digits and `-` as they are,
/// every other character escaped, so distinct actors get distinct ids.
pub open spec fn slug(actor: Seq<char>) -> Seq<char>
    decreases actor.len(),
{
    if actor.len() == 0 {
        Seq::empty()
    } else {
        slug(actor.drop_last()) + slug_char(actor.last())
    }
}

pub open spec fn activity_id(p: ProvenanceView) -> Seq<char> {
    "cg:activity:"@ + slug(p.actor)
}

pub open spec fn agent_id(p: ProvenanceView) -> Seq<char> {
    "cg:agent:"@ + slug(p.actor)
}

pub open spec fn association_key(p: ProvenanceView) -> Seq<char> {
    "_:assoc-"@ + slug(p.actor)
}

/// Entities by id: each fact's entity inserted in order, a later one
/// replacing an earlier one with the same id.
pub open spec fn entities_of(ids: Seq<Seq<char>>, attrs: Seq<EntityAttrsView>) -> Map<Seq<char>, EntityAttrsView>
    decreases ids.len(),
{
    if ids.len() == 0 || attrs.len() != ids.len() {
        Map::empty()
    } else {
        entities_of(ids.drop_last(), attrs.drop_last()).insert(ids.last(), attrs.last())
    }
}

/// Inserts unless the key is present.
pub open spec fn insert_absent<V>(m: Map<Seq<char>, V>, k: Seq<char>, v: V) -> Map<Seq<char>, V> {
    if m.contains_key(k) { m } else { m.insert(k, v) }
}

/// Activities by id: the first fact of each actor decides the activity's type.
pub open spec fn activities_of(provs: Seq<ProvenanceView>) -> Map<Seq<char>, Seq<char>>
    decreases provs.len(),
{
    if provs.len() == 0 {
        Map::empty()
    } else {
        insert_absent(activities_of(provs.drop_last()), activity_id(provs.last()), spec_activity_type(provs.last().source))
    }
}

/// Agents by id: the first fact of each actor decides the agent's type and actor.
pub open spec fn agents_of(provs: Seq<ProvenanceView>) -> Map<Seq<char>, (Seq<char>, Seq<char>)>
    decreases provs.len(),
{
    if provs.len() == 0 {
        Map::empty()
    } else {
        insert_absent(agents_of(provs.drop_last()), agent_id(provs.last()),
            (spec_agent_type(provs.last().source), provs.last().actor))
    }
}

/// One association of activity and agent per actor.
pub open spec fn associations_of(provs: Seq<ProvenanceView>) -> Map<Seq<char>, (Seq<char>, Seq<char>)>
    decreases provs.len(),
{
    if provs.len() == 0 {
        Map::empty()
    } else {
        insert_absent(associations_of(provs.drop_last()), association_key(provs.last()),
            (activity_id(provs.last()), agent_id(provs.last())))
    }
}

/// One generation per fact: `_:gen-<i>` links fact `i` to its activity, at its time.
pub open spec fn generations_of(ids: Seq<Seq<char>>, provs: Seq<ProvenanceView>) -> Seq<(Seq<char>, (Seq<char>, Seq<char>, u64))> {
    ids.map(|i: int, id: Seq<char>| ("_:gen-"@ + decimal(i as nat), (id, activity_id(provs[i]), provs[i].timestamp)))
}

/// One attribution per fact: `_:attr-<i>` links fact `i` to its agent.
pub open spec fn attributions_of(ids: Seq<Seq<char>>, provs: Seq<ProvenanceView>) -> Seq<(Seq<char>, (Seq<char>, Seq<char>))> {
    ids.map(|i: int, id: Seq<char>| ("_:attr-"@ + decimal(i as nat), (id, agent_id(provs[i]))))
}

/// The document holds exactly the tables for the given facts.
pub open spec fn describes(doc: ProvDocument, ids: Seq<Seq<char>>, attrs: Seq<EntityAttrsView>, provs: Seq<ProvenanceView>) -> bool {
    &&& doc.well_formed()
    &&& keyed_map(doc.entities_view()) == entities_of(ids, attrs)
    &&& keyed_map(doc.activities_view()) == activities_of(provs)
    &&& keyed_map(doc.agents_view()) == agents_of(provs)
    &&& keyed_map(doc.associations_view()) == associations_of(provs)
    &&& doc.generations_view() == generations_of(ids, provs)
    &&& doc.attributions_view() == attributions_of(ids, provs)
}

fn slug_of(actor: &String) -> (r: String)
    ensures
        r@ == slug(actor@),
{
    let v = chars_of(actor.as_str());
    let mut w = String::new();
    let mut i: usize = 0;
    while i < v.len()
        invariant
            i <= v@.len(),
            v@ == actor@,
            w@ == slug(v@.take(i as int)),
        decreases v@.len() - i,
    {
        let c = v[i];
        assert(v@.take(i + 1).drop_last() =~= v@.take(i as int));
        assert(v@.take(i + 1).last() == c);
        if is_alphanumeric(c) || c == '-' {
            push_char(&mut w, c);
            assert(w@ =~= slug(v@.take(i as int)) + slug_char(c));
        } else {
            let n: u32 = c as u32;
            let code: [u8; 3] = [(n / 65536) as u8, ((n / 256) % 256) as u8, (n % 256) as u8];
            assert(code@ =~= code_bytes(c));
            let ghost before = w@;
            push_hex(&mut w, code.as_slice());
            push_char(&mut w, '_');
            assert(w@ =~= before + slug_char(c));
        }
        i = i + 1;
    }
    assert(v@.take(v@.len() as int) =~= v@);
    w
}

proof fn lemma_hex_digit_injective(d1: nat, d2: nat)
    requires
        d1 < 16,
        d2 < 16,
        hex_digit_char(d1) == hex_digit_char(d2),
    ensures
        d1 == d2,
{
}

proof fn lemma_hex_lower_len(b: Seq<u8>)
    ensures
        hex_lower(b).len() == 2 * b.len(),
    decreases b.len(),
{
    if b.len() > 0 {
        lemma_hex_lower_len(b.drop_last());
    }
}

proof fn lemma_hex_lower_injective(a: Seq<u8>, b: Seq<u8>)
    requires
        a.len() == b.len(),
        hex_lower(a) == hex_lower(b),
    ensures
        a == b,
    decreases a.len(),
{
    if a.len() > 0 {
        let x = hex_lower(a);
        lemma_hex_lower_len(a.drop_last());
        lemma_hex_lower_len(b.drop_last());
        let n = x.len() as int;
        assert(x[n - 2] == hex_digit_char((a.last() / 16) as nat));
        assert(x[n - 2] == hex_digit_char((b.last() / 16) as nat));
        assert(x[n - 1] == hex_digit_char((a.last() % 16) as nat));
        assert(x[n - 1] == hex_digit_char((b.last() % 16) as nat));
        lemma_hex_digit_injective((a.last() / 16) as nat, (b.last() / 16) as nat);
        lemma_hex_digit_injective((a.last() % 16) as nat, (b.last() % 16) as nat);
        assert(a.last() == b.last());
        assert(hex_lower(a.drop_last()) =~= x.subrange(0, n - 2));
        assert(hex_lower(b.drop_last()) =~= x.subrange(0, n - 2));
        lemma_hex_lower_injective(a.drop_last(), b.drop_last());
        assert(a =~= a.drop_last().push(a.last()));
        assert(b =~= b.drop_last().push(b.last()));
    }
}

proof fn lemma_slug_char_shape(c: char)
    ensures
        slug_char(c).len() >= 1,
        id_safe(c) ==> slug_char(c).len() == 1 && slug_char(c)[0] == c && c != '_',
        !id_safe(c) ==> slug_char(c).len() == 7 && slug_char(c)[6] == '_',
{
    lemma_hex_lower_len(code_bytes(c));
}

proof fn lemma_escape_injective(c1: char, c2: char)
    requires
        !id_safe(c1),
        !id_safe(c2),
        slug_char(c1) == slug_char(c2),
    ensures
        c1 == c2,
{
    lemma_hex_lower_len(code_bytes(c1));
    lemma_hex_lower_len(code_bytes(c2));
    assert(hex_lower(code_bytes(c1)) =~= slug_char(c1).take(6));
    assert(hex_lower(code_bytes(c2)) =~= slug_char(c2).take(6));
    lemma_hex_lower_injective(code_bytes(c1), code_bytes(c2));
    let n1 = c1 as u32;
    let n2 = c2 as u32;
    assert(code_bytes(c1)[0] == code_bytes(c2)[0]);
    assert(code_bytes(c1)[1] == code_bytes(c2)[1]);
    assert(code_bytes(c1)[2] == code_bytes(c2)[2]);
    assert(n1 == n2);
}

/// Slugs tell actors apart: different actor names are written differently.
pub proof fn lemma_slug_injective(a: Seq<char>, b: Seq<char>)
    requires
        slug(a) == slug(b),
    ensures
        a == b,
    decreases a.len(),
{
    if a.len() == 0 {
        if b.len() > 0 {
            lemma_slug_char_shape(b.last());
        }
        assert(b.len() == 0);
        assert(a =~= b);
    } else {
        if b.len() == 0 {
            lemma_slug_char_shape(a.last());
            assert(false);
        }
        let x = slug(a);
        let ca = a.last();
        let cb = b.last();
        let sa = slug_char(ca);
        let sb = slug_char(cb);
        lemma_slug_char_shape(ca);
        lemma_slug_char_shape(cb);
        assert(x =~= slug(a.drop_last()) + sa);
        assert(x =~= slug(b.drop_last()) + sb);
        assert(x.last() == sa[sa.len() - 1]);
        assert(x.last() == sb[sb.len() - 1]);
        let n = x.len() as int;
        if id_safe(ca) {
            assert(id_safe(cb));
            assert(ca == cb);
        } else {
            assert(!id_safe(cb));
            assert(sa =~= x.subrange(n - 7, n));
            assert(sb =~= x.subrange(n - 7, n));
            lemma_escape_injective(ca, cb);
        }
        assert(slug(a.drop_last()) =~= x.subrange(0, n - sa.len()));
        assert(slug(b.drop_last()) =~= x.subrange(0, n - sb.len()));
        lemma_slug_injective(a.drop_last(), b.drop_last());
        assert(a =~= a.drop_last().push(ca));
        assert(b =~= b.drop_last().push(cb));
    }
}

/// Actor names made only of letters, digits and `-` are written as they are.
pub proof fn lemma_slug_keeps_safe_names(a: Seq<char>)
    requires
        forall|i: int| 0 <= i < a.len() ==> id_safe(#[trigger] a[i]),
    ensures
        slug(a) == a,
    decreases a.len(),
{
    if a.len() > 0 {
        assert forall|i: int| 0 <= i < a.drop_last().len() implies id_safe(#[trigger] a.drop_last()[i]) by {
            assert(a.drop_last()[i] == a[i]);
        }
        lemma_slug_keeps_safe_names(a.drop_last());
        assert(id_safe(a[a.len() - 1]));
        assert(slug(a) =~= a.drop_last().push(a.last()));
        assert(a =~= a.drop_last().push(a.last()));
    }
}

fn prefixed(prefix: &str, rest: &String) -> (r: String)
    ensures
        r@ == prefix@ + rest@,
{
    let mut s = String::from_str(prefix);
    s.append(rest.as_str());
    s
}

/// Link a fact to the activity and agent implied by its provenance, and record
/// its generation and attribution.
fn link_provenance(doc: &mut ProvDocument, entity_id: &String, prov: &Provenance)
    requires
        old(doc).well_formed(),
    ensures
        final(doc).well_formed(),
        final(doc).entities_view() == old(doc).entities_view(),
        final(doc).generations@.len() == old(doc).generations@.len() + 1,
        final(doc).attributions@.len() == old(doc).attributions@.len() + 1,
        keyed_map(final(doc).activities_view()) == insert_absent(keyed_map(old(doc).activities_view()), activity_id(prov@), spec_activity_type(prov.source)),
        keyed_map(final(doc).agents_view()) == insert_absent(keyed_map(old(doc).agents_view()), agent_id(prov@), (spec_agent_type(prov.source), prov.actor@)),
        keyed_map(final(doc).associations_view()) == insert_absent(keyed_map(old(doc).associations_view()), association_key(prov@), (activity_id(prov@), agent_id(prov@))),
        final(doc).generations_view() == old(doc).generations_view().push(
            ("_:gen-"@ + decimal(old(doc).generations@.len()), (entity_id@, activity_id(prov@), prov.timestamp.0))),
        final(doc).attributions_view() == old(doc).attributions_view().push(
            ("_:attr-"@ + decimal(old(doc).attributions@.len()), (entity_id@, agent_id(prov@)))),
{
    let slug = slug_of(&prov.actor);
    let activity = prefixed("cg:activity:", &slug);
    let agent = prefixed("cg:agent:", &slug);
    let assoc = prefixed("_:assoc-", &slug);

    let ghost acts = doc.activities_view();
    match find_key(&doc.activities, &activity) {
        Some(i) => {
            assert(acts[i as int].0 == activity@);
            assert(keyed_map(acts).contains_key(activity@));
        },
        None => {
            doc.activities.push((activity.clone(), activity_type(&prov.source)));
            proof {
                lemma_keyed_push(acts, activity@, spec_activity_type(prov.source));
                assert(doc.activities_view() =~= acts.push((activity@, spec_activity_type(prov.source))));
            }
        },
    }
    let ghost ags = doc.agents_view();
    match find_key(&doc.agents, &agent) {
        Some(i) => {
            assert(ags[i as int].0 == agent@);
            assert(keyed_map(ags).contains_key(agent@));
        },
        None => {
            doc.agents.push((agent.clone(), AgentRecord { prov_type: agent_type(&prov.source), actor: prov.actor.clone() }));
            proof {
                lemma_keyed_push(ags, agent@, (spec_agent_type(prov.source), prov.actor@));
                assert(doc.agents_view() =~= ags.push((agent@, (spec_agent_type(prov.source), prov.actor@))));
            }
        },
    }
    let ghost asc = doc.associations_view();
    match find_key(&doc.associations, &assoc) {
        Some(i) => {
            assert(asc[i as int].0 == assoc@);
            assert(keyed_map(asc).contains_key(assoc@));
        },
        None => {
            doc.associations.push((assoc.clone(), (activity.clone(), agent.clone())));
            proof {
                lemma_keyed_push(asc, assoc@, (activity@, agent@));
                assert(doc.associations_view() =~= asc.push((assoc@, (activity@, agent@))));
            }
        },
    }
    let mut gen_key = String::from_str("_:gen-");
    push_decimal(&mut gen_key, doc.generations.len() as u64);
    let ghost gens = doc.generations_view();
    doc.generations.push((gen_key, (entity_id.clone(), activity, prov.timestamp.0)));
    assert(doc.generations_view() =~= gens.push(
        ("_:gen-"@ + decimal(old(doc).generations@.len()), (entity_id@, activity_id(prov@), prov.timestamp.0))));
    let mut attr_key = String::from_str("_:attr-");
    push_decimal(&mut attr_key, doc.attributions.len() as u64);
    let ghost attrs = doc.attributions_view();
    doc.attributions.push((attr_key, (entity_id.clone(), agent)));
    assert(doc.attributions_view() =~= attrs.push(
        ("_:attr-"@ + decimal(old(doc).attributions@.len()), (entity_id@, agent_id(prov@)))));
}

/// Insert or replace the entity with id `id`.
fn upsert_entity(doc: &mut ProvDocument, id: String, attrs: EntityAttrs)
    requires
        old(doc).well_formed(),
    ensures
        final(doc).well_formed(),
        keyed_map(final(doc).entities_view()) == keyed_map(old(doc).entities_view()).insert(id@, attrs@),
        final(doc).activities == old(doc).activities,
        final(doc).agents == old(doc).agents,
        final(doc).associations == old(doc).associations,
        final(doc).generations == old(doc).generations,
        final(doc).attributions == old(doc).attributions,
{
    let ghost ents = doc.entities_view();
    let ghost idv = id@;
    let ghost av = attrs@;
    match find_key(&doc.entities, &id) {
        Some(i) => {
            doc.entities.set(i, (id, attrs));
            proof {
                lemma_keyed_update(ents, i as int, av);
                assert(doc.entities_view() =~= ents.update(i as int, (ents[i as int].0, av)));
            }
        },
        None => {
            doc.entities.push((id, attrs));
            proof {
                lemma_keyed_push(ents, idv, av);
                assert(doc.entities_view() =~= ents.push((idv, av)));
            }
        },
    }
}

proof fn lemma_prefix_step(ids: Seq<Seq<char>>, attrs: Seq<EntityAttrsView>, provs: Seq<ProvenanceView>, k: int)
    requires
        0 <= k < ids.len(),
        attrs.len() == ids.len(),
        provs.len() == ids.len(),
    ensures
        entities_of(ids.take(k + 1), attrs.take(k + 1)) == entities_of(ids.take(k), attrs.take(k)).insert(ids[k], attrs[k]),
        activities_of(provs.take(k + 1)) == insert_absent(activities_of(provs.take(k)), activity_id(provs[k]), spec_activity_type(provs[k].source)),
        agents_of(provs.take(k + 1)) == insert_absent(agents_of(provs.take(k)), agent_id(provs[k]), (spec_agent_type(provs[k].source), provs[k].actor)),
        associations_of(provs.take(k + 1)) == insert_absent(associations_of(provs.take(k)), association_key(provs[k]), (activity_id(provs[k]), agent_id(provs[k]))),
        generations_of(ids.take(k + 1), provs.take(k + 1)) == generations_of(ids.take(k), provs.take(k)).push(
            ("_:gen-"@ + decimal(k as nat), (ids[k], activity_id(provs[k]), provs[k].timestamp))),
        attributions_of(ids.take(k + 1), provs.take(k + 1)) == attributions_of(ids.take(k), provs.take(k)).push(
            ("_:attr-"@ + decimal(k as nat), (ids[k], agent_id(provs[k])))),
{
    assert(ids.take(k + 1).drop_last() =~= ids.take(k));
    assert(attrs.take(k + 1).drop_last() =~= attrs.take(k));
    assert(provs.take(k + 1).drop_last() =~= provs.take(k));
    assert(generations_of(ids.take(k + 1), provs.take(k + 1)) =~= generations_of(ids.take(k), provs.take(k)).push(
        ("_:gen-"@ + decimal(k as nat), (ids[k], activity_id(provs[k]), provs[k].timestamp))));
    assert(attributions_of(ids.take(k + 1), provs.take(k + 1)) =~= attributions_of(ids.take(k), provs.take(k)).push(
        ("_:attr-"@ + decimal(k as nat), (ids[k], agent_id(provs[k])))));
}

fn node_entity(n: &Node) -> (r: (String, EntityAttrs))
    ensures
        r.0@ == node_ref(n.address@),
        r.1@ == node_attrs(n@),
{
    let id = prefixed("cg:node:", &n.address.to_hex());
    let lines = match n.span {
        Some(s) => Some((s.start_line, s.end_line)),
        None => None,
    };
    let attrs = EntityAttrs::Node {
        kind: n.kind,
        confidence: n.confidence,
        content_hash: n.content_hash.to_hex(),
        lines,
        ai_generated: is_ai_generated(&n.provenance.source, n.kind == NodeKind::Belief),
    };
    (id, attrs)
}

fn claim_entity(e: &Edge, index: usize) -> (r: (String, EntityAttrs))
    ensures
        r.0@ == claim_id(e@, index as int),
        r.1@ == claim_attrs(e@),
{
    let mut id = String::from_str("cg:claim:");
    id.append(e.source.short_hex().as_str());
    id.append(":");
    id.append(relation_label(e.relation));
    id.append(":");
    id.append(e.target.short_hex().as_str());
    id.append(":");
    push_decimal(&mut id, index as u64);
    let mut evidence: Vec<String> = Vec::new();
    let mut k: usize = 0;
    while k < e.evidence.len()
        invariant
            k <= e.evidence@.len(),
            evidence@.map_values(|s: String| s@) == e@.evidence.take(k as int).map_values(|a: Seq<u8>| hex_lower(a)),
        decreases e.evidence@.len() - k,
    {
        let ghost before = evidence@;
        evidence.push(e.evidence[k].to_hex());
        assert(e@.evidence[k as int] == e.evidence@[k as int]@);
        assert(e@.evidence.take(k + 1) =~= e@.evidence.take(k as int).push(e.evidence@[k as int]@));
        assert(evidence@.map_values(|s: String| s@) =~= before.map_values(|s: String| s@).push(hex_lower(e.evidence@[k as int]@)));
        assert(e@.evidence.take(k + 1).map_values(|a: Seq<u8>| hex_lower(a))
            =~= e@.evidence.take(k as int).map_values(|a: Seq<u8>| hex_lower(a)).push(hex_lower(e.evidence@[k as int]@)));
        k = k + 1;
    }
    assert(e@.evidence.take(e@.evidence.len() as int) =~= e@.evidence);
    let attrs = EntityAttrs::Claim {
        relation: e.relation,
        confidence: e.confidence,
        source: prefixed("cg:node:", &e.source.to_hex()),
        target: prefixed("cg:node:", &e.target.to_hex()),
        evidence,
        ai_generated: is_ai_generated(&e.provenance.source, false),
    };
    (id, attrs)
}

/// Export nodes and edges as a PROV-DM document: nodes first, then edges,
/// each recorded as an entity and linked to its activity and agent.
pub fn to_prov_json(nodes: &[Node], edges: &[Edge]) -> (doc: ProvDocument)
    ensures
        describes(
            doc,
            fact_ids(nodes_view(nodes@), edges_view(edges@)),
            fact_attrs(nodes_view(nodes@), edges_view(edges@)),
            fact_provs(nodes_view(nodes@), edges_view(edges@)),
        ),
{
    let ghost nv = nodes_view(nodes@);
    let ghost ev = edges_view(edges@);
    let ghost ids = fact_ids(nv, ev);
    let ghost attrs = fact_attrs(nv, ev);
    let ghost provs = fact_provs(nv, ev);
    let mut doc = ProvDocument {
        entities: Vec::new(),
        activities: Vec::new(),
        agents: Vec::new(),
        associations: Vec::new(),
        generations: Vec::new(),
        attributions: Vec::new(),
    };
    proof {
        assert(ids.take(0) =~= Seq::<Seq<char>>::empty());
        assert(attrs.take(0) =~= Seq::<EntityAttrsView>::empty());
        assert(provs.take(0) =~= Seq::<ProvenanceView>::empty());
        assert(keyed_map(doc.entities_view()) =~= Map::<Seq<char>, EntityAttrsView>::empty());
        assert(keyed_map(doc.activities_view()) =~= Map::<Seq<char>, Seq<char>>::empty());
        assert(keyed_map(doc.agents_view()) =~= Map::<Seq<char>, (Seq<char>, Seq<char>)>::empty());
        assert(keyed_map(doc.associations_view()) =~= Map::<Seq<char>, (Seq<char>, Seq<char>)>::empty());
        assert(doc.generations_view() =~= generations_of(ids.take(0), provs.take(0)));
        assert(doc.attributions_view() =~= attributions_of(ids.take(0), provs.take(0)));
    }
    let n = nodes.len();
    let mut k: usize = 0;
    while k < nodes.len()
        invariant
            k <= n,
            n == nodes@.len(),
            nv == nodes_view(nodes@),
            ids == fact_ids(nv, ev),
            attrs == fact_attrs(nv, ev),
            provs == fact_provs(nv, ev),
            describes(doc, ids.take(k as int), attrs.take(k as int), provs.take(k as int)),
            doc.generations@.len() == k,
            doc.attributions@.len() == k,
        decreases n - k,
    {
        let node = &nodes[k];
        assert(nv[k as int] == node@);
        assert(ids[k as int] == node_ref(node@.address));
        assert(attrs[k as int] == node_attrs(node@));
        assert(provs[k as int] == node@.provenance);
        let (id, a) = node_entity(node);
        let ghost idv = id@;
        upsert_entity(&mut doc, id.clone(), a);
        link_provenance(&mut doc, &id, &node.provenance);
        proof {
            lemma_prefix_step(ids, attrs, provs, k as int);
        }
        k = k + 1;
    }
    let mut j: usize = 0;
    while j < edges.len()
        invariant
            j <= edges@.len(),
            n == nodes@.len(),
            ev == edges_view(edges@),
            nv == nodes_view(nodes@),
            ids == fact_ids(nv, ev),
            attrs == fact_attrs(nv, ev),
            provs == fact_provs(nv, ev),
            describes(doc, ids.take(n + j), attrs.take(n + j), provs.take(n + j)),
            doc.generations@.len() == n + j,
            doc.attributions@.len() == n + j,
        decreases edges@.len() - j,
    {
        let edge = &edges[j];
        assert(ev[j as int] == edge@);
        assert(ids[n + j] == claim_id(edge@, j as int));
        assert(attrs[n + j] == claim_attrs(edge@));
        assert(provs[n + j] == edge@.provenance);
        let (id, a) = claim_entity(edge, j);
        upsert_entity(&mut doc, id.clone(), a);
        link_provenance(&mut doc, &id, &edge.provenance);
        proof {
            lemma_prefix_step(ids, attrs, provs, n + j);
        }
        j = j + 1;
    }
    assert(ids.take(ids.len() as int) =~= ids);
    assert(attrs.take(attrs.len() as int) =~= attrs);
    assert(provs.take(provs.len() as int) =~= provs);
    doc
}

/// Every node and every edge is linked to exactly one generation and one
/// attribution.
pub proof fn lemma_one_generation_per_fact(doc: ProvDocument, nodes: Seq<NodeView>, edges: Seq<EdgeView>)
    requires
        describes(doc, fact_ids(nodes, edges), fact_attrs(nodes, edges), fact_provs(nodes, edges)),
    ensures
        doc.generations_view().len() == nodes.len() + edges.len(),
        doc.attributions_view().len() == nodes.len() + edges.len(),
        forall|k: int| 0 <= k < nodes.len() + edges.len() ==>
            (#[trigger] doc.generations_view()[k]).1.0 == fact_ids(nodes, edges)[k]
            && doc.attributions_view()[k].1.0 == fact_ids(nodes, edges)[k],
{
}

/// Every fact's entity is in the document.
pub proof fn lemma_every_fact_is_an_entity(ids: Seq<Seq<char>>, attrs: Seq<EntityAttrsView>, k: int)
    requires
        attrs.len() == ids.len(),
        0 <= k < ids.len(),
    ensures
        entities_of(ids, attrs).contains_key(ids[k]),
    decreases ids.len(),
{
    if k < ids.len() - 1 {
        assert(ids.drop_last()[k] == ids[k]);
        lemma_every_fact_is_an_entity(ids.drop_last(), attrs.drop_last(), k);
    }
}

proof fn lemma_claim_id_shape(e: EdgeView, i: int)
    requires
        i >= 0,
    ensures
        ({
            let p = "cg:claim:"@ + hex_lower(e.source.take(4)) + ":"@ + relation_name(e.relation) + ":"@
                + hex_lower(e.target.take(4)) + ":"@;
            &&& claim_id(e, i) == p + decimal(i as nat)
            &&& p.len() > 0
            &&& p[p.len() - 1] == ':'
        }),
{
    reveal_strlit(":");
    let p = "cg:claim:"@ + hex_lower(e.source.take(4)) + ":"@ + relation_name(e.relation) + ":"@
        + hex_lower(e.target.take(4)) + ":"@;
    assert(claim_id(e, i) =~= p + decimal(i as nat));
}

/// Claims are told apart by their position: edges at different positions get
/// different entity ids even when they share endpoints and relation.
pub proof fn lemma_claim_ids_distinct(e1: EdgeView, i: int, e2: EdgeView, j: int)
    requires
        0 <= i,
        0 <= j,
        i != j,
    ensures
        claim_id(e1, i) != claim_id(e2, j),
{
    lemma_claim_id_shape(e1, i);
    lemma_claim_id_shape(e2, j);
    let p1 = "cg:claim:"@ + hex_lower(e1.source.take(4)) + ":"@ + relation_name(e1.relation) + ":"@
        + hex_lower(e1.target.take(4)) + ":"@;
    let p2 = "cg:claim:"@ + hex_lower(e2.source.take(4)) + ":"@ + relation_name(e2.relation) + ":"@
        + hex_lower(e2.target.take(4)) + ":"@;
    let d1 = decimal(i as nat);
    let d2 = decimal(j as nat);
    lemma_decimal_digits(i as nat);
    lemma_decimal_digits(j as nat);
    if claim_id(e1, i) == claim_id(e2, j) {
        lemma_colon_prefix_split(p1, d1, p2, d2);
        lemma_decimal_injective(i as nat, j as nat);
    }
}

/// Two strings that each end in ':' followed by decimal digits split the same
/// way when they are equal.
proof fn lemma_colon_prefix_split(p1: Seq<char>, d1: Seq<char>, p2: Seq<char>, d2: Seq<char>)
    requires
        p1.len() > 0,
        p2.len() > 0,
        p1[p1.len() - 1] == ':',
        p2[p2.len() - 1] == ':',
        d1.len() >= 1,
        d2.len() >= 1,
        forall|k: int| 0 <= k < d1.len() ==> is_decimal_digit(#[trigger] d1[k]),
        forall|k: int| 0 <= k < d2.len() ==> is_decimal_digit(#[trigger] d2[k]),
        p1 + d1 == p2 + d2,
    ensures
        d1 == d2,
{
    let x = p1 + d1;
    assert(x.len() == p2.len() + d2.len());
    if p1.len() < p2.len() {
        let k = p2.len() - 1 - p1.len();
        assert(x[p2.len() - 1] == (p2 + d2)[p2.len() - 1]);
        assert(x[p2.len() - 1] == d1[k]);
        assert(is_decimal_digit(d1[k]));
    } else if p2.len() < p1.len() {
        let k = p1.len() - 1 - p2.len();
        assert(x[p1.len() - 1] == (p2 + d2)[p1.len() - 1]);
        assert((p2 + d2)[p1.len() - 1] == d2[k]);
        assert(is_decimal_digit(d2[k]));
    } else {
        assert(d1 =~= x.skip(p1.len() as int));
        assert(d2 =~= (p2 + d2).skip(p2.len() as int));
    }
}

/// Node entities and claim entities never share an id.
pub proof fn lemma_node_and_claim_ids_differ(a: Seq<u8>, e: EdgeView, i: int)
    ensures
        node_ref(a) != claim_id(e, i),
{
    reveal_strlit("cg:node:");
    reveal_strlit("cg:claim:");
    let x = node_ref(a);
    let y = claim_id(e, i);
    assert(x[3] == 'n');
    assert(y[3] == 'c');
}

proof fn lemma_prefix_cancel(p: Seq<char>, a: Seq<char>, b: Seq<char>)
    requires
        p + a == p + b,
    ensures
        a == b,
{
    assert(a =~= (p + a).skip(p.len() as int));
    assert(b =~= (p + b).skip(p.len() as int));
}

/// Distinct actors get distinct activity, agent and association ids.
pub proof fn lemma_distinct_actors_distinct_ids(p1: ProvenanceView, p2: ProvenanceView)
    requires
        p1.actor != p2.actor,
    ensures
        activity_id(p1) != activity_id(p2),
        agent_id(p1) != agent_id(p2),
        association_key(p1) != association_key(p2),
{
    if activity_id(p1) == activity_id(p2) {
        lemma_prefix_cancel("cg:activity:"@, slug(p1.actor), slug(p2.actor));
        lemma_slug_injective(p1.actor, p2.actor);
    }
    if agent_id(p1) == agent_id(p2) {
        lemma_prefix_cancel("cg:agent:"@, slug(p1.actor), slug(p2.actor));
        lemma_slug_injective(p1.actor, p2.actor);
    }
    if association_key(p1) == association_key(p2) {
        lemma_prefix_cancel("_:assoc-"@, slug(p1.actor), slug(p2.actor));
        lemma_slug_injective(p1.actor, p2.actor);
    }
}

proof fn lemma_agents_of_shape(provs: Seq<ProvenanceView>)
    ensures
        forall|j: int| 0 <= j < provs.len() ==> agents_of(provs).contains_key(agent_id(#[trigger] provs[j])),
        forall|k: Seq<char>| #[trigger] agents_of(provs).contains_key(k) ==> exists|j: int|
            0 <= j < provs.len() && agent_id(#[trigger] provs[j]) == k && agents_of(provs)[k].1 == provs[j].actor,
        forall|j: int| 0 <= j < provs.len() ==> activities_of(provs).contains_key(activity_id(#[trigger] provs[j])),
        forall|k: Seq<char>| #[trigger] activities_of(provs).contains_key(k) ==> exists|j: int|
            0 <= j < provs.len() && activity_id(#[trigger] provs[j]) == k,
    decreases provs.len(),
{
    if provs.len() > 0 {
        let init = provs.drop_last();
        lemma_agents_of_shape(init);
        let n = provs.len() - 1;
        assert forall|j: int| 0 <= j < n implies #[trigger] init[j] == provs[j] by {}
        assert forall|j: int| 0 <= j < provs.len() implies agents_of(provs).contains_key(agent_id(#[trigger] provs[j])) by {
            if j < n {
                assert(init[j] == provs[j]);
            }
        }
        assert forall|k: Seq<char>| #[trigger] agents_of(provs).contains_key(k) implies exists|j: int|
            0 <= j < provs.len() && agent_id(#[trigger] provs[j]) == k && agents_of(provs)[k].1 == provs[j].actor by {
            if agents_of(init).contains_key(k) {
                let j = choose|j: int| 0 <= j < init.len() && agent_id(#[trigger] init[j]) == k && agents_of(init)[k].1 == init[j].actor;
                assert(provs[j] == init[j]);
            } else {
                assert(agent_id(provs[n]) == k);
            }
        }
        assert forall|j: int| 0 <= j < provs.len() implies activities_of(provs).contains_key(activity_id(#[trigger] provs[j])) by {
            if j < n {
                assert(init[j] == provs[j]);
            }
        }
        assert forall|k: Seq<char>| #[trigger] activities_of(provs).contains_key(k) implies exists|j: int|
            0 <= j < provs.len() && activity_id(#[trigger] provs[j]) == k by {
            if activities_of(init).contains_key(k) {
                let j = choose|j: int| 0 <= j < init.len() && activity_id(#[trigger] init[j]) == k;
                assert(provs[j] == init[j]);
            } else {
                assert(activity_id(provs[n]) == k);
            }
        }
    }
}

/// One agent and one activity per distinct actor: every fact's actor has an
/// agent and an activity, the agent records that very actor, every agent and
/// activity belongs to some fact's actor, and distinct actors never share one.
pub proof fn lemma_one_agent_per_actor(provs: Seq<ProvenanceView>)
    ensures
        forall|i: int| 0 <= i < provs.len() ==> {
            &&& agents_of(provs).contains_key(agent_id(#[trigger] provs[i]))
            &&& agents_of(provs)[agent_id(provs[i])].1 == provs[i].actor
            &&& activities_of(provs).contains_key(activity_id(provs[i]))
        },
        forall|k: Seq<char>| #[trigger] agents_of(provs).contains_key(k) ==> exists|i: int|
            0 <= i < provs.len() && agent_id(#[trigger] provs[i]) == k,
        forall|k: Seq<char>| #[trigger] activities_of(provs).contains_key(k) ==> exists|i: int|
            0 <= i < provs.len() && activity_id(#[trigger] provs[i]) == k,
        forall|i: int, j: int| 0 <= i < provs.len() && 0 <= j < provs.len() && provs[i].actor != provs[j].actor ==> {
            &&& agent_id(#[trigger] provs[i]) != agent_id(#[trigger] provs[j])
            &&& activity_id(provs[i]) != activity_id(provs[j])
        },
{
    lemma_agents_of_shape(provs);
    assert forall|i: int| 0 <= i < provs.len() implies agents_of(provs)[agent_id(#[trigger] provs[i])].1 == provs[i].actor by {
        let k = agent_id(provs[i]);
        assert(agents_of(provs).contains_key(k));
        let j = choose|j: int| 0 <= j < provs.len() && agent_id(#[trigger] provs[j]) == k && agents_of(provs)[k].1 == provs[j].actor;
        if provs[j].actor != provs[i].actor {
            lemma_distinct_actors_distinct_ids(provs[j], provs[i]);
        }
    }
    assert forall|i: int, j: int| 0 <= i < provs.len() && 0 <= j < provs.len() && provs[i].actor != provs[j].actor implies {
        &&& agent_id(#[trigger] provs[i]) != agent_id(#[trigger] provs[j])
        &&& activity_id(provs[i]) != activity_id(provs[j])
    } by {
        lemma_distinct_actors_distinct_ids(provs[i], provs[j]);
    }
}

proof fn lemma_entities_last_write(ids: Seq<Seq<char>>, attrs: Seq<EntityAttrsView>, k: int)
    requires
        attrs.len() == ids.len(),
        0 <= k < ids.len(),
        forall|m: int| k < m < ids.len() ==> ids[m] != ids[k],
    ensures
        entities_of(ids, attrs).contains_key(ids[k]),
        entities_of(ids, attrs)[ids[k]] == attrs[k],
    decreases ids.len(),
{
    if k < ids.len() - 1 {
        assert(ids.drop_last()[k] == ids[k]);
        assert(attrs.drop_last()[k] == attrs[k]);
        assert forall|m: int| k < m < ids.drop_last().len() implies ids.drop_last()[m] != ids.drop_last()[k] by {
            assert(ids.drop_last()[m] == ids[m]);
        }
        lemma_entities_last_write(ids.drop_last(), attrs.drop_last(), k);
        assert(ids.last() != ids[k]);
    }
}

/// An exported claim keeps its edge's direction: the entity of the edge at
/// position `i` names the edge's source node as `cg:source` and its target
/// node as `cg:target`, with the edge's relation and confidence.
pub proof fn lemma_claims_keep_edge_direction(doc: ProvDocument, nodes: Seq<NodeView>, edges: Seq<EdgeView>, i: int)
    requires
        describes(doc, fact_ids(nodes, edges), fact_attrs(nodes, edges), fact_provs(nodes, edges)),
        0 <= i < edges.len(),
    ensures
        keyed_map(doc.entities_view()).contains_key(claim_id(edges[i], i)),
        keyed_map(doc.entities_view())[claim_id(edges[i], i)] matches EntityAttrsView::Claim { relation, confidence, source, target, .. }
            && source == "cg:node:"@ + hex_lower(edges[i].source)
            && target == "cg:node:"@ + hex_lower(edges[i].target)
            && relation == edges[i].relation
            && confidence == edges[i].confidence,
{
    let ids = fact_ids(nodes, edges);
    let attrs = fact_attrs(nodes, edges);
    let n = nodes.len() as int;
    let k = n + i;
    assert(ids[k] == claim_id(edges[i], i));
    assert(attrs[k] == claim_attrs(edges[i]));
    assert forall|m: int| k < m < ids.len() implies ids[m] != ids[k] by {
        assert(ids[m] == claim_id(edges[m - n], m - n));
        lemma_claim_ids_distinct(edges[m - n], m - n, edges[i], i);
    }
    lemma_entities_last_write(ids, attrs, k);
}

} // verus!
