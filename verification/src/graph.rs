//! The code graph's value types: spans, nodes, edges, provenance, and the
//! language-neutral symbol records that language backends extract.
//!
//! A confidence is a probability in [0, 1] kept as the IEEE-754 bit pattern of
//! its `f64` value, so that it passes through the library unchanged.

use vstd::prelude::*;

use crate::identity::UorAddress;

verus! {

/// The confidence of an observed fact: the bit pattern of `1.0`.
pub const CONFIDENCE_FULL: u64 = 0x3ff0_0000_0000_0000;

/// The confidence of a resolved import or implementation: the bit pattern of `0.8`.
pub const CONFIDENCE_HIGH: u64 = 0x3fe9_9999_9999_999a;

/// The confidence of a resolved call: the bit pattern of `0.7`.
pub const CONFIDENCE_MEDIUM: u64 = 0x3fe6_6666_6666_6666;

/// A source range: byte offsets and 1-based line numbers.
#[derive(Clone, Copy, Debug, PartialEq, Eq, Structural)]
pub struct Span {
    pub start_byte: u32,
    pub end_byte: u32,
    pub start_line: u32,
    pub end_line: u32,
}

/// What a graph node stands for.
#[derive(Clone, Copy, Debug, PartialEq, Eq, Structural)]
pub enum NodeKind {
    File,
    Symbol,
    Belief,
}

/// The relation an edge asserts between two nodes.
#[derive(Clone, Copy, Debug, PartialEq, Eq, Structural)]
pub enum Relation {
    Contains,
    Calls,
    Imports,
    Implements,
}

/// Where a fact came from.
#[derive(Clone, Copy, Debug, PartialEq, Eq, Structural)]
pub enum Source {
    ToolOutput,
    Inferred,
    UserStated,
    Consolidated,
}

/// A point in time, in seconds.
#[derive(Clone, Copy, Debug, PartialEq, Eq, Structural)]
pub struct Timestamp(pub u64);

/// Who produced a fact, how, and when.
#[derive(Debug)]
pub struct Provenance {
    pub source: Source,
    pub actor: String,
    pub timestamp: Timestamp,
    pub justification: Option<String>,
}

pub struct ProvenanceView {
    pub source: Source,
    pub actor: Seq<char>,
    pub timestamp: u64,
    pub justification: Option<Seq<char>>,
}

impl View for Provenance {
    type V = ProvenanceView;

    open spec fn view(&self) -> ProvenanceView {
        ProvenanceView {
            source: self.source,
            actor: self.actor@,
            timestamp: self.timestamp.0,
            justification: match self.justification {
                Some(j) => Some(j@),
                None => None,
            },
        }
    }
}

impl Provenance {
    /// A copy of this provenance record.
    pub fn duplicate(&self) -> (r: Provenance)
        ensures
            r@ == self@,
    {
        Provenance {
            source: self.source,
            actor: self.actor.clone(),
            timestamp: self.timestamp,
            justification: match &self.justification {
                Some(j) => Some(j.clone()),
                None => None,
            },
        }
    }
}

/// A graph node. `confidence` is the bit pattern of an `f64`.
#[derive(Debug)]
pub struct Node {
    pub address: UorAddress,
    pub kind: NodeKind,
    pub provenance: Provenance,
    pub confidence: u64,
    pub created_at: Timestamp,
    pub content_hash: UorAddress,
    pub span: Option<Span>,
}

pub struct NodeView {
    pub address: Seq<u8>,
    pub kind: NodeKind,
    pub provenance: ProvenanceView,
    pub confidence: u64,
    pub created_at: u64,
    pub content_hash: Seq<u8>,
    pub span: Option<Span>,
}

impl View for Node {
    type V = NodeView;

    open spec fn view(&self) -> NodeView {
        NodeView {
            address: self.address@,
            kind: self.kind,
            provenance: self.provenance@,
            confidence: self.confidence,
            created_at: self.created_at.0,
            content_hash: self.content_hash@,
            span: self.span,
        }
    }
}

impl Node {
    /// A copy of this node.
    pub fn duplicate(&self) -> (r: Node)
        ensures
            r@ == self@,
    {
        Node {
            address: self.address,
            kind: self.kind,
            provenance: self.provenance.duplicate(),
            confidence: self.confidence,
            created_at: self.created_at,
            content_hash: self.content_hash,
            span: self.span,
        }
    }
}

/// A directed, typed edge carrying a confidence (an `f64` bit pattern) and the
/// addresses of the facts that support it.
#[derive(Debug)]
pub struct Edge {
    pub source: UorAddress,
    pub target: UorAddress,
    pub relation: Relation,
    pub confidence: u64,
    pub provenance: Provenance,
    pub evidence: Vec<UorAddress>,
}

pub struct EdgeView {
    pub source: Seq<u8>,
    pub target: Seq<u8>,
    pub relation: Relation,
    pub confidence: u64,
    pub provenance: ProvenanceView,
    pub evidence: Seq<Seq<u8>>,
}

/// The digests of a list of addresses.
pub open spec fn addresses_view(v: Seq<UorAddress>) -> Seq<Seq<u8>> {
    v.map_values(|a: UorAddress| a@)
}

impl View for Edge {
    type V = EdgeView;

    open spec fn view(&self) -> EdgeView {
        EdgeView {
            source: self.source@,
            target: self.target@,
            relation: self.relation,
            confidence: self.confidence,
            provenance: self.provenance@,
            evidence: addresses_view(self.evidence@),
        }
    }
}

/// A copy of a list of addresses.
pub fn copy_addresses(v: &Vec<UorAddress>) -> (r: Vec<UorAddress>)
    ensures
        r@ == v@,
{
    let mut r: Vec<UorAddress> = Vec::new();
    let mut i: usize = 0;
    while i < v.len()
        invariant
            i <= v@.len(),
            r@ == v@.take(i as int),
        decreases v@.len() - i,
    {
        r.push(v[i]);
        assert(v@.take(i as int).push(v@[i as int]) =~= v@.take(i + 1));
        i = i + 1;
    }
    assert(v@.take(v@.len() as int) =~= v@);
    r
}

impl Edge {
    /// A copy of this edge.
    pub fn duplicate(&self) -> (r: Edge)
        ensures
            r@ == self@,
    {
        Edge {
            source: self.source,
            target: self.target,
            relation: self.relation,
            confidence: self.confidence,
            provenance: self.provenance.duplicate(),
            evidence: copy_addresses(&self.evidence),
        }
    }
}

/// The views of a list of nodes.
pub open spec fn nodes_view(v: Seq<Node>) -> Seq<NodeView> {
    v.map_values(|n: Node| n@)
}

/// The views of a list of edges.
pub open spec fn edges_view(v: Seq<Edge>) -> Seq<EdgeView> {
    v.map_values(|e: Edge| e@)
}

/// A symbol definition extracted from a source file.
#[derive(Debug)]
pub struct SymbolDef {
    pub name: String,
    /// The grammar's node kind for the definition, such as `function_item`.
    pub source_kind: String,
    pub span: Span,
}

/// An imported name.
#[derive(Debug)]
pub struct ImportRef {
    pub imported_name: String,
}

/// A call of a named function from inside the span of its caller.
#[derive(Debug)]
pub struct CallRef {
    pub callee_name: String,
    pub caller_span: Span,
}

/// An implementation block: the type, and the trait when there is one.
#[derive(Debug)]
pub struct ImplRef {
    pub implementing_type: String,
    pub trait_name: Option<String>,
}

} // verus!
