//! Cross-file resolution of imports, calls and trait implementations.
//!
//! Names resolve file-first: a definition in the referring file wins;
//! otherwise a name resolves only when exactly one address carries it across
//! all files. Callers are found by the exact span of a parsed definition.

use vstd::prelude::*;

use crate::graph::{
    CONFIDENCE_HIGH, CONFIDENCE_MEDIUM, CallRef, Edge, EdgeView, ImplRef, ImportRef, ProvenanceView, Provenance, Relation, Source, Span,
    SymbolDef, Timestamp, edges_view, nodes_view,
};
use crate::identity::UorAddress;
use crate::paths::{paths_equal, same_path};
use crate::index::parser::ParsedFile;
use crate::lang::builder::{def_address, edge_of, file_address, plain_edge, spec_file_address, symbol_address};

verus! {

/// The definitions that a backend extracted from one file.
#[derive(Debug)]
pub struct FileSymbols {
    pub path: String,
    pub symbols: Vec<SymbolDef>,
}

/// The references that a backend extracted from one file.
#[derive(Debug)]
pub struct FileRefs {
    pub path: String,
    pub imports: Vec<ImportRef>,
    pub calls: Vec<CallRef>,
    pub impls: Vec<ImplRef>,
}

/// Edges inferred by resolution.
#[derive(Debug)]
pub struct ResolvedEdges {
    pub edges: Vec<Edge>,
}

/// A definition in the table: file path, name, address.
pub type DefinitionView = (Seq<char>, Seq<char>, Seq<u8>);

/// The definitions of one file, in order.
pub open spec fn file_definitions(path: Seq<char>, symbols: Seq<SymbolDef>) -> Seq<DefinitionView> {
    symbols.map_values(|s: SymbolDef| (path, s.name@, def_address(path, s)))
}

/// The definitions of all files, file by file.
pub open spec fn all_definitions(files: Seq<FileSymbols>) -> Seq<DefinitionView>
    decreases files.len(),
{
    if files.len() == 0 {
        Seq::empty()
    } else {
        all_definitions(files.drop_last()) + file_definitions(files.last().path@, files.last().symbols@)
    }
}

/// The address recorded last for `name` in the file at `path` (paths compared
/// by their components).
pub open spec fn scoped_lookup(defs: Seq<DefinitionView>, path: Seq<char>, name: Seq<char>) -> Option<Seq<u8>>
    decreases defs.len(),
{
    if defs.len() == 0 {
        None
    } else if same_path(defs.last().0, path) && defs.last().1 == name {
        Some(defs.last().2)
    } else {
        scoped_lookup(defs.drop_last(), path, name)
    }
}

/// Whether some definition named `name` has address `a`.
pub open spec fn is_candidate_address(defs: Seq<DefinitionView>, name: Seq<char>, a: Seq<u8>) -> bool {
    exists|i: int| 0 <= i < defs.len() && (#[trigger] defs[i]).1 == name && defs[i].2 == a
}

/// Whether `a` is the only address that any definition named `name` has.
pub open spec fn is_unique_candidate(defs: Seq<DefinitionView>, name: Seq<char>, a: Seq<u8>) -> bool {
    is_candidate_address(defs, name, a)
        && forall|b: Seq<u8>| is_candidate_address(defs, name, b) ==> b == a
}

/// What `name` used in the file at `path` resolves to: the file's own
/// definition, else the single address that the name has across all files.
pub open spec fn resolve_name(defs: Seq<DefinitionView>, path: Seq<char>, name: Seq<char>) -> Option<Seq<u8>> {
    match scoped_lookup(defs, path, name) {
        Some(a) => Some(a),
        None => if exists|a: Seq<u8>| is_unique_candidate(defs, name, a) {
            Some(choose|a: Seq<u8>| is_unique_candidate(defs, name, a))
        } else {
            None
        },
    }
}

proof fn lemma_scoped_lookup_finds(defs: Seq<DefinitionView>, path: Seq<char>, name: Seq<char>)
    ensures
        (exists|i: int| 0 <= i < defs.len() && same_path((#[trigger] defs[i]).0, path) && defs[i].1 == name)
            ==> scoped_lookup(defs, path, name) is Some,
        scoped_lookup(defs, path, name) matches Some(a) ==> exists|i: int|
            0 <= i < defs.len() && same_path((#[trigger] defs[i]).0, path) && defs[i].1 == name && defs[i].2 == a,
    decreases defs.len(),
{
    if defs.len() > 0 {
        let init = defs.drop_last();
        lemma_scoped_lookup_finds(init, path, name);
        if exists|i: int| 0 <= i < defs.len() && same_path((#[trigger] defs[i]).0, path) && defs[i].1 == name {
            let i = choose|i: int| 0 <= i < defs.len() && same_path((#[trigger] defs[i]).0, path) && defs[i].1 == name;
            if i < defs.len() - 1 {
                assert(init[i] == defs[i]);
            }
        }
        if let Some(a) = scoped_lookup(init, path, name) {
            let i = choose|i: int| 0 <= i < init.len() && same_path((#[trigger] init[i]).0, path) && init[i].1 == name && init[i].2 == a;
            assert(defs[i] == init[i]);
        }
    }
}

/// Resolution is file-scoped: a name that the file itself defines resolves to
/// one of that file's own definitions, whatever other files define; a name
/// the file does not define resolves only when every definition of it across
/// all files has one and the same address. A file is recognised by its path's
/// components, however the path is spelled.
pub proof fn lemma_resolution_is_file_scoped(defs: Seq<DefinitionView>, path: Seq<char>, name: Seq<char>)
    ensures
        (exists|i: int| 0 <= i < defs.len() && same_path((#[trigger] defs[i]).0, path) && defs[i].1 == name)
            ==> (resolve_name(defs, path, name) matches Some(a) && exists|i: int|
            0 <= i < defs.len() && same_path((#[trigger] defs[i]).0, path) && defs[i].1 == name && defs[i].2 == a),
        (forall|i: int| 0 <= i < defs.len() ==> !(same_path((#[trigger] defs[i]).0, path) && defs[i].1 == name))
            ==> (resolve_name(defs, path, name) matches Some(a) ==> is_unique_candidate(defs, name, a)),
{
    lemma_scoped_lookup_finds(defs, path, name);
    if forall|i: int| 0 <= i < defs.len() ==> !(same_path((#[trigger] defs[i]).0, path) && defs[i].1 == name) {
        if let Some(a) = scoped_lookup(defs, path, name) {
            let i = choose|i: int| 0 <= i < defs.len() && same_path((#[trigger] defs[i]).0, path) && defs[i].1 == name && defs[i].2 == a;
            assert(!(same_path(defs[i].0, path) && defs[i].1 == name));
        }
    }
}

struct Definition {
    path: String,
    name: String,
    address: UorAddress,
}

/// Symbol table over all indexed files.
pub struct SymbolTable {
    defs: Vec<Definition>,
}

impl SymbolTable {
    /// The definitions, in the order they were recorded.
    pub closed spec fn definitions(&self) -> Seq<DefinitionView> {
        self.defs@.map_values(|d: Definition| (d.path@, d.name@, d.address@))
    }

    /// Resolve `name` as used in the file at `path`.
    pub fn resolve(&self, path: &str, name: &str) -> (r: Option<UorAddress>)
        ensures
            match r {
                Some(a) => resolve_name(self.definitions(), path@, name@) == Some(a@),
                None => resolve_name(self.definitions(), path@, name@) is None,
            },
    {
        let ghost defs = self.definitions();
        let name_s = name.to_owned();
        let mut i: usize = self.defs.len();
        assert(defs.take(i as int) =~= defs);
        while i > 0
            invariant
                i <= defs.len(),
                defs == self.definitions(),
                name_s@ == name@,
                scoped_lookup(defs, path@, name@) == scoped_lookup(defs.take(i as int), path@, name@),
            decreases i,
        {
            let d = &self.defs[i - 1];
            assert(defs[i - 1] == (d.path@, d.name@, d.address@));
            assert(defs.take(i as int).drop_last() =~= defs.take(i - 1));
            assert(defs.take(i as int).last() == defs[i - 1]);
            if d.name == name_s && paths_equal(d.path.as_str(), path) {
                return Some(d.address);
            }
            i = i - 1;
        }
        assert(scoped_lookup(defs.take(0), path@, name@) is None);
        // No definition in the file: the name resolves only if it has a single address.
        let mut first: Option<UorAddress> = None;
        let mut k: usize = 0;
        while k < self.defs.len()
            invariant
                k <= defs.len(),
                defs == self.definitions(),
                name_s@ == name@,
                scoped_lookup(defs, path@, name@) is None,
                match first {
                    Some(a) => {
                        &&& is_candidate_address(defs, name@, a@)
                        &&& forall|j: int| 0 <= j < k && (#[trigger] defs[j]).1 == name@ ==> defs[j].2 == a@
                    },
                    None => forall|j: int| 0 <= j < k ==> (#[trigger] defs[j]).1 != name@,
                },
            decreases defs.len() - k,
        {
            let d = &self.defs[k];
            assert(defs[k as int] == (d.path@, d.name@, d.address@));
            if d.name == name_s {
                match first {
                    None => {
                        first = Some(d.address);
                    },
                    Some(a) => {
                        if !(a == d.address) {
                            proof {
                                assert(is_candidate_address(defs, name@, d.address@));
                                assert(!exists|c: Seq<u8>| is_unique_candidate(defs, name@, c)) by {
                                    if exists|c: Seq<u8>| is_unique_candidate(defs, name@, c) {
                                        let c = choose|c: Seq<u8>| is_unique_candidate(defs, name@, c);
                                        assert(a@ == c);
                                        assert(d.address@ == c);
                                    }
                                }
                            }
                            return None;
                        }
                    },
                }
            }
            k = k + 1;
        }
        match first {
            Some(a) => {
                proof {
                    assert(is_unique_candidate(defs, name@, a@));
                    let c = choose|c: Seq<u8>| is_unique_candidate(defs, name@, c);
                    assert(c == a@);
                }
                Some(a)
            },
            None => {
                assert(forall|b: Seq<u8>| !is_candidate_address(defs, name@, b));
                None
            },
        }
    }
}

/// Build the symbol table from the definitions of every file.
pub fn build_symbol_table(files: &[FileSymbols]) -> (t: SymbolTable)
    ensures
        t.definitions() == all_definitions(files@),
{
    let mut defs: Vec<Definition> = Vec::new();
    let mut f: usize = 0;
    while f < files.len()
        invariant
            f <= files@.len(),
            defs@.map_values(|d: Definition| (d.path@, d.name@, d.address@)) == all_definitions(files@.take(f as int)),
        decreases files@.len() - f,
    {
        let file = &files[f];
        let ghost base = defs@.map_values(|d: Definition| (d.path@, d.name@, d.address@));
        let mut i: usize = 0;
        while i < file.symbols.len()
            invariant
                i <= file.symbols@.len(),
                file == &files@[f as int],
                defs@.map_values(|d: Definition| (d.path@, d.name@, d.address@))
                    == base + file_definitions(file.path@, file.symbols@.take(i as int)),
            decreases file.symbols@.len() - i,
        {
            let s = &file.symbols[i];
            let ghost before = defs@;
            defs.push(Definition {
                path: file.path.clone(),
                name: s.name.clone(),
                address: symbol_address(file.path.as_str(), s.source_kind.as_str(), s.name.as_str()),
            });
            assert(defs@.map_values(|d: Definition| (d.path@, d.name@, d.address@))
                =~= before.map_values(|d: Definition| (d.path@, d.name@, d.address@)).push(
                    (file.path@, s.name@, def_address(file.path@, file.symbols@[i as int]))));
            assert(file_definitions(file.path@, file.symbols@.take(i + 1))
                =~= file_definitions(file.path@, file.symbols@.take(i as int)).push(
                    (file.path@, s.name@, def_address(file.path@, file.symbols@[i as int]))));
            i = i + 1;
        }
        assert(file.symbols@.take(file.symbols@.len() as int) =~= file.symbols@);
        assert(files@.take(f + 1).drop_last() =~= files@.take(f as int));
        assert(files@.take(f + 1).last() == files@[f as int]);
        f = f + 1;
    }
    assert(files@.take(files@.len() as int) =~= files@);
    SymbolTable { defs }
}

/// A span-index entry: file path, first line, last line, node address.
pub type SpanEntryView = (Seq<char>, u32, u32, Seq<u8>);

/// One entry per node of a file that has a span, in node order.
pub open spec fn node_span_entries(path: Seq<char>, nodes: Seq<crate::graph::NodeView>) -> Seq<SpanEntryView>
    decreases nodes.len(),
{
    if nodes.len() == 0 {
        Seq::empty()
    } else {
        let rest = node_span_entries(path, nodes.drop_last());
        match nodes.last().span {
            Some(s) => rest.push((path, s.start_line, s.end_line, nodes.last().address)),
            None => rest,
        }
    }
}

/// The span entries of all parsed files, file by file.
pub open spec fn all_span_entries(parsed: Seq<ParsedFile>) -> Seq<SpanEntryView>
    decreases parsed.len(),
{
    if parsed.len() == 0 {
        Seq::empty()
    } else {
        all_span_entries(parsed.drop_last()) + node_span_entries(parsed.last().path@, nodes_view(parsed.last().nodes@))
    }
}

/// The address recorded last for exactly this file (paths compared by their
/// components) and line range.
pub open spec fn span_lookup(entries: Seq<SpanEntryView>, path: Seq<char>, start: u32, end: u32) -> Option<Seq<u8>>
    decreases entries.len(),
{
    if entries.len() == 0 {
        None
    } else if same_path(entries.last().0, path) && entries.last().1 == start && entries.last().2 == end {
        Some(entries.last().3)
    } else {
        span_lookup(entries.drop_last(), path, start, end)
    }
}

struct SpanEntry {
    path: String,
    start_line: u32,
    end_line: u32,
    address: UorAddress,
}

/// Index from (file, first line, last line) to the node defined there.
pub struct SpanIndex {
    entries: Vec<SpanEntry>,
}

impl SpanIndex {
    /// The entries, in the order they were recorded.
    pub closed spec fn entries_view(&self) -> Seq<SpanEntryView> {
        self.entries@.map_values(|e: SpanEntry| (e.path@, e.start_line, e.end_line, e.address@))
    }
}

/// Index every node that has a span by its file and line range.
pub fn build_span_index(parsed: &[ParsedFile]) -> (index: SpanIndex)
    ensures
        index.entries_view() == all_span_entries(parsed@),
{
    let mut entries: Vec<SpanEntry> = Vec::new();
    let mut f: usize = 0;
    while f < parsed.len()
        invariant
            f <= parsed@.len(),
            entries@.map_values(|e: SpanEntry| (e.path@, e.start_line, e.end_line, e.address@)) == all_span_entries(parsed@.take(f as int)),
        decreases parsed@.len() - f,
    {
        let file = &parsed[f];
        let ghost base = entries@.map_values(|e: SpanEntry| (e.path@, e.start_line, e.end_line, e.address@));
        let ghost nv = nodes_view(file.nodes@);
        let mut i: usize = 0;
        while i < file.nodes.len()
            invariant
                i <= file.nodes@.len(),
                file == &parsed@[f as int],
                nv == nodes_view(file.nodes@),
                entries@.map_values(|e: SpanEntry| (e.path@, e.start_line, e.end_line, e.address@))
                    == base + node_span_entries(file.path@, nv.take(i as int)),
            decreases file.nodes@.len() - i,
        {
            let node = &file.nodes[i];
            assert(nv[i as int] == node@);
            assert(nv.take(i + 1).drop_last() =~= nv.take(i as int));
            assert(nv.take(i + 1).last() == nv[i as int]);
            if let Some(span) = node.span {
                let ghost before = entries@;
                entries.push(SpanEntry {
                    path: file.path.clone(),
                    start_line: span.start_line,
                    end_line: span.end_line,
                    address: node.address,
                });
                assert(entries@.map_values(|e: SpanEntry| (e.path@, e.start_line, e.end_line, e.address@))
                    =~= before.map_values(|e: SpanEntry| (e.path@, e.start_line, e.end_line, e.address@)).push(
                        (file.path@, span.start_line, span.end_line, node.address@)));
            }
            i = i + 1;
        }
        assert(nv.take(nv.len() as int) =~= nv);
        assert(parsed@.take(f + 1).drop_last() =~= parsed@.take(f as int));
        assert(parsed@.take(f + 1).last() == parsed@[f as int]);
        f = f + 1;
    }
    assert(parsed@.take(parsed@.len() as int) =~= parsed@);
    SpanIndex { entries }
}

/// The node defined with exactly the caller's line range in the file at `path`.
fn find_enclosing(path: &str, fn_span: &Span, spans: &SpanIndex) -> (r: Option<UorAddress>)
    ensures
        match r {
            Some(a) => span_lookup(spans.entries_view(), path@, fn_span.start_line, fn_span.end_line) == Some(a@),
            None => span_lookup(spans.entries_view(), path@, fn_span.start_line, fn_span.end_line) is None,
        },
{
    let ghost ev = spans.entries_view();
    let mut i: usize = spans.entries.len();
    assert(ev.take(i as int) =~= ev);
    while i > 0
        invariant
            i <= ev.len(),
            ev == spans.entries_view(),
            span_lookup(ev, path@, fn_span.start_line, fn_span.end_line) == span_lookup(ev.take(i as int), path@, fn_span.start_line, fn_span.end_line),
        decreases i,
    {
        let e = &spans.entries[i - 1];
        assert(ev[i - 1] == (e.path@, e.start_line, e.end_line, e.address@));
        assert(ev.take(i as int).drop_last() =~= ev.take(i - 1));
        assert(ev.take(i as int).last() == ev[i - 1]);
        if e.start_line == fn_span.start_line && e.end_line == fn_span.end_line && paths_equal(e.path.as_str(), path) {
            return Some(e.address);
        }
        i = i - 1;
    }
    None
}

/// The provenance of resolved edges.
pub open spec fn resolver_provenance() -> ProvenanceView {
    ProvenanceView { source: Source::Inferred, actor: "heuristic-resolver"@, timestamp: 0, justification: None }
}

/// One `Imports` edge from the file for each import that resolves.
pub open spec fn resolved_imports(defs: Seq<DefinitionView>, path: Seq<char>, imports: Seq<ImportRef>) -> Seq<EdgeView>
    decreases imports.len(),
{
    if imports.len() == 0 {
        Seq::empty()
    } else {
        let rest = resolved_imports(defs, path, imports.drop_last());
        match resolve_name(defs, path, imports.last().imported_name@) {
            Some(t) => rest.push(plain_edge(spec_file_address(path), t, Relation::Imports, CONFIDENCE_HIGH, resolver_provenance())),
            None => rest,
        }
    }
}

/// One `Calls` edge for each call whose callee resolves and whose caller span
/// is that of a parsed definition of the file.
pub open spec fn resolved_calls(defs: Seq<DefinitionView>, spans: Seq<SpanEntryView>, path: Seq<char>, calls: Seq<CallRef>) -> Seq<EdgeView>
    decreases calls.len(),
{
    if calls.len() == 0 {
        Seq::empty()
    } else {
        let rest = resolved_calls(defs, spans, path, calls.drop_last());
        let c = calls.last();
        match (resolve_name(defs, path, c.callee_name@), span_lookup(spans, path, c.caller_span.start_line, c.caller_span.end_line)) {
            (Some(t), Some(caller)) => rest.push(plain_edge(caller, t, Relation::Calls, CONFIDENCE_MEDIUM, resolver_provenance())),
            _ => rest,
        }
    }
}

/// One `Implements` edge for each trait implementation whose type and trait resolve.
pub open spec fn resolved_impls(defs: Seq<DefinitionView>, path: Seq<char>, impls: Seq<ImplRef>) -> Seq<EdgeView>
    decreases impls.len(),
{
    if impls.len() == 0 {
        Seq::empty()
    } else {
        let rest = resolved_impls(defs, path, impls.drop_last());
        let m = impls.last();
        match m.trait_name {
            Some(tn) => match (resolve_name(defs, path, m.implementing_type@), resolve_name(defs, path, tn@)) {
                (Some(a), Some(b)) => rest.push(plain_edge(a, b, Relation::Implements, CONFIDENCE_HIGH, resolver_provenance())),
                _ => rest,
            },
            None => rest,
        }
    }
}

/// The edges resolved for one file: imports, then calls, then implementations.
pub open spec fn resolved_file_edges(defs: Seq<DefinitionView>, spans: Seq<SpanEntryView>, r: FileRefs) -> Seq<EdgeView> {
    resolved_imports(defs, r.path@, r.imports@) + resolved_calls(defs, spans, r.path@, r.calls@)
        + resolved_impls(defs, r.path@, r.impls@)
}

/// The edges resolved for all files, file by file.
pub open spec fn resolved_edges(defs: Seq<DefinitionView>, spans: Seq<SpanEntryView>, refs: Seq<FileRefs>) -> Seq<EdgeView>
    decreases refs.len(),
{
    if refs.len() == 0 {
        Seq::empty()
    } else {
        resolved_edges(defs, spans, refs.drop_last()) + resolved_file_edges(defs, spans, refs.last())
    }
}

proof fn lemma_scoped_lookup_last(defs: Seq<DefinitionView>, path: Seq<char>, name: Seq<char>, j: int)
    requires
        0 <= j < defs.len(),
        same_path(defs[j].0, path),
        defs[j].1 == name,
        forall|m: int| j < m < defs.len() ==> !(same_path((#[trigger] defs[m]).0, path) && defs[m].1 == name),
    ensures
        scoped_lookup(defs, path, name) == Some(defs[j].2),
    decreases defs.len(),
{
    if j < defs.len() - 1 {
        let d = defs.drop_last();
        assert(d[j] == defs[j]);
        assert forall|m: int| j < m < d.len() implies !(same_path((#[trigger] d[m]).0, path) && d[m].1 == name) by {
            assert(d[m] == defs[m]);
        }
        lemma_scoped_lookup_last(d, path, name, j);
        assert(!(same_path(defs[defs.len() - 1].0, path) && defs[defs.len() - 1].1 == name));
    }
}

proof fn lemma_resolved_calls_include(defs: Seq<DefinitionView>, spans: Seq<SpanEntryView>, path: Seq<char>, calls: Seq<CallRef>, k: int, c: Seq<u8>, t: Seq<u8>)
    requires
        0 <= k < calls.len(),
        resolve_name(defs, path, calls[k].callee_name@) == Some(t),
        span_lookup(spans, path, calls[k].caller_span.start_line, calls[k].caller_span.end_line) == Some(c),
    ensures
        resolved_calls(defs, spans, path, calls).contains(plain_edge(c, t, Relation::Calls, CONFIDENCE_MEDIUM, resolver_provenance())),
    decreases calls.len(),
{
    let e = plain_edge(c, t, Relation::Calls, CONFIDENCE_MEDIUM, resolver_provenance());
    let all = resolved_calls(defs, spans, path, calls);
    let d = calls.drop_last();
    let rest = resolved_calls(defs, spans, path, d);
    if k == calls.len() - 1 {
        assert(all == rest.push(e));
        assert(all[all.len() - 1] == e);
    } else {
        assert(d[k] == calls[k]);
        lemma_resolved_calls_include(defs, spans, path, d, k, c, t);
        let m = choose|m: int| 0 <= m < rest.len() && rest[m] == e;
        assert(all[m] == e);
    }
}

proof fn lemma_resolved_edges_include(defs: Seq<DefinitionView>, spans: Seq<SpanEntryView>, refs: Seq<FileRefs>, f: int, e: EdgeView)
    requires
        0 <= f < refs.len(),
        resolved_file_edges(defs, spans, refs[f]).contains(e),
    ensures
        resolved_edges(defs, spans, refs).contains(e),
    decreases refs.len(),
{
    let all = resolved_edges(defs, spans, refs);
    let d = refs.drop_last();
    let rest = resolved_edges(defs, spans, d);
    let fe = resolved_file_edges(defs, spans, refs.last());
    assert(all == rest + fe);
    if f == refs.len() - 1 {
        let m = choose|m: int| 0 <= m < fe.len() && fe[m] == e;
        assert(all[rest.len() + m] == e);
    } else {
        assert(d[f] == refs[f]);
        lemma_resolved_edges_include(defs, spans, d, f, e);
        let m = choose|m: int| 0 <= m < rest.len() && rest[m] == e;
        assert(all[m] == e);
    }
}

/// Every resolvable call is recorded. For call `k` of file `f`, whose caller
/// span is that of the parsed definition `c` in the same file, and whose
/// callee is either defined in the calling file (the last such definition has
/// address `t`) or not defined there and defined elsewhere with the single
/// address `t` — in particular defined exactly once, in another file — the
/// resolved edges hold a `Calls` edge from `c` to `t` from the resolver.
pub proof fn lemma_every_resolvable_call_has_an_edge(
    defs: Seq<DefinitionView>,
    spans: Seq<SpanEntryView>,
    refs: Seq<FileRefs>,
    f: int,
    k: int,
    c: Seq<u8>,
    t: Seq<u8>,
)
    requires
        0 <= f < refs.len(),
        0 <= k < refs[f].calls@.len(),
        span_lookup(spans, refs[f].path@, refs[f].calls@[k].caller_span.start_line, refs[f].calls@[k].caller_span.end_line) == Some(c),
        (exists|j: int| 0 <= j < defs.len() && same_path((#[trigger] defs[j]).0, refs[f].path@)
            && defs[j].1 == refs[f].calls@[k].callee_name@ && defs[j].2 == t
            && forall|m: int| j < m < defs.len() ==> !(same_path((#[trigger] defs[m]).0, refs[f].path@)
                && defs[m].1 == refs[f].calls@[k].callee_name@))
        || ((forall|m: int| 0 <= m < defs.len() ==> !(same_path((#[trigger] defs[m]).0, refs[f].path@)
                && defs[m].1 == refs[f].calls@[k].callee_name@))
            && (exists|j: int| 0 <= j < defs.len() && (#[trigger] defs[j]).1 == refs[f].calls@[k].callee_name@ && defs[j].2 == t)
            && (forall|m: int| 0 <= m < defs.len() && (#[trigger] defs[m]).1 == refs[f].calls@[k].callee_name@ ==> defs[m].2 == t)),
    ensures
        exists|m: int| 0 <= m < resolved_edges(defs, spans, refs).len() && {
            let e = #[trigger] resolved_edges(defs, spans, refs)[m];
            &&& e.source == c
            &&& e.target == t
            &&& e.relation == Relation::Calls
            &&& e.confidence == CONFIDENCE_MEDIUM
            &&& e.provenance.actor == "heuristic-resolver"@
        },
{
    let path = refs[f].path@;
    let call = refs[f].calls@[k];
    let name = call.callee_name@;
    if exists|j: int| 0 <= j < defs.len() && same_path((#[trigger] defs[j]).0, path) && defs[j].1 == name && defs[j].2 == t
        && forall|m: int| j < m < defs.len() ==> !(same_path((#[trigger] defs[m]).0, path) && defs[m].1 == name) {
        let j = choose|j: int| 0 <= j < defs.len() && same_path((#[trigger] defs[j]).0, path) && defs[j].1 == name && defs[j].2 == t
            && forall|m: int| j < m < defs.len() ==> !(same_path((#[trigger] defs[m]).0, path) && defs[m].1 == name);
        lemma_scoped_lookup_last(defs, path, name, j);
    } else {
        lemma_scoped_lookup_finds(defs, path, name);
        if let Some(a) = scoped_lookup(defs, path, name) {
            let i = choose|i: int| 0 <= i < defs.len() && same_path((#[trigger] defs[i]).0, path) && defs[i].1 == name && defs[i].2 == a;
            assert(!(same_path(defs[i].0, path) && defs[i].1 == name));
        }
        assert(is_candidate_address(defs, name, t));
        assert(is_unique_candidate(defs, name, t));
        let u = choose|u: Seq<u8>| is_unique_candidate(defs, name, u);
        assert(u == t);
    }
    assert(resolve_name(defs, path, name) == Some(t));
    lemma_resolved_calls_include(defs, spans, path, refs[f].calls@, k, c, t);
    let e = plain_edge(c, t, Relation::Calls, CONFIDENCE_MEDIUM, resolver_provenance());
    let r = refs[f];
    let imp = resolved_imports(defs, path, r.imports@);
    let cal = resolved_calls(defs, spans, path, r.calls@);
    let fe = resolved_file_edges(defs, spans, r);
    assert(fe == imp + cal + resolved_impls(defs, path, r.impls@));
    let q = choose|q: int| 0 <= q < cal.len() && cal[q] == e;
    assert(fe[imp.len() + q] == e);
    lemma_resolved_edges_include(defs, spans, refs, f, e);
    let all = resolved_edges(defs, spans, refs);
    let m = choose|m: int| 0 <= m < all.len() && all[m] == e;
    assert(all[m] == e);
}

fn resolve_file(refs: &FileRefs, table: &SymbolTable, spans: &SpanIndex, prov: &Provenance, edges: &mut Vec<Edge>)
    requires
        prov@ == resolver_provenance(),
    ensures
        edges_view(final(edges)@) == edges_view(old(edges)@) + resolved_file_edges(table.definitions(), spans.entries_view(), *refs),
{
    let ghost defs = table.definitions();
    let ghost sv = spans.entries_view();
    let path = refs.path.as_str();
    let file_addr = file_address(path);
    let ghost start = edges_view(edges@);
    let mut k: usize = 0;
    while k < refs.imports.len()
        invariant
            k <= refs.imports@.len(),
            defs == table.definitions(),
            prov@ == resolver_provenance(),
            file_addr@ == spec_file_address(path@),
            path@ == refs.path@,
            edges_view(edges@) == start + resolved_imports(defs, path@, refs.imports@.take(k as int)),
        decreases refs.imports@.len() - k,
    {
        let ghost before = edges_view(edges@);
        assert(refs.imports@.take(k + 1).drop_last() =~= refs.imports@.take(k as int));
        assert(refs.imports@.take(k + 1).last() == refs.imports@[k as int]);
        if let Some(target) = table.resolve(path, refs.imports[k].imported_name.as_str()) {
            edges.push(edge_of(file_addr, target, Relation::Imports, CONFIDENCE_HIGH, prov));
            assert(edges_view(edges@) =~= before.push(plain_edge(file_addr@, target@, Relation::Imports, CONFIDENCE_HIGH, prov@)));
        }
        k = k + 1;
    }
    assert(refs.imports@.take(refs.imports@.len() as int) =~= refs.imports@);
    let ghost after_imports = edges_view(edges@);
    let mut k: usize = 0;
    while k < refs.calls.len()
        invariant
            k <= refs.calls@.len(),
            defs == table.definitions(),
            sv == spans.entries_view(),
            prov@ == resolver_provenance(),
            path@ == refs.path@,
            edges_view(edges@) == after_imports + resolved_calls(defs, sv, path@, refs.calls@.take(k as int)),
        decreases refs.calls@.len() - k,
    {
        let ghost before = edges_view(edges@);
        assert(refs.calls@.take(k + 1).drop_last() =~= refs.calls@.take(k as int));
        assert(refs.calls@.take(k + 1).last() == refs.calls@[k as int]);
        let call = &refs.calls[k];
        if let Some(callee) = table.resolve(path, call.callee_name.as_str()) {
            if let Some(caller) = find_enclosing(path, &call.caller_span, spans) {
                edges.push(edge_of(caller, callee, Relation::Calls, CONFIDENCE_MEDIUM, prov));
                assert(edges_view(edges@) =~= before.push(plain_edge(caller@, callee@, Relation::Calls, CONFIDENCE_MEDIUM, prov@)));
            }
        }
        k = k + 1;
    }
    assert(refs.calls@.take(refs.calls@.len() as int) =~= refs.calls@);
    let ghost after_calls = edges_view(edges@);
    let mut k: usize = 0;
    while k < refs.impls.len()
        invariant
            k <= refs.impls@.len(),
            defs == table.definitions(),
            prov@ == resolver_provenance(),
            path@ == refs.path@,
            edges_view(edges@) == after_calls + resolved_impls(defs, path@, refs.impls@.take(k as int)),
        decreases refs.impls@.len() - k,
    {
        let ghost before = edges_view(edges@);
        assert(refs.impls@.take(k + 1).drop_last() =~= refs.impls@.take(k as int));
        assert(refs.impls@.take(k + 1).last() == refs.impls@[k as int]);
        let m = &refs.impls[k];
        if let Some(trait_name) = &m.trait_name {
            if let Some(type_addr) = table.resolve(path, m.implementing_type.as_str()) {
                if let Some(trait_addr) = table.resolve(path, trait_name.as_str()) {
                    edges.push(edge_of(type_addr, trait_addr, Relation::Implements, CONFIDENCE_HIGH, prov));
                    assert(edges_view(edges@) =~= before.push(plain_edge(type_addr@, trait_addr@, Relation::Implements, CONFIDENCE_HIGH, prov@)));
                }
            }
        }
        k = k + 1;
    }
    assert(refs.impls@.take(refs.impls@.len() as int) =~= refs.impls@);
}

/// Resolve imports, calls and trait implementations across all files, using
/// the definitions of every file and the spans of the parsed nodes.
pub fn resolve_multi(parsed: &[ParsedFile], files: &[FileSymbols], refs: &[FileRefs]) -> (r: ResolvedEdges)
    ensures
        edges_view(r.edges@) == resolved_edges(all_definitions(files@), all_span_entries(parsed@), refs@),
{
    let prov = Provenance {
        source: Source::Inferred,
        actor: String::from_str("heuristic-resolver"),
        timestamp: Timestamp(0),
        justification: None,
    };
    let symbols = build_symbol_table(files);
    let spans = build_span_index(parsed);
    let mut edges: Vec<Edge> = Vec::new();
    let mut f: usize = 0;
    while f < refs.len()
        invariant
            f <= refs@.len(),
            prov@ == resolver_provenance(),
            symbols.definitions() == all_definitions(files@),
            spans.entries_view() == all_span_entries(parsed@),
            edges_view(edges@) == resolved_edges(symbols.definitions(), spans.entries_view(), refs@.take(f as int)),
        decreases refs@.len() - f,
    {
        resolve_file(&refs[f], &symbols, &spans, &prov, &mut edges);
        assert(refs@.take(f + 1).drop_last() =~= refs@.take(f as int));
        assert(refs@.take(f + 1).last() == refs@[f as int]);
        f = f + 1;
    }
    assert(refs@.take(refs@.len() as int) =~= refs@);
    ResolvedEdges { edges }
}

} // verus!
