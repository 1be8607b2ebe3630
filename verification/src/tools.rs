//! Decisions of the tool server: which tool a request names, how a
//! traversal direction is read, and how many experiment results to return.

use vstd::prelude::*;

use crate::text::{chars_equal, chars_of};

verus! {

/// Which way impact and context traversals follow edges.
#[derive(Clone, Copy, Debug, PartialEq, Eq, Structural)]
pub enum Direction {
    Downstream,
    Upstream,
    Both,
}

/// The direction a request names: `upstream`, `both`, or else downstream.
pub open spec fn direction_of(s: Seq<char>) -> Direction {
    if s == "upstream"@ {
        Direction::Upstream
    } else if s == "both"@ {
        Direction::Both
    } else {
        Direction::Downstream
    }
}

fn text_is(v: &Vec<char>, lit: &str) -> (r: bool)
    ensures
        r == (v@ == lit@),
{
    let w = chars_of(lit);
    chars_equal(v.as_slice(), w.as_slice())
}

/// The direction a request names: `upstream`, `both`, or else downstream.
pub fn parse_direction(s: &str) -> (r: Direction)
    ensures
        r == direction_of(s@),
{
    let v = chars_of(s);
    if text_is(&v, "upstream") {
        Direction::Upstream
    } else if text_is(&v, "both") {
        Direction::Both
    } else {
        Direction::Downstream
    }
}

/// The tools the server offers.
#[derive(Clone, Copy, Debug, PartialEq, Eq, Structural)]
pub enum ToolKind {
    Context,
    Impact,
    DetectChanges,
    Trace,
    Reindex,
    Status,
    ExperimentStart,
    ExperimentStatus,
    ExperimentResults,
    WorkspaceTrace,
    Assert,
}

/// The name under which a tool is offered.
pub open spec fn tool_name(k: ToolKind) -> Seq<char> {
    match k {
        ToolKind::Context => "codegenome_context"@,
        ToolKind::Impact => "codegenome_impact"@,
        ToolKind::DetectChanges => "codegenome_detect_changes"@,
        ToolKind::Trace => "codegenome_trace"@,
        ToolKind::Reindex => "codegenome_reindex"@,
        ToolKind::Status => "codegenome_status"@,
        ToolKind::ExperimentStart => "codegenome_experiment_start"@,
        ToolKind::ExperimentStatus => "codegenome_experiment_status"@,
        ToolKind::ExperimentResults => "codegenome_experiment_results"@,
        ToolKind::WorkspaceTrace => "codegenome_workspace_trace"@,
        ToolKind::Assert => "codegenome_assert"@,
    }
}

/// The description under which a tool is offered.
pub open spec fn tool_description(k: ToolKind) -> Seq<char> {
    match k {
        ToolKind::Context => "Retrieve context around a symbol via graph traversal"@,
        ToolKind::Impact => "Blast radius from a symbol change"@,
        ToolKind::DetectChanges => "Map git diff to affected symbols and impact"@,
        ToolKind::Trace => "Trace call chain from entrypoint"@,
        ToolKind::Reindex => "Write-gated re-index of source files"@,
        ToolKind::Status => "Index status and freshness report"@,
        ToolKind::ExperimentStart => "Start async experiment loop"@,
        ToolKind::ExperimentStatus => "Poll experiment progress"@,
        ToolKind::ExperimentResults => "Read last N experiment results"@,
        ToolKind::WorkspaceTrace => "Trace cross-repo workspace paths"@,
        ToolKind::Assert => "Write-gated: assert a belief about a code artifact"@,
    }
}

impl ToolKind {
    /// The name under which this tool is offered.
    pub fn name(&self) -> (r: &'static str)
        ensures
            r@ == tool_name(*self),
    {
        match self {
            ToolKind::Context => "codegenome_context",
            ToolKind::Impact => "codegenome_impact",
            ToolKind::DetectChanges => "codegenome_detect_changes",
            ToolKind::Trace => "codegenome_trace",
            ToolKind::Reindex => "codegenome_reindex",
            ToolKind::Status => "codegenome_status",
            ToolKind::ExperimentStart => "codegenome_experiment_start",
            ToolKind::ExperimentStatus => "codegenome_experiment_status",
            ToolKind::ExperimentResults => "codegenome_experiment_results",
            ToolKind::WorkspaceTrace => "codegenome_workspace_trace",
            ToolKind::Assert => "codegenome_assert",
        }
    }

    /// The description under which this tool is offered.
    pub fn description(&self) -> (r: &'static str)
        ensures
            r@ == tool_description(*self),
    {
        match self {
            ToolKind::Context => "Retrieve context around a symbol via graph traversal",
            ToolKind::Impact => "Blast radius from a symbol change",
            ToolKind::DetectChanges => "Map git diff to affected symbols and impact",
            ToolKind::Trace => "Trace call chain from entrypoint",
            ToolKind::Reindex => "Write-gated re-index of source files",
            ToolKind::Status => "Index status and freshness report",
            ToolKind::ExperimentStart => "Start async experiment loop",
            ToolKind::ExperimentStatus => "Poll experiment progress",
            ToolKind::ExperimentResults => "Read last N experiment results",
            ToolKind::WorkspaceTrace => "Trace cross-repo workspace paths",
            ToolKind::Assert => "Write-gated: assert a belief about a code artifact",
        }
    }
}

/// The tools in the order the server lists them.
pub open spec fn catalog() -> Seq<ToolKind> {
    seq![
        ToolKind::Context,
        ToolKind::Impact,
        ToolKind::DetectChanges,
        ToolKind::Trace,
        ToolKind::Reindex,
        ToolKind::Status,
        ToolKind::ExperimentStart,
        ToolKind::ExperimentStatus,
        ToolKind::ExperimentResults,
        ToolKind::WorkspaceTrace,
        ToolKind::Assert,
    ]
}

/// The tools in the order the server lists them.
pub fn tool_catalog() -> (r: Vec<ToolKind>)
    ensures
        r@ == catalog(),
{
    let r = vec![
        ToolKind::Context,
        ToolKind::Impact,
        ToolKind::DetectChanges,
        ToolKind::Trace,
        ToolKind::Reindex,
        ToolKind::Status,
        ToolKind::ExperimentStart,
        ToolKind::ExperimentStatus,
        ToolKind::ExperimentResults,
        ToolKind::WorkspaceTrace,
        ToolKind::Assert,
    ];
    assert(r@ =~= catalog());
    r
}

/// How clients may cache the tool listing.
#[derive(Clone, Copy, Debug, PartialEq, Eq, Structural)]
pub struct ListingPolicy {
    /// How long the listing stays fresh, in milliseconds.
    pub ttl_ms: u64,
    /// Whether shared (public) caches may keep it.
    pub public_cache: bool,
}

/// The caching policy sent with the tool listing: fresh for one hour, and
/// cacheable by public caches.
pub fn listing_policy() -> (p: ListingPolicy)
    ensures
        p.ttl_ms == 3_600_000,
        p.public_cache,
{
    ListingPolicy { ttl_ms: 3_600_000, public_cache: true }
}

/// The tool that a request names, if the server offers one by that name.
pub open spec fn tool_named(name: Seq<char>) -> Option<ToolKind> {
    if exists|i: int| 0 <= i < catalog().len() && tool_name(#[trigger] catalog()[i]) == name {
        Some(catalog()[choose|i: int| 0 <= i < catalog().len() && tool_name(#[trigger] catalog()[i]) == name])
    } else {
        None
    }
}

proof fn lemma_tool_names_distinct()
    ensures
        forall|a: ToolKind, b: ToolKind| tool_name(a) == tool_name(b) ==> a == b,
{
    reveal_strlit("codegenome_context");
    reveal_strlit("codegenome_impact");
    reveal_strlit("codegenome_detect_changes");
    reveal_strlit("codegenome_trace");
    reveal_strlit("codegenome_reindex");
    reveal_strlit("codegenome_status");
    reveal_strlit("codegenome_experiment_start");
    reveal_strlit("codegenome_experiment_status");
    reveal_strlit("codegenome_experiment_results");
    reveal_strlit("codegenome_workspace_trace");
    reveal_strlit("codegenome_assert");
    assert forall|a: ToolKind, b: ToolKind| tool_name(a) == tool_name(b) implies a == b by {
        if a != b {
            let (x, y) = (tool_name(a), tool_name(b));
            if x.len() == y.len() {
                assert(x[11] != y[11] || x[12] != y[12] || x[13] != y[13] || x[14] != y[14] || x[15] != y[15]
                    || x[16] != y[16] || x[17] != y[17] || x[22] != y[22] || x[23] != y[23]);
            }
        }
    }
}

/// Every tool the server lists is dispatched by the name it is listed under,
/// and no two listed tools share a name.
pub proof fn lemma_listed_tools_dispatch(i: int)
    requires
        0 <= i < catalog().len(),
    ensures
        tool_named(tool_name(catalog()[i])) == Some(catalog()[i]),
        forall|j: int| 0 <= j < catalog().len() && j != i ==> tool_name(#[trigger] catalog()[j]) != tool_name(catalog()[i]),
{
    lemma_tool_names_distinct();
    let name = tool_name(catalog()[i]);
    let c = choose|c: int| 0 <= c < catalog().len() && tool_name(#[trigger] catalog()[c]) == name;
    assert(catalog()[c] == catalog()[i]);
}

/// The tool that a request names; an unknown name yields the error that the
/// server answers with.
pub fn select_tool(name: &str) -> (r: Result<ToolKind, String>)
    ensures
        match r {
            Ok(k) => tool_named(name@) == Some(k),
            Err(e) => tool_named(name@) is None && e@ == "unknown tool: "@ + name@,
        },
{
    let v = chars_of(name);
    let tools = tool_catalog();
    let mut i: usize = 0;
    while i < tools.len()
        invariant
            i <= tools@.len(),
            tools@ == catalog(),
            v@ == name@,
            forall|j: int| 0 <= j < i ==> tool_name(#[trigger] catalog()[j]) != name@,
        decreases tools@.len() - i,
    {
        let k = tools[i];
        if text_is(&v, k.name()) {
            proof {
                lemma_tool_names_distinct();
                let c = choose|c: int| 0 <= c < catalog().len() && tool_name(#[trigger] catalog()[c]) == name@;
                assert(catalog()[c] == k);
            }
            return Ok(k);
        }
        i = i + 1;
    }
    let mut e = String::from_str("unknown tool: ");
    e.append(name);
    Err(e)
}

/// How many experiment results a request asks for: `last_n`, or 10 when it is 0.
pub fn results_count(last_n: u32) -> (r: usize)
    ensures
        r == if last_n == 0 { 10 } else { last_n as int },
{
    if last_n == 0 {
        10
    } else {
        last_n as usize
    }
}

/// The error text for arguments that do not fit a tool's input.
pub fn invalid_arguments_message(tool: &str, detail: &str) -> (r: String)
    ensures
        r@ == "invalid arguments for tool "@ + tool@ + ": "@ + detail@,
{
    let mut m = String::from_str("invalid arguments for tool ");
    m.append(tool);
    m.append(": ");
    m.append(detail);
    m
}

} // verus!
