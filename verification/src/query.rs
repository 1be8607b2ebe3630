//! Locating the indexed file and the innermost symbol that a `file:line`
//! query names.

use vstd::prelude::*;

use crate::graph::{Edge, EdgeView, Node, NodeView, Relation, Span, edges_view, nodes_view};
use crate::identity::UorAddress;
use crate::lang::builder::{file_address, spec_file_address};
use crate::text::{
    chars_equal, chars_of, decimal, ends_with_chars, has_prefix, has_suffix, hex_lower, push_decimal,
    string_from_chars, trim_end_char, trim_end_matching,
};

verus! {

/// The fused overlay as stored: all nodes and edges of the index.
#[derive(Debug)]
pub struct StoredOverlay {
    pub nodes: Vec<Node>,
    pub edges: Vec<Edge>,
}

impl StoredOverlay {
    /// The overlay's nodes.
    pub fn nodes(&self) -> (r: &[Node])
        ensures
            r@ == self.nodes@,
    {
        self.nodes.as_slice()
    }

    /// The overlay's edges.
    pub fn edges(&self) -> (r: &[Edge])
        ensures
            r@ == self.edges@,
    {
        self.edges.as_slice()
    }
}

/// The number of lines a span extends past its first, or 0 when it ends before it starts.
pub open spec fn saturating_width(s: Span) -> int {
    if s.end_line >= s.start_line { s.end_line - s.start_line } else { 0 }
}

/// How specific a node's span is: its width, or the largest `u32` without a span.
pub open spec fn node_width(n: NodeView) -> int {
    match n.span {
        Some(s) => saturating_width(s),
        None => u32::MAX as int,
    }
}

/// Whether some `Contains` edge leads from `file` to `a`.
pub open spec fn contained_in(edges: Seq<EdgeView>, file: Seq<u8>, a: Seq<u8>) -> bool {
    exists|k: int| 0 <= k < edges.len() && (#[trigger] edges[k]).source == file
        && edges[k].relation == Relation::Contains && edges[k].target == a
}

/// Whether a node is a symbol of `file` whose span covers `line`.
pub open spec fn is_candidate(edges: Seq<EdgeView>, file: Seq<u8>, line: u32, n: NodeView) -> bool {
    &&& contained_in(edges, file, n.address)
    &&& n.span matches Some(s) && s.start_line <= line && s.end_line >= line
}

/// `w` is the smallest width among the candidates of `nodes`.
pub open spec fn is_min_width(nodes: Seq<NodeView>, edges: Seq<EdgeView>, file: Seq<u8>, line: u32, w: int) -> bool {
    &&& exists|i: int| 0 <= i < nodes.len() && is_candidate(edges, file, line, #[trigger] nodes[i]) && node_width(nodes[i]) == w
    &&& forall|i: int| 0 <= i < nodes.len() && is_candidate(edges, file, line, #[trigger] nodes[i]) ==> node_width(nodes[i]) >= w
}

/// The number of candidates of `nodes` whose width is `w`.
pub open spec fn count_width(nodes: Seq<NodeView>, edges: Seq<EdgeView>, file: Seq<u8>, line: u32, w: int) -> nat
    decreases nodes.len(),
{
    if nodes.len() == 0 {
        0
    } else {
        count_width(nodes.drop_last(), edges, file, line, w) + if is_candidate(edges, file, line, nodes.last())
            && node_width(nodes.last()) == w { 1nat } else { 0nat }
    }
}

/// The error text for `n` equally specific candidates.
pub open spec fn ambiguity_message(n: nat, line: u32, file: Seq<char>) -> Seq<char> {
    decimal(n) + " equally specific symbols contain line "@ + decimal(line as nat) + " in "@ + file
}

/// What a `file:line` query resolves to: nothing when no symbol of the file
/// covers the line, the innermost covering symbol when exactly one is
/// narrowest, and an error naming the count when several are.
pub open spec fn node_at(nodes: Seq<NodeView>, edges: Seq<EdgeView>, file_path: Seq<char>, line: u32) -> Result<Option<Seq<u8>>, Seq<char>> {
    let file = spec_file_address(file_path);
    if !exists|i: int| 0 <= i < nodes.len() && is_candidate(edges, file, line, #[trigger] nodes[i]) {
        Ok(None)
    } else {
        let w = choose|w: int| is_min_width(nodes, edges, file, line, w);
        let n = count_width(nodes, edges, file, line, w);
        if n == 1 {
            Ok(Some(nodes[choose|i: int| 0 <= i < nodes.len() && is_candidate(edges, file, line, #[trigger] nodes[i]) && node_width(nodes[i]) == w].address))
        } else {
            Err(ambiguity_message(n, line, file_path))
        }
    }
}

/// The view of a query result.
pub open spec fn node_at_view(r: Result<Option<UorAddress>, String>) -> Result<Option<Seq<u8>>, Seq<char>> {
    match r {
        Ok(Some(a)) => Ok(Some(a@)),
        Ok(None) => Ok(None),
        Err(e) => Err(e@),
    }
}

proof fn lemma_count_width_zero(nodes: Seq<NodeView>, edges: Seq<EdgeView>, file: Seq<u8>, line: u32, w: int)
    requires
        forall|i: int| 0 <= i < nodes.len() && is_candidate(edges, file, line, #[trigger] nodes[i]) ==> node_width(nodes[i]) != w,
    ensures
        count_width(nodes, edges, file, line, w) == 0,
    decreases nodes.len(),
{
    if nodes.len() > 0 {
        assert forall|i: int| 0 <= i < nodes.drop_last().len() && is_candidate(edges, file, line, #[trigger] nodes.drop_last()[i])
            implies node_width(nodes.drop_last()[i]) != w by {
            assert(nodes.drop_last()[i] == nodes[i]);
        }
        lemma_count_width_zero(nodes.drop_last(), edges, file, line, w);
        assert(nodes.last() == nodes[nodes.len() - 1]);
    }
}

proof fn lemma_count_width_one(nodes: Seq<NodeView>, edges: Seq<EdgeView>, file: Seq<u8>, line: u32, w: int, i: int)
    requires
        count_width(nodes, edges, file, line, w) == 1,
        0 <= i < nodes.len(),
        is_candidate(edges, file, line, nodes[i]),
        node_width(nodes[i]) == w,
    ensures
        forall|j: int| 0 <= j < nodes.len() && is_candidate(edges, file, line, #[trigger] nodes[j]) && node_width(nodes[j]) == w ==> j == i,
    decreases nodes.len(),
{
    let d = nodes.drop_last();
    assert forall|k: int| 0 <= k < d.len() implies d[k] == nodes[k] by {}
    if i == nodes.len() - 1 {
        assert(count_width(d, edges, file, line, w) == 0);
        assert forall|j: int| 0 <= j < nodes.len() && is_candidate(edges, file, line, #[trigger] nodes[j]) && node_width(nodes[j]) == w
            implies j == i by {
            if j < nodes.len() - 1 {
                lemma_count_width_pos(d, edges, file, line, w, j);
            }
        }
    } else {
        if is_candidate(edges, file, line, nodes.last()) && node_width(nodes.last()) == w {
            lemma_count_width_pos(d, edges, file, line, w, i);
        }
        lemma_count_width_one(d, edges, file, line, w, i);
    }
}

proof fn lemma_count_width_pos(nodes: Seq<NodeView>, edges: Seq<EdgeView>, file: Seq<u8>, line: u32, w: int, i: int)
    requires
        0 <= i < nodes.len(),
        is_candidate(edges, file, line, nodes[i]),
        node_width(nodes[i]) == w,
    ensures
        count_width(nodes, edges, file, line, w) >= 1,
    decreases nodes.len(),
{
    if i < nodes.len() - 1 {
        assert(nodes.drop_last()[i] == nodes[i]);
        lemma_count_width_pos(nodes.drop_last(), edges, file, line, w, i);
    }
}

/// Whether some `Contains` edge leads from `file` to `a`.
fn is_contained(edges: &Vec<Edge>, file: &UorAddress, a: &UorAddress) -> (r: bool)
    ensures
        r == contained_in(edges_view(edges@), file@, a@),
{
    let ghost ev = edges_view(edges@);
    let mut k: usize = 0;
    while k < edges.len()
        invariant
            k <= edges@.len(),
            ev == edges_view(edges@),
            forall|j: int| 0 <= j < k ==> !((#[trigger] ev[j]).source == file@ && ev[j].relation == Relation::Contains && ev[j].target == a@),
        decreases edges@.len() - k,
    {
        let e = &edges[k];
        assert(ev[k as int] == e@);
        if e.source == *file && e.relation == Relation::Contains && e.target == *a {
            return true;
        }
        k = k + 1;
    }
    false
}

proof fn lemma_min_width_exists(nodes: Seq<NodeView>, edges: Seq<EdgeView>, file: Seq<u8>, line: u32) -> (w: int)
    requires
        exists|i: int| 0 <= i < nodes.len() && is_candidate(edges, file, line, #[trigger] nodes[i]),
    ensures
        is_min_width(nodes, edges, file, line, w),
    decreases nodes.len(),
{
    let d = nodes.drop_last();
    let n = nodes.len() - 1;
    let last = nodes[n];
    if exists|i: int| 0 <= i < d.len() && is_candidate(edges, file, line, #[trigger] d[i]) {
        let w0 = lemma_min_width_exists(d, edges, file, line);
        let i0 = choose|i: int| 0 <= i < d.len() && is_candidate(edges, file, line, #[trigger] d[i]) && node_width(d[i]) == w0;
        assert(nodes[i0] == d[i0]);
        if is_candidate(edges, file, line, last) && node_width(last) < w0 {
            assert forall|i: int| 0 <= i < nodes.len() && is_candidate(edges, file, line, #[trigger] nodes[i])
                implies node_width(nodes[i]) >= node_width(last) by {
                if i < n {
                    assert(nodes[i] == d[i]);
                }
            }
            node_width(last)
        } else {
            assert forall|i: int| 0 <= i < nodes.len() && is_candidate(edges, file, line, #[trigger] nodes[i])
                implies node_width(nodes[i]) >= w0 by {
                if i < n {
                    assert(nodes[i] == d[i]);
                }
            }
            w0
        }
    } else {
        let i = choose|i: int| 0 <= i < nodes.len() && is_candidate(edges, file, line, #[trigger] nodes[i]);
        if i < n {
            assert(d[i] == nodes[i]);
        }
        assert forall|j: int| 0 <= j < nodes.len() && is_candidate(edges, file, line, #[trigger] nodes[j])
            implies node_width(nodes[j]) >= node_width(last) by {
            if j < n {
                assert(d[j] == nodes[j]);
            }
        }
        node_width(last)
    }
}

/// A `file:line` answer is a symbol of the requested file whose span covers
/// the line, and every other such symbol of that file is strictly wider.
pub proof fn lemma_query_answer_is_innermost_in_file(
    nodes: Seq<NodeView>,
    edges: Seq<EdgeView>,
    path: Seq<char>,
    line: u32,
    a: Seq<u8>,
)
    requires
        node_at(nodes, edges, path, line) == Ok::<Option<Seq<u8>>, Seq<char>>(Some(a)),
    ensures
        exists|i: int|
            0 <= i < nodes.len() && (#[trigger] nodes[i]).address == a && is_candidate(edges, spec_file_address(path), line, nodes[i])
                && forall|j: int| 0 <= j < nodes.len() && j != i && is_candidate(edges, spec_file_address(path), line, #[trigger] nodes[j])
                    ==> node_width(nodes[j]) > node_width(nodes[i]),
{
    let file = spec_file_address(path);
    let _ = lemma_min_width_exists(nodes, edges, file, line);
    let w = choose|w: int| is_min_width(nodes, edges, file, line, w);
    let i = choose|i: int| 0 <= i < nodes.len() && is_candidate(edges, file, line, #[trigger] nodes[i]) && node_width(nodes[i]) == w;
    lemma_count_width_one(nodes, edges, file, line, w, i);
    assert(nodes[i].address == a);
}

proof fn lemma_count_width_only(nodes: Seq<NodeView>, edges: Seq<EdgeView>, file: Seq<u8>, line: u32, w: int, i: int)
    requires
        0 <= i < nodes.len(),
        is_candidate(edges, file, line, nodes[i]),
        node_width(nodes[i]) == w,
        forall|j: int| 0 <= j < nodes.len() && j != i ==> !is_candidate(edges, file, line, #[trigger] nodes[j]),
    ensures
        count_width(nodes, edges, file, line, w) == 1,
    decreases nodes.len(),
{
    let d = nodes.drop_last();
    if i == nodes.len() - 1 {
        assert forall|j: int| 0 <= j < d.len() && is_candidate(edges, file, line, #[trigger] d[j])
            implies node_width(d[j]) != w by {
            assert(d[j] == nodes[j]);
        }
        lemma_count_width_zero(d, edges, file, line, w);
    } else {
        assert(d[i] == nodes[i]);
        assert forall|j: int| 0 <= j < d.len() && j != i implies !is_candidate(edges, file, line, #[trigger] d[j]) by {
            assert(d[j] == nodes[j]);
        }
        lemma_count_width_only(d, edges, file, line, w, i);
        assert(!is_candidate(edges, file, line, nodes[nodes.len() - 1]));
    }
}

/// A `file:line` query finds a symbol whose lines cover the queried line,
/// first and last line included: when it is the only symbol of the requested
/// file with `start_line <= line <= end_line`, it is the answer.
pub proof fn lemma_query_finds_sole_covering_symbol(
    nodes: Seq<NodeView>,
    edges: Seq<EdgeView>,
    path: Seq<char>,
    line: u32,
    i: int,
)
    requires
        0 <= i < nodes.len(),
        nodes[i].span matches Some(s) && s.start_line <= line && line <= s.end_line,
        exists|k: int| 0 <= k < edges.len() && (#[trigger] edges[k]).source == spec_file_address(path)
            && edges[k].relation == Relation::Contains && edges[k].target == nodes[i].address,
        forall|j: int| 0 <= j < nodes.len() && j != i && ((#[trigger] nodes[j]).span matches Some(t)
            && t.start_line <= line && line <= t.end_line) ==> !exists|k: int| 0 <= k < edges.len()
                && (#[trigger] edges[k]).source == spec_file_address(path) && edges[k].relation == Relation::Contains
                && edges[k].target == nodes[j].address,
    ensures
        node_at(nodes, edges, path, line) == Ok::<Option<Seq<u8>>, Seq<char>>(Some(nodes[i].address)),
{
    let file = spec_file_address(path);
    assert(contained_in(edges, file, nodes[i].address));
    assert(is_candidate(edges, file, line, nodes[i]));
    assert forall|j: int| 0 <= j < nodes.len() && j != i implies !is_candidate(edges, file, line, #[trigger] nodes[j]) by {
        if is_candidate(edges, file, line, nodes[j]) {
            let k = choose|k: int| 0 <= k < edges.len() && (#[trigger] edges[k]).source == file
                && edges[k].relation == Relation::Contains && edges[k].target == nodes[j].address;
            assert(edges[k].target == nodes[j].address);
        }
    }
    let _ = lemma_min_width_exists(nodes, edges, file, line);
    let w = choose|w: int| is_min_width(nodes, edges, file, line, w);
    let j0 = choose|j: int| 0 <= j < nodes.len() && is_candidate(edges, file, line, #[trigger] nodes[j]) && node_width(nodes[j]) == w;
    assert(j0 == i);
    lemma_count_width_only(nodes, edges, file, line, w, i);
    let c = choose|j: int| 0 <= j < nodes.len() && is_candidate(edges, file, line, #[trigger] nodes[j]) && node_width(nodes[j]) == w;
    assert(c == i);
}

/// The innermost symbol of `indexed_file` whose span covers `line`: `Ok(None)`
/// when there is none, an error when several are equally narrow.
pub fn find_node_at(overlay: &StoredOverlay, indexed_file: &str, line: u32) -> (r: Result<Option<UorAddress>, String>)
    ensures
        node_at_view(r) == node_at(nodes_view(overlay.nodes@), edges_view(overlay.edges@), indexed_file@, line),
{
    let file_addr = file_address(indexed_file);
    let ghost nv = nodes_view(overlay.nodes@);
    let ghost ev = edges_view(overlay.edges@);
    let ghost file = file_addr@;
    let mut found = false;
    let mut min_w: u32 = 0;
    let mut count: usize = 0;
    let mut best: UorAddress = file_addr;
    let mut best_index: usize = 0;
    let mut i: usize = 0;
    while i < overlay.nodes.len()
        invariant
            i <= nv.len(),
            nv == nodes_view(overlay.nodes@),
            ev == edges_view(overlay.edges@),
            file == file_addr@,
            !found ==> forall|j: int| 0 <= j < i ==> !is_candidate(ev, file, line, #[trigger] nv[j]),
            found ==> {
                &&& is_min_width(nv.take(i as int), ev, file, line, min_w as int)
                &&& count == count_width(nv.take(i as int), ev, file, line, min_w as int)
                &&& best_index < i
                &&& is_candidate(ev, file, line, nv[best_index as int])
                &&& node_width(nv[best_index as int]) == min_w
                &&& best@ == nv[best_index as int].address
            },
            count <= i,
        decreases nv.len() - i,
    {
        let node = &overlay.nodes[i];
        assert(nv[i as int] == node@);
        let ghost t = nv.take(i as int);
        let ghost t1 = nv.take(i + 1);
        assert(t1.drop_last() =~= t);
        assert(t1.last() == nv[i as int]);
        assert forall|j: int| 0 <= j < t.len() implies t[j] == nv[j] && t1[j] == nv[j] by {}
        let mut candidate = false;
        if let Some(s) = node.span {
            if s.start_line <= line && s.end_line >= line {
                candidate = is_contained(&overlay.edges, &file_addr, &node.address);
            }
        }
        assert(candidate == is_candidate(ev, file, line, nv[i as int]));
        if candidate {
            let s = node.span.unwrap();
            let w: u32 = if s.end_line >= s.start_line { s.end_line - s.start_line } else { 0 };
            assert(node_width(nv[i as int]) == w);
            if !found || w < min_w {
                proof {
                    assert forall|j: int| 0 <= j < t.len() && is_candidate(ev, file, line, #[trigger] t[j])
                        implies node_width(t[j]) != w by {
                        if found {
                            assert(node_width(t[j]) >= min_w);
                        }
                    }
                    lemma_count_width_zero(t, ev, file, line, w as int);
                    assert(is_min_width(t1, ev, file, line, w as int)) by {
                        assert(is_candidate(ev, file, line, t1[i as int]));
                        assert forall|j: int| 0 <= j < t1.len() && is_candidate(ev, file, line, #[trigger] t1[j])
                            implies node_width(t1[j]) >= w by {
                            if j < i {
                                assert(t1[j] == t[j]);
                                if found {
                                    assert(node_width(t[j]) >= min_w);
                                }
                            }
                        }
                    }
                }
                found = true;
                min_w = w;
                count = 1;
                best = node.address;
                best_index = i;
            } else if w == min_w {
                count = count + 1;
                proof {
                    assert(is_min_width(t1, ev, file, line, min_w as int)) by {
                        let k = choose|k: int| 0 <= k < t.len() && is_candidate(ev, file, line, #[trigger] t[k]) && node_width(t[k]) == min_w;
                        assert(t1[k] == t[k]);
                        assert forall|j: int| 0 <= j < t1.len() && is_candidate(ev, file, line, #[trigger] t1[j])
                            implies node_width(t1[j]) >= min_w by {
                            if j < i {
                                assert(t1[j] == t[j]);
                            }
                        }
                    }
                }
            } else {
                proof {
                    assert(is_min_width(t1, ev, file, line, min_w as int)) by {
                        let k = choose|k: int| 0 <= k < t.len() && is_candidate(ev, file, line, #[trigger] t[k]) && node_width(t[k]) == min_w;
                        assert(t1[k] == t[k]);
                        assert forall|j: int| 0 <= j < t1.len() && is_candidate(ev, file, line, #[trigger] t1[j])
                            implies node_width(t1[j]) >= min_w by {
                            if j < i {
                                assert(t1[j] == t[j]);
                            }
                        }
                    }
                }
            }
        } else {
            proof {
                if found {
                    assert(is_min_width(t1, ev, file, line, min_w as int)) by {
                        let k = choose|k: int| 0 <= k < t.len() && is_candidate(ev, file, line, #[trigger] t[k]) && node_width(t[k]) == min_w;
                        assert(t1[k] == t[k]);
                        assert forall|j: int| 0 <= j < t1.len() && is_candidate(ev, file, line, #[trigger] t1[j])
                            implies node_width(t1[j]) >= min_w by {
                            if j < i {
                                assert(t1[j] == t[j]);
                            }
                        }
                    }
                }
            }
        }
        i = i + 1;
    }
    assert(nv.take(nv.len() as int) =~= nv);
    assert(file == spec_file_address(indexed_file@));
    if !found {
        return Ok(None);
    }
    proof {
        let w = choose|w: int| is_min_width(nv, ev, file, line, w);
        assert(is_min_width(nv, ev, file, line, min_w as int));
        let k = choose|k: int| 0 <= k < nv.len() && is_candidate(ev, file, line, #[trigger] nv[k]) && node_width(nv[k]) == w;
        assert(node_width(nv[best_index as int]) >= w);
        assert(node_width(nv[k]) >= min_w);
        assert(w == min_w);
    }
    if count == 1 {
        proof {
            lemma_count_width_one(nv, ev, file, line, min_w as int, best_index as int);
        }
        Ok(Some(best))
    } else {
        let mut msg = String::new();
        push_decimal(&mut msg, count as u64);
        msg.append(" equally specific symbols contain line ");
        push_decimal(&mut msg, line as u64);
        msg.append(" in ");
        msg.append(indexed_file);
        Err(msg)
    }
}

/// Backslashes turned into forward slashes.
pub open spec fn backslash_to_slash(s: Seq<char>) -> Seq<char> {
    s.map_values(|c: char| if c == '\\' { '/' } else { c })
}

/// `s` without one leading `./`.
pub open spec fn strip_dot_slash(s: Seq<char>) -> Seq<char> {
    if has_prefix(s, seq!['.', '/']) { s.skip(2) } else { s }
}

/// A path in the form the index compares: forward slashes, no leading `./`,
/// no trailing slashes.
pub open spec fn normalized_path(s: Seq<char>) -> Seq<char> {
    trim_end_char(strip_dot_slash(backslash_to_slash(s)), '/')
}

/// A path in the form the index compares: forward slashes, no leading `./`,
/// no trailing slashes.
pub fn normalize_path(value: &str) -> (r: String)
    ensures
        r@ == normalized_path(value@),
{
    let v = chars_of(value);
    let mut w: Vec<char> = Vec::new();
    let mut i: usize = 0;
    while i < v.len()
        invariant
            i <= v@.len(),
            w@ == backslash_to_slash(v@.take(i as int)),
        decreases v@.len() - i,
    {
        let c = v[i];
        w.push(if c == '\\' { '/' } else { c });
        assert(backslash_to_slash(v@.take(i + 1)) =~= backslash_to_slash(v@.take(i as int)).push(if c == '\\' { '/' } else { c }));
        i = i + 1;
    }
    assert(v@.take(v@.len() as int) =~= v@);
    let mut start: usize = 0;
    if w.len() >= 2 && w[0] == '.' && w[1] == '/' {
        start = 2;
        assert(w@.take(2) =~= seq!['.', '/']);
    } else {
        assert(!has_prefix(w@, seq!['.', '/'])) by {
            if w@.len() >= 2 && w@.take(2) == seq!['.', '/'] {
                assert(w@.take(2)[0] == w@[0]);
                assert(w@.take(2)[1] == w@[1]);
            }
        }
    }
    let mut stripped: Vec<char> = Vec::new();
    let mut k: usize = start;
    while k < w.len()
        invariant
            start <= k <= w@.len(),
            stripped@ == w@.subrange(start as int, k as int),
        decreases w@.len() - k,
    {
        stripped.push(w[k]);
        assert(w@.subrange(start as int, k as int).push(w@[k as int]) =~= w@.subrange(start as int, k + 1));
        k = k + 1;
    }
    assert(w@.subrange(start as int, w@.len() as int) =~= strip_dot_slash(w@));
    let t = trim_end_matching(stripped.as_slice(), '/');
    string_from_chars(t.as_slice())
}

/// The views of a list of strings.
pub open spec fn strings_view(v: Seq<String>) -> Seq<Seq<char>> {
    v.map_values(|s: String| s@)
}

/// The indexed paths whose normal form is `req`.
pub open spec fn exact_matches(indexed: Seq<Seq<char>>, req: Seq<char>) -> Seq<Seq<char>>
    decreases indexed.len(),
{
    if indexed.len() == 0 {
        Seq::empty()
    } else {
        let rest = exact_matches(indexed.drop_last(), req);
        if normalized_path(indexed.last()) == req { rest.push(indexed.last()) } else { rest }
    }
}

/// The indexed paths whose normal form ends with `/` and then `req`.
pub open spec fn suffix_matches(indexed: Seq<Seq<char>>, req: Seq<char>) -> Seq<Seq<char>>
    decreases indexed.len(),
{
    if indexed.len() == 0 {
        Seq::empty()
    } else {
        let rest = suffix_matches(indexed.drop_last(), req);
        let n = normalized_path(indexed.last());
        if n != req && has_suffix(n, seq!['/'] + req) { rest.push(indexed.last()) } else { rest }
    }
}

/// The strings of `v` separated by `sep`.
pub open spec fn join(v: Seq<Seq<char>>, sep: Seq<char>) -> Seq<char>
    decreases v.len(),
{
    if v.len() == 0 {
        Seq::empty()
    } else if v.len() == 1 {
        v[0]
    } else {
        join(v.drop_last(), sep) + sep + v.last()
    }
}

/// Which indexed source a requested path names: an exact match of normal
/// forms, or else a unique match of a trailing path; an error when the
/// request is empty, matches nothing, or matches several sources.
pub open spec fn indexed_file_for(indexed: Seq<Seq<char>>, requested: Seq<char>) -> Result<Seq<char>, Seq<char>> {
    let req = normalized_path(requested);
    let exact = exact_matches(indexed, req);
    let m = if exact.len() > 0 { exact } else { suffix_matches(indexed, req) };
    if req.len() == 0 {
        Err("requested file path is empty"@)
    } else if m.len() == 1 {
        Ok(m[0])
    } else if m.len() == 0 {
        Err("file is not present in the index: "@ + requested)
    } else {
        Err("file path is ambiguous across "@ + decimal(m.len()) + " indexed sources: "@ + join(m, ", "@))
    }
}

/// Whether the normal form of indexed path `x` ends with `/` and then `req`.
pub open spec fn ends_at_component(x: Seq<char>, req: Seq<char>) -> bool {
    has_suffix(normalized_path(x), seq!['/'] + req)
}

proof fn lemma_exact_matches_shape(indexed: Seq<Seq<char>>, req: Seq<char>)
    ensures
        exact_matches(indexed, req).len() == 0 <==> forall|k: int| 0 <= k < indexed.len() ==> normalized_path(#[trigger] indexed[k]) != req,
        forall|m: int| 0 <= m < exact_matches(indexed, req).len() ==> indexed.contains(#[trigger] exact_matches(indexed, req)[m])
            && normalized_path(exact_matches(indexed, req)[m]) == req,
        forall|j: int| 0 <= j < indexed.len() && normalized_path(indexed[j]) == req
            && (forall|k: int| 0 <= k < indexed.len() && normalized_path(#[trigger] indexed[k]) == req ==> k == j)
            ==> exact_matches(indexed, req) == seq![indexed[j]],
    decreases indexed.len(),
{
    if indexed.len() > 0 {
        let d = indexed.drop_last();
        let n = indexed.len() - 1;
        lemma_exact_matches_shape(d, req);
        assert forall|k: int| 0 <= k < d.len() implies #[trigger] d[k] == indexed[k] by {}
        let rest = exact_matches(d, req);
        let all = exact_matches(indexed, req);
        assert forall|m: int| 0 <= m < all.len() implies indexed.contains(#[trigger] all[m]) && normalized_path(all[m]) == req by {
            if m < rest.len() {
                assert(all[m] == rest[m]);
                let k = choose|k: int| 0 <= k < d.len() && d[k] == rest[m];
                assert(indexed[k] == rest[m]);
            } else {
                assert(all[m] == indexed[n]);
            }
        }
        if exists|k: int| 0 <= k < indexed.len() && normalized_path(#[trigger] indexed[k]) == req {
            let k = choose|k: int| 0 <= k < indexed.len() && normalized_path(#[trigger] indexed[k]) == req;
            if k < n {
                assert(normalized_path(d[k]) == req);
            }
        }
        assert forall|j: int| 0 <= j < indexed.len() && normalized_path(indexed[j]) == req
            && (forall|k: int| 0 <= k < indexed.len() && normalized_path(#[trigger] indexed[k]) == req ==> k == j)
            implies exact_matches(indexed, req) == seq![indexed[j]] by {
            if j == n {
                assert forall|k: int| 0 <= k < d.len() implies normalized_path(#[trigger] d[k]) != req by {
                    assert(d[k] == indexed[k]);
                }
                assert(all =~= seq![indexed[j]]);
            } else {
                assert(normalized_path(d[j]) == req);
                assert forall|k: int| 0 <= k < d.len() && normalized_path(#[trigger] d[k]) == req implies k == j by {
                    assert(d[k] == indexed[k]);
                }
                assert(d[j] == indexed[j]);
                assert(normalized_path(indexed[n]) != req);
            }
        }
    }
}

proof fn lemma_suffix_matches_shape(indexed: Seq<Seq<char>>, req: Seq<char>)
    ensures
        forall|m: int| 0 <= m < suffix_matches(indexed, req).len() ==> indexed.contains(#[trigger] suffix_matches(indexed, req)[m])
            && ends_at_component(suffix_matches(indexed, req)[m], req),
        forall|j: int| 0 <= j < indexed.len() && normalized_path(indexed[j]) != req && ends_at_component(indexed[j], req)
            && (forall|k: int| 0 <= k < indexed.len() && normalized_path(#[trigger] indexed[k]) != req
                && ends_at_component(indexed[k], req) ==> k == j)
            ==> suffix_matches(indexed, req) == seq![indexed[j]],
        (forall|k: int| 0 <= k < indexed.len() ==> !(normalized_path(#[trigger] indexed[k]) != req && ends_at_component(indexed[k], req)))
            ==> suffix_matches(indexed, req).len() == 0,
    decreases indexed.len(),
{
    if indexed.len() > 0 {
        let d = indexed.drop_last();
        let n = indexed.len() - 1;
        lemma_suffix_matches_shape(d, req);
        assert forall|k: int| 0 <= k < d.len() implies #[trigger] d[k] == indexed[k] by {}
        let rest = suffix_matches(d, req);
        let all = suffix_matches(indexed, req);
        assert forall|m: int| 0 <= m < all.len() implies indexed.contains(#[trigger] all[m]) && ends_at_component(all[m], req) by {
            if m < rest.len() {
                assert(all[m] == rest[m]);
                let k = choose|k: int| 0 <= k < d.len() && d[k] == rest[m];
                assert(indexed[k] == rest[m]);
            } else {
                assert(all[m] == indexed[n]);
            }
        }
        if forall|k: int| 0 <= k < indexed.len() ==> !(normalized_path(#[trigger] indexed[k]) != req && ends_at_component(indexed[k], req)) {
            assert forall|k: int| 0 <= k < d.len() implies !(normalized_path(#[trigger] d[k]) != req && ends_at_component(d[k], req)) by {
                assert(d[k] == indexed[k]);
            }
            assert(!(normalized_path(indexed[n]) != req && ends_at_component(indexed[n], req)));
        }
        assert forall|j: int| 0 <= j < indexed.len() && normalized_path(indexed[j]) != req && ends_at_component(indexed[j], req)
            && (forall|k: int| 0 <= k < indexed.len() && normalized_path(#[trigger] indexed[k]) != req
                && ends_at_component(indexed[k], req) ==> k == j)
            implies suffix_matches(indexed, req) == seq![indexed[j]] by {
            if j == n {
                assert forall|k: int| 0 <= k < d.len() implies !(normalized_path(#[trigger] d[k]) != req && ends_at_component(d[k], req)) by {
                    assert(d[k] == indexed[k]);
                }
                assert(all =~= seq![indexed[j]]);
            } else {
                assert(d[j] == indexed[j]);
                assert forall|k: int| 0 <= k < d.len() && normalized_path(#[trigger] d[k]) != req
                    && ends_at_component(d[k], req) implies k == j by {
                    assert(d[k] == indexed[k]);
                }
                assert(!(normalized_path(indexed[n]) != req && ends_at_component(indexed[n], req)));
            }
        }
    }
}

/// Which source a requested path names. An answer is an indexed path whose
/// normal form is the request's, or ends with `/` and then the request's (a
/// trailing match starts at a component boundary, so `stdlib.rs` is never
/// taken for `lib.rs`). A unique exact match is the answer; with no exact
/// match, a unique trailing match is.
pub proof fn lemma_indexed_file_matches_whole_components(indexed: Seq<Seq<char>>, requested: Seq<char>)
    ensures
        indexed_file_for(indexed, requested) matches Ok(x) ==> indexed.contains(x)
            && (normalized_path(x) == normalized_path(requested) || ends_at_component(x, normalized_path(requested))),
        forall|j: int| #![trigger indexed[j]] 0 <= j < indexed.len() && normalized_path(requested).len() > 0
            && normalized_path(indexed[j]) == normalized_path(requested)
            && (forall|k: int| 0 <= k < indexed.len() && normalized_path(#[trigger] indexed[k]) == normalized_path(requested) ==> k == j)
            ==> indexed_file_for(indexed, requested) == Ok::<Seq<char>, Seq<char>>(indexed[j]),
        forall|j: int| #![trigger indexed[j]] 0 <= j < indexed.len() && normalized_path(requested).len() > 0
            && (forall|k: int| 0 <= k < indexed.len() ==> normalized_path(#[trigger] indexed[k]) != normalized_path(requested))
            && ends_at_component(indexed[j], normalized_path(requested))
            && (forall|k: int| 0 <= k < indexed.len() && ends_at_component(#[trigger] indexed[k], normalized_path(requested)) ==> k == j)
            ==> indexed_file_for(indexed, requested) == Ok::<Seq<char>, Seq<char>>(indexed[j]),
{
    let req = normalized_path(requested);
    lemma_exact_matches_shape(indexed, req);
    lemma_suffix_matches_shape(indexed, req);
    let exact = exact_matches(indexed, req);
    let suf = suffix_matches(indexed, req);
    if exact.len() > 0 {
        assert(indexed_file_for(indexed, requested) matches Ok(x) ==> x == exact[0]);
    } else {
        assert(indexed_file_for(indexed, requested) matches Ok(x) ==> x == suf[0]);
    }
    assert forall|j: int| #![trigger indexed[j]] 0 <= j < indexed.len() && req.len() > 0
        && (forall|k: int| 0 <= k < indexed.len() ==> normalized_path(#[trigger] indexed[k]) != req)
        && ends_at_component(indexed[j], req)
        && (forall|k: int| 0 <= k < indexed.len() && ends_at_component(#[trigger] indexed[k], req) ==> k == j)
        implies indexed_file_for(indexed, requested) == Ok::<Seq<char>, Seq<char>>(indexed[j]) by {
        assert(normalized_path(indexed[j]) != req);
        assert(suf == seq![indexed[j]]);
    }
}

/// The view of a string result.
pub open spec fn string_result_view(r: Result<String, String>) -> Result<Seq<char>, Seq<char>> {
    match r {
        Ok(s) => Ok(s@),
        Err(e) => Err(e@),
    }
}

fn filter_matches(indexed: &[String], req: &Vec<char>, exact: bool) -> (r: Vec<String>)
    ensures
        strings_view(r@) == if exact { exact_matches(strings_view(indexed@), req@) } else { suffix_matches(strings_view(indexed@), req@) },
{
    let ghost iv = strings_view(indexed@);
    let mut suffix: Vec<char> = Vec::new();
    suffix.push('/');
    let mut q: usize = 0;
    while q < req.len()
        invariant
            q <= req@.len(),
            suffix@ == seq!['/'] + req@.take(q as int),
        decreases req@.len() - q,
    {
        suffix.push(req[q]);
        assert(seq!['/'] + req@.take(q + 1) =~= (seq!['/'] + req@.take(q as int)).push(req@[q as int]));
        q = q + 1;
    }
    assert(req@.take(req@.len() as int) =~= req@);
    let mut r: Vec<String> = Vec::new();
    let mut i: usize = 0;
    while i < indexed.len()
        invariant
            i <= indexed@.len(),
            iv == strings_view(indexed@),
            suffix@ == seq!['/'] + req@,
            strings_view(r@) == if exact { exact_matches(iv.take(i as int), req@) } else { suffix_matches(iv.take(i as int), req@) },
        decreases indexed@.len() - i,
    {
        assert(iv.take(i + 1).drop_last() =~= iv.take(i as int));
        assert(iv.take(i + 1).last() == indexed@[i as int]@);
        let n = chars_of(normalize_path(indexed[i].as_str()).as_str());
        let same = chars_equal(n.as_slice(), req.as_slice());
        let keep = if exact { same } else { !same && ends_with_chars(n.as_slice(), suffix.as_slice()) };
        if keep {
            let ghost before = r@;
            r.push(indexed[i].clone());
            assert(strings_view(r@) =~= strings_view(before).push(indexed@[i as int]@));
        }
        i = i + 1;
    }
    assert(iv.take(iv.len() as int) =~= iv);
    r
}

/// Which indexed source a requested path names (see `indexed_file_for`).
/// `indexed` holds the paths recorded in the index metadata.
pub fn resolve_indexed_file(indexed: &[String], requested_file: &str) -> (r: Result<String, String>)
    ensures
        string_result_view(r) == indexed_file_for(strings_view(indexed@), requested_file@),
{
    let requested = chars_of(normalize_path(requested_file).as_str());
    if requested.len() == 0 {
        return Err(String::from_str("requested file path is empty"));
    }
    let exact = filter_matches(indexed, &requested, true);
    let matches = if exact.len() > 0 { exact } else { filter_matches(indexed, &requested, false) };
    let ghost mv = strings_view(matches@);
    if matches.len() == 1 {
        Ok(matches[0].clone())
    } else if matches.len() == 0 {
        let mut msg = String::from_str("file is not present in the index: ");
        msg.append(requested_file);
        Err(msg)
    } else {
        let mut msg = String::from_str("file path is ambiguous across ");
        push_decimal(&mut msg, matches.len() as u64);
        msg.append(" indexed sources: ");
        let ghost prefix = msg@;
        msg.append(matches[0].as_str());
        let mut k: usize = 1;
        while k < matches.len()
            invariant
                1 <= k <= matches@.len(),
                mv == strings_view(matches@),
                msg@ == prefix + join(mv.take(k as int), ", "@),
            decreases matches@.len() - k,
        {
            msg.append(", ");
            msg.append(matches[k].as_str());
            assert(mv.take(k + 1).drop_last() =~= mv.take(k as int));
            k = k + 1;
        }
        assert(mv.take(mv.len() as int) =~= mv);
        Err(msg)
    }
}

/// The index of the first node with address `a`.
pub open spec fn first_with_address(nodes: Seq<NodeView>, a: Seq<u8>) -> int {
    choose|i: int| 0 <= i < nodes.len() && nodes[i].address == a
        && forall|j: int| 0 <= j < i ==> (#[trigger] nodes[j]).address != a
}

/// How a node is shown: the line range of the first node with that address
/// when it has a span, otherwise the address itself.
pub open spec fn location_text(nodes: Seq<NodeView>, a: Seq<u8>) -> Seq<char> {
    if exists|i: int| 0 <= i < nodes.len() && (#[trigger] nodes[i]).address == a {
        match nodes[first_with_address(nodes, a)].span {
            Some(s) => "line "@ + decimal(s.start_line as nat) + ":"@ + decimal(s.end_line as nat),
            None => hex_lower(a),
        }
    } else {
        hex_lower(a)
    }
}

/// How a node is shown in query output.
pub fn node_location(overlay: &StoredOverlay, addr: &UorAddress) -> (r: String)
    ensures
        r@ == location_text(nodes_view(overlay.nodes@), addr@),
{
    let ghost nv = nodes_view(overlay.nodes@);
    let mut i: usize = 0;
    while i < overlay.nodes.len()
        invariant
            i <= nv.len(),
            nv == nodes_view(overlay.nodes@),
            forall|j: int| 0 <= j < i ==> (#[trigger] nv[j]).address != addr@,
        decreases nv.len() - i,
    {
        let n = &overlay.nodes[i];
        assert(nv[i as int] == n@);
        if n.address == *addr {
            assert(first_with_address(nv, addr@) == i) by {
                let f = first_with_address(nv, addr@);
                assert(0 <= f < nv.len() && nv[f].address == addr@);
                if f < i {
                    assert(nv[f].address != addr@);
                }
                if f > i {
                    assert(nv[i as int].address != addr@);
                }
            }
            match n.span {
                Some(s) => {
                    let mut t = String::from_str("line ");
                    push_decimal(&mut t, s.start_line as u64);
                    t.append(":");
                    push_decimal(&mut t, s.end_line as u64);
                    return t;
                },
                None => {
                    return addr.to_hex();
                },
            }
        }
        i = i + 1;
    }
    addr.to_hex()
}

} // verus!
