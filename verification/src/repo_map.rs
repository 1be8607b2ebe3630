//! File-style projection of the graph: a markdown "repo map".
//!
//! Each source file is listed with its symbols' signature lines plus
//! call-edge fan-in/fan-out from the fused graph, so the map shows which
//! symbols are hubs.

use vstd::prelude::*;
use vstd::utf8::{decode_utf8, valid_utf8};

use crate::graph::{Edge, EdgeView, Node, NodeKind, NodeView, Relation, Span, edges_view, nodes_view};
use crate::identity::UorAddress;
use crate::lang::builder::{file_address, spec_file_address};
use crate::lang::detect::{SourceFile, sources_view};
use crate::order::{Row, rows_view, sort_unique_rows, sorted_unique};
use crate::text::{
    chars_of, decimal, push_decimal, string_from_chars, trim_end_char, trim_end_matching, trim_whitespace, trim_ws,
};

verus! {

/// The text that `String::from_utf8_lossy` decodes from a byte string that
/// is not valid UTF-8.
pub uninterp spec fn utf8_lossy(bytes: Seq<u8>) -> Seq<char>;

/// The text that `String::from_utf8_lossy` gives: the decoded text for valid
/// UTF-8, and otherwise the replacement decoding named `utf8_lossy`.
pub open spec fn lossy_text(bytes: Seq<u8>) -> Seq<char> {
    if valid_utf8(bytes) {
        decode_utf8(bytes)
    } else {
        utf8_lossy(bytes)
    }
}

/// Calls `String::from_utf8_lossy`.
/// Trusted: for valid UTF-8 the text is the decoded text itself; for other
/// bytes it is the decoding named `utf8_lossy`. How invalid sequences are
/// replaced is left unstated.
#[verifier::external_body]
fn decode_lossy(bytes: &[u8]) -> (r: String)
    ensures
        r@ == lossy_text(bytes@),
        !valid_utf8(bytes@) ==> r@ == utf8_lossy(bytes@),
{
    String::from_utf8_lossy(bytes).into_owned()
}

/// The position of the first newline byte, or the length when there is none.
pub open spec fn first_newline(s: Seq<u8>) -> int
    decreases s.len(),
{
    if s.len() == 0 {
        0
    } else if s[0] == 10u8 {
        0
    } else {
        1 + first_newline(s.drop_first())
    }
}

/// The bytes from `start` (cut at the end of the source) to the end of that line.
pub open spec fn line_from(source: Seq<u8>, start: int) -> Seq<u8> {
    let rest = source.skip(if start <= source.len() { start } else { source.len() as int });
    rest.take(first_newline(rest))
}

/// The signature of the symbol starting at `start`: the first line of its
/// source, trimmed, without trailing `{`.
pub open spec fn signature_text(source: Seq<u8>, start: int) -> Seq<char> {
    trim_ws(trim_end_char(trim_ws(lossy_text(line_from(source, start))), '{'))
}

proof fn lemma_first_newline(s: Seq<u8>, i: int)
    requires
        0 <= i <= s.len(),
        forall|k: int| 0 <= k < i ==> s[k] != 10u8,
        i < s.len() ==> s[i] == 10u8,
    ensures
        first_newline(s) == i,
    decreases s.len(),
{
    if i > 0 {
        assert forall|k: int| 0 <= k < i - 1 implies s.drop_first()[k] != 10u8 by {
            assert(s.drop_first()[k] == s[k + 1]);
        }
        if i < s.len() {
            assert(s.drop_first()[i - 1] == s[i]);
        }
        lemma_first_newline(s.drop_first(), i - 1);
    }
}

/// First line of the symbol's source span, trimmed — its signature.
pub fn signature_line(source: &[u8], start_byte: usize) -> (r: String)
    ensures
        r@ == signature_text(source@, start_byte as int),
{
    let start = if start_byte <= source.len() { start_byte } else { source.len() };
    let mut end = start;
    while end < source.len() && source[end] != 10u8
        invariant
            start <= end <= source@.len(),
            forall|k: int| start <= k < end ==> source@[k] != 10u8,
        decreases source@.len() - end,
    {
        end = end + 1;
    }
    proof {
        let rest = source@.skip(start as int);
        assert forall|k: int| 0 <= k < end - start implies rest[k] != 10u8 by {
            assert(rest[k] == source@[start + k]);
        }
        if end < source@.len() {
            assert(rest[end - start] == source@[end as int]);
        }
        lemma_first_newline(rest, end - start);
        assert(rest.take(end - start) =~= source@.subrange(start as int, end as int));
    }
    let text = decode_lossy(&source[start..end]);
    let chars = chars_of(text.as_str());
    let a = trim_whitespace(chars.as_slice());
    let b = trim_end_matching(a.as_slice(), '{');
    let c = trim_whitespace(b.as_slice());
    string_from_chars(c.as_slice())
}

/// The number of `Calls` edges leaving `a`.
pub open spec fn fan_out(edges: Seq<EdgeView>, a: Seq<u8>) -> nat
    decreases edges.len(),
{
    if edges.len() == 0 {
        0
    } else {
        fan_out(edges.drop_last(), a) + if edges.last().relation == Relation::Calls && edges.last().source == a { 1nat } else { 0nat }
    }
}

/// The number of `Calls` edges reaching `a`.
pub open spec fn fan_in(edges: Seq<EdgeView>, a: Seq<u8>) -> nat
    decreases edges.len(),
{
    if edges.len() == 0 {
        0
    } else {
        fan_in(edges.drop_last(), a) + if edges.last().relation == Relation::Calls && edges.last().target == a { 1nat } else { 0nat }
    }
}

/// The targets of the `Contains` edges leaving `file`, in edge order.
pub open spec fn contained_targets(edges: Seq<EdgeView>, file: Seq<u8>) -> Seq<Seq<u8>>
    decreases edges.len(),
{
    if edges.len() == 0 {
        Seq::empty()
    } else {
        let rest = contained_targets(edges.drop_last(), file);
        if edges.last().relation == Relation::Contains && edges.last().source == file {
            rest.push(edges.last().target)
        } else {
            rest
        }
    }
}

/// The last node with address `a`.
pub open spec fn last_node(nodes: Seq<NodeView>, a: Seq<u8>) -> Option<NodeView>
    decreases nodes.len(),
{
    if nodes.len() == 0 {
        None
    } else if nodes.last().address == a {
        Some(nodes.last())
    } else {
        last_node(nodes.drop_last(), a)
    }
}

/// The row of a symbol: signature, first line, last line when later, and
/// its call fan-in/fan-out when either is non-zero.
pub open spec fn row_text(sig: Seq<char>, s: Span, fi: nat, fo: nat) -> Seq<char> {
    "- `"@ + sig + "` (L"@ + decimal(s.start_line as nat)
        + (if s.end_line > s.start_line { "\u{2013}"@ + decimal(s.end_line as nat) } else { Seq::empty() })
        + ")"@
        + (if fi > 0 || fo > 0 { " \u{2014} in:"@ + decimal(fi) + " out:"@ + decimal(fo) } else { Seq::empty() })
}

/// The row for the symbol at address `a`, when a node with that address is a symbol with a span.
pub open spec fn symbol_row(source: Seq<u8>, nodes: Seq<NodeView>, edges: Seq<EdgeView>, a: Seq<u8>) -> Option<(u32, Seq<char>)> {
    match last_node(nodes, a) {
        Some(n) => if n.kind == NodeKind::Symbol && n.span is Some {
            let s = n.span.unwrap();
            Some((s.start_line, row_text(signature_text(source, s.start_byte as int), s, fan_in(edges, a), fan_out(edges, a))))
        } else {
            None
        },
        None => None,
    }
}

/// The rows for the contained symbols, in edge order.
pub open spec fn file_rows(source: Seq<u8>, nodes: Seq<NodeView>, edges: Seq<EdgeView>, targets: Seq<Seq<u8>>) -> Seq<(u32, Seq<char>)>
    decreases targets.len(),
{
    if targets.len() == 0 {
        Seq::empty()
    } else {
        let rest = file_rows(source, nodes, edges, targets.drop_last());
        match symbol_row(source, nodes, edges, targets.last()) {
            Some(r) => rest.push(r),
            None => rest,
        }
    }
}

/// Each row's text followed by a newline.
pub open spec fn rows_text(rows: Seq<(u32, Seq<char>)>) -> Seq<char>
    decreases rows.len(),
{
    if rows.len() == 0 {
        Seq::empty()
    } else {
        rows_text(rows.drop_last()) + rows.last().1 + "\n"@
    }
}

/// The section of one file: its heading, then either a note that it has no
/// indexed symbols or its sorted distinct rows.
pub open spec fn file_section(path: Seq<char>, source: Seq<u8>, nodes: Seq<NodeView>, edges: Seq<EdgeView>) -> Seq<char> {
    let targets = contained_targets(edges, spec_file_address(path));
    "## "@ + path + "\n\n"@ + if targets.len() == 0 {
        "*(no symbols indexed)*\n\n"@
    } else {
        rows_text(sorted_unique(file_rows(source, nodes, edges, targets))) + "\n"@
    }
}

/// The heading and legend of the map.
pub open spec fn map_header() -> Seq<char> {
    "# Repo Map (CODEGENOME projection)\n\n"@
        + "Signature lines from the syntax overlay; `in`/`out` are call-edge fan-in/fan-out from the fused graph.\n\n"@
}

/// The sections of all files, in order.
pub open spec fn sections_text(files: Seq<(Seq<char>, Seq<u8>)>, nodes: Seq<NodeView>, edges: Seq<EdgeView>) -> Seq<char>
    decreases files.len(),
{
    if files.len() == 0 {
        Seq::empty()
    } else {
        sections_text(files.drop_last(), nodes, edges) + file_section(files.last().0, files.last().1, nodes, edges)
    }
}

/// The whole map.
pub open spec fn repo_map_text(files: Seq<(Seq<char>, Seq<u8>)>, nodes: Seq<NodeView>, edges: Seq<EdgeView>) -> Seq<char> {
    map_header() + sections_text(files, nodes, edges)
}

fn count_fan(edges: &[Edge], a: &UorAddress) -> (r: (usize, usize))
    ensures
        r.0 == fan_in(edges_view(edges@), a@),
        r.1 == fan_out(edges_view(edges@), a@),
{
    let ghost ev = edges_view(edges@);
    let mut fi: usize = 0;
    let mut fo: usize = 0;
    let mut k: usize = 0;
    while k < edges.len()
        invariant
            k <= edges@.len(),
            ev == edges_view(edges@),
            fi == fan_in(ev.take(k as int), a@),
            fo == fan_out(ev.take(k as int), a@),
            fi <= k,
            fo <= k,
        decreases edges@.len() - k,
    {
        let e = &edges[k];
        assert(ev[k as int] == e@);
        assert(ev.take(k + 1).drop_last() =~= ev.take(k as int));
        assert(ev.take(k + 1).last() == e@);
        if e.relation == Relation::Calls {
            if e.target == *a {
                fi = fi + 1;
            }
            if e.source == *a {
                fo = fo + 1;
            }
        }
        k = k + 1;
    }
    assert(ev.take(ev.len() as int) =~= ev);
    (fi, fo)
}

fn targets_of(edges: &[Edge], file: &UorAddress) -> (r: Vec<UorAddress>)
    ensures
        r@.map_values(|a: UorAddress| a@) == contained_targets(edges_view(edges@), file@),
{
    let ghost ev = edges_view(edges@);
    let mut r: Vec<UorAddress> = Vec::new();
    let mut k: usize = 0;
    while k < edges.len()
        invariant
            k <= edges@.len(),
            ev == edges_view(edges@),
            r@.map_values(|a: UorAddress| a@) == contained_targets(ev.take(k as int), file@),
        decreases edges@.len() - k,
    {
        let e = &edges[k];
        assert(ev[k as int] == e@);
        assert(ev.take(k + 1).drop_last() =~= ev.take(k as int));
        assert(ev.take(k + 1).last() == e@);
        if e.relation == Relation::Contains && e.source == *file {
            let ghost before = r@;
            r.push(e.target);
            assert(r@.map_values(|a: UorAddress| a@) =~= before.map_values(|a: UorAddress| a@).push(e.target@));
        }
        k = k + 1;
    }
    assert(ev.take(ev.len() as int) =~= ev);
    r
}

fn find_last_node<'a>(nodes: &'a [Node], a: &UorAddress) -> (r: Option<&'a Node>)
    ensures
        match r {
            Some(n) => last_node(nodes_view(nodes@), a@) == Some(n@),
            None => last_node(nodes_view(nodes@), a@) is None,
        },
{
    let ghost nv = nodes_view(nodes@);
    let mut i: usize = nodes.len();
    assert(nv.take(i as int) =~= nv);
    while i > 0
        invariant
            i <= nv.len(),
            nv == nodes_view(nodes@),
            last_node(nv, a@) == last_node(nv.take(i as int), a@),
        decreases i,
    {
        let n = &nodes[i - 1];
        assert(nv[i - 1] == n@);
        assert(nv.take(i as int).drop_last() =~= nv.take(i - 1));
        assert(nv.take(i as int).last() == n@);
        if n.address == *a {
            return Some(n);
        }
        i = i - 1;
    }
    None
}

fn build_row(source: &[u8], span: Span, fi: usize, fo: usize) -> (r: String)
    ensures
        r@ == row_text(signature_text(source@, span.start_byte as int), span, fi as nat, fo as nat),
{
    let mut row = String::from_str("- `");
    row.append(signature_line(source, span.start_byte as usize).as_str());
    row.append("` (L");
    push_decimal(&mut row, span.start_line as u64);
    if span.end_line > span.start_line {
        row.append("\u{2013}");
        push_decimal(&mut row, span.end_line as u64);
    }
    row.append(")");
    if fi > 0 || fo > 0 {
        row.append(" \u{2014} in:");
        push_decimal(&mut row, fi as u64);
        row.append(" out:");
        push_decimal(&mut row, fo as u64);
    }
    row
}

fn render_section(out: &mut String, path: &String, source: &Vec<u8>, nodes: &[Node], edges: &[Edge])
    ensures
        final(out)@ == old(out)@ + file_section(path@, source@, nodes_view(nodes@), edges_view(edges@)),
{
    let ghost nv = nodes_view(nodes@);
    let ghost ev = edges_view(edges@);
    let file_addr = file_address(path.as_str());
    out.append("## ");
    out.append(path.as_str());
    out.append("\n\n");
    let targets = targets_of(edges, &file_addr);
    let ghost tv = targets@.map_values(|a: UorAddress| a@);
    if targets.len() == 0 {
        out.append("*(no symbols indexed)*\n\n");
        return;
    }
    let mut rows: Vec<Row> = Vec::new();
    let mut k: usize = 0;
    while k < targets.len()
        invariant
            k <= targets@.len(),
            tv == targets@.map_values(|a: UorAddress| a@),
            nv == nodes_view(nodes@),
            ev == edges_view(edges@),
            rows_view(rows@) == file_rows(source@, nv, ev, tv.take(k as int)),
        decreases targets@.len() - k,
    {
        let a = targets[k];
        assert(tv[k as int] == a@);
        assert(tv.take(k + 1).drop_last() =~= tv.take(k as int));
        assert(tv.take(k + 1).last() == a@);
        if let Some(node) = find_last_node(nodes, &a) {
            if node.kind == NodeKind::Symbol {
                if let Some(span) = node.span {
                    let (fi, fo) = count_fan(edges, &a);
                    let row = build_row(source.as_slice(), span, fi, fo);
                    let ghost before = rows@;
                    rows.push((span.start_line, row));
                    assert(rows_view(rows@) =~= rows_view(before).push((span.start_line, rows@[rows@.len() - 1].1@)));
                }
            }
        }
        k = k + 1;
    }
    assert(tv.take(tv.len() as int) =~= tv);
    let sorted = sort_unique_rows(rows);
    let ghost sv = rows_view(sorted@);
    let ghost base = out@;
    let mut i: usize = 0;
    while i < sorted.len()
        invariant
            i <= sorted@.len(),
            sv == rows_view(sorted@),
            out@ == base + rows_text(sv.take(i as int)),
        decreases sorted@.len() - i,
    {
        assert(sv[i as int] == (sorted@[i as int].0, sorted@[i as int].1@));
        assert(sv.take(i + 1).drop_last() =~= sv.take(i as int));
        out.append(sorted[i].1.as_str());
        out.append("\n");
        i = i + 1;
    }
    assert(sv.take(sv.len() as int) =~= sv);
    out.append("\n");
}

/// Render with explicit nodes (spans come from symbol nodes; a file with no
/// contained symbols is listed without detail).
pub fn render_map_nodes(source_files: &[SourceFile], nodes: &[Node], edges: &[Edge]) -> (r: String)
    ensures
        r@ == repo_map_text(sources_view(source_files@), nodes_view(nodes@), edges_view(edges@)),
{
    let ghost fv = sources_view(source_files@);
    let mut out = String::from_str("# Repo Map (CODEGENOME projection)\n\n");
    out.append("Signature lines from the syntax overlay; `in`/`out` are call-edge fan-in/fan-out from the fused graph.\n\n");
    let mut f: usize = 0;
    while f < source_files.len()
        invariant
            f <= source_files@.len(),
            fv == sources_view(source_files@),
            out@ == map_header() + sections_text(fv.take(f as int), nodes_view(nodes@), edges_view(edges@)),
        decreases source_files@.len() - f,
    {
        let file = &source_files[f];
        assert(fv[f as int] == (file.0@, file.1@));
        assert(fv.take(f + 1).drop_last() =~= fv.take(f as int));
        assert(fv.take(f + 1).last() == fv[f as int]);
        render_section(&mut out, &file.0, &file.1, nodes, edges);
        f = f + 1;
    }
    assert(fv.take(fv.len() as int) =~= fv);
    out
}

/// Render a markdown repo map from source files plus the fused graph's edges alone.
pub fn render_map(source_files: &[SourceFile], edges: &[Edge]) -> (r: String)
    ensures
        r@ == repo_map_text(sources_view(source_files@), Seq::empty(), edges_view(edges@)),
{
    let no_nodes: Vec<Node> = Vec::new();
    assert(nodes_view(no_nodes@) =~= Seq::<NodeView>::empty());
    render_map_nodes(source_files, no_nodes.as_slice(), edges)
}

proof fn lemma_contained_includes(edges: Seq<EdgeView>, k: int)
    requires
        0 <= k < edges.len(),
        edges[k].relation == Relation::Contains,
    ensures
        contained_targets(edges, edges[k].source).contains(edges[k].target),
    decreases edges.len(),
{
    let f = edges[k].source;
    let rest = contained_targets(edges.drop_last(), f);
    if k < edges.len() - 1 {
        lemma_contained_includes(edges.drop_last(), k);
        assert(edges.drop_last()[k] == edges[k]);
        let j = choose|j: int| 0 <= j < rest.len() && rest[j] == edges[k].target;
        assert(contained_targets(edges, f)[j] == edges[k].target);
    } else {
        let c = contained_targets(edges, f);
        assert(c[c.len() - 1] == edges[k].target);
    }
}

proof fn lemma_rows_same_edges(source: Seq<u8>, nodes: Seq<NodeView>, e1: Seq<EdgeView>, e2: Seq<EdgeView>, targets: Seq<Seq<u8>>)
    requires
        forall|a: Seq<u8>| fan_in(e1, a) == fan_in(e2, a) && fan_out(e1, a) == fan_out(e2, a),
    ensures
        file_rows(source, nodes, e1, targets) == file_rows(source, nodes, e2, targets),
    decreases targets.len(),
{
    if targets.len() > 0 {
        lemma_rows_same_edges(source, nodes, e1, e2, targets.drop_last());
        let t = targets.last();
        assert(fan_in(e1, t) == fan_in(e2, t) && fan_out(e1, t) == fan_out(e2, t));
        assert(symbol_row(source, nodes, e1, t) == symbol_row(source, nodes, e2, t));
    }
}

proof fn lemma_rows_include(source: Seq<u8>, nodes: Seq<NodeView>, edges: Seq<EdgeView>, targets: Seq<Seq<u8>>, t: Seq<u8>)
    requires
        targets.contains(t),
        symbol_row(source, nodes, edges, t) is Some,
    ensures
        file_rows(source, nodes, edges, targets).contains(symbol_row(source, nodes, edges, t).unwrap()),
    decreases targets.len(),
{
    let rows = file_rows(source, nodes, edges, targets);
    let rest = file_rows(source, nodes, edges, targets.drop_last());
    let r = symbol_row(source, nodes, edges, t).unwrap();
    if targets.last() == t {
        assert(rows == rest.push(r));
        assert(rows[rows.len() - 1] == r);
    } else {
        let j = choose|j: int| 0 <= j < targets.len() && targets[j] == t;
        assert(targets.drop_last()[j] == t);
        lemma_rows_include(source, nodes, edges, targets.drop_last(), t);
        let m = choose|m: int| 0 <= m < rest.len() && rest[m] == r;
        assert(rows[m] == r);
    }
}

proof fn lemma_section_unchanged(path: Seq<char>, source: Seq<u8>, nodes: Seq<NodeView>, edges: Seq<EdgeView>, e: EdgeView)
    requires
        (e.relation != Relation::Calls && e.relation != Relation::Contains)
            || (e.relation == Relation::Contains && exists|k: int| 0 <= k < edges.len() && (#[trigger] edges[k]).relation == Relation::Contains
                && edges[k].source == e.source && edges[k].target == e.target),
    ensures
        file_section(path, source, nodes, edges.push(e)) == file_section(path, source, nodes, edges),
{
    let ext = edges.push(e);
    assert(ext.drop_last() =~= edges);
    assert forall|a: Seq<u8>| fan_in(ext, a) == fan_in(edges, a) && fan_out(ext, a) == fan_out(edges, a) by {}
    let f = spec_file_address(path);
    let targets = contained_targets(edges, f);
    let xt = contained_targets(ext, f);
    if e.relation == Relation::Contains && e.source == f {
        let k = choose|k: int| 0 <= k < edges.len() && (#[trigger] edges[k]).relation == Relation::Contains
            && edges[k].source == e.source && edges[k].target == e.target;
        lemma_contained_includes(edges, k);
        assert(xt == targets.push(e.target));
        lemma_rows_same_edges(source, nodes, ext, edges, xt);
        let rows = file_rows(source, nodes, edges, targets);
        let xrows = file_rows(source, nodes, edges, xt);
        assert(xt.drop_last() =~= targets);
        match symbol_row(source, nodes, edges, e.target) {
            Some(r) => {
                lemma_rows_include(source, nodes, edges, targets, e.target);
                assert(xrows == rows.push(r));
                assert forall|x: (u32, Seq<char>)| xrows.contains(x) <==> rows.contains(x) by {
                    if xrows.contains(x) {
                        let j = choose|j: int| 0 <= j < xrows.len() && xrows[j] == x;
                        if j < rows.len() {
                            assert(rows[j] == x);
                        }
                    }
                    if rows.contains(x) {
                        let j = choose|j: int| 0 <= j < rows.len() && rows[j] == x;
                        assert(xrows[j] == x);
                    }
                }
                assert(xrows.to_set() =~= rows.to_set());
            },
            None => {
                assert(xrows == rows);
            },
        }
        assert(sorted_unique(xrows) == sorted_unique(rows));
        assert(targets.len() > 0);
    } else {
        assert(xt == targets);
        lemma_rows_same_edges(source, nodes, ext, edges, targets);
    }
}

proof fn lemma_sections_unchanged(files: Seq<(Seq<char>, Seq<u8>)>, nodes: Seq<NodeView>, edges: Seq<EdgeView>, e: EdgeView)
    requires
        (e.relation != Relation::Calls && e.relation != Relation::Contains)
            || (e.relation == Relation::Contains && exists|k: int| 0 <= k < edges.len() && (#[trigger] edges[k]).relation == Relation::Contains
                && edges[k].source == e.source && edges[k].target == e.target),
    ensures
        sections_text(files, nodes, edges.push(e)) == sections_text(files, nodes, edges),
    decreases files.len(),
{
    if files.len() > 0 {
        lemma_sections_unchanged(files.drop_last(), nodes, edges, e);
        lemma_section_unchanged(files.last().0, files.last().1, nodes, edges, e);
    }
}

/// The map is made of signature rows and call counts only: adding an edge
/// that is neither a call nor a containment, or a containment that the graph
/// already has, leaves the rendered map unchanged.
pub proof fn lemma_map_ignores_other_edges(
    files: Seq<(Seq<char>, Seq<u8>)>,
    nodes: Seq<NodeView>,
    edges: Seq<EdgeView>,
    e: EdgeView,
)
    requires
        (e.relation != Relation::Calls && e.relation != Relation::Contains)
            || (e.relation == Relation::Contains && exists|k: int| 0 <= k < edges.len() && (#[trigger] edges[k]).relation == Relation::Contains
                && edges[k].source == e.source && edges[k].target == e.target),
    ensures
        repo_map_text(files, nodes, edges.push(e)) == repo_map_text(files, nodes, edges),
{
    lemma_sections_unchanged(files, nodes, edges, e);
}

} // verus!
