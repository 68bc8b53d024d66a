//! Mermaid `flowchart` text of a topology or of a view graph. Deterministic:
//! vertices in spec order, edges in spec order.

use vstd::prelude::*;

use crate::model::{Edge, OnFull, TagCondition, TagOperator, Topology, Vertex, VertexKind};
use crate::text::{chars_of, string_of};
use crate::view::{ViewEdge, ViewGraph, ViewNode, append, join, join_chars, strings_chars, strings_view};

verus! {

/// The direction a Mermaid flowchart is drawn in.
#[derive(Debug, Clone, Copy, PartialEq, Eq, Structural)]
pub enum Direction {
    LeftRight,
    TopDown,
}

impl Default for Direction {
    fn default() -> (d: Self)
        ensures
            d == Direction::LeftRight,
    {
        Direction::LeftRight
    }
}

impl Direction {
    pub open spec fn keyword_spec(self) -> Seq<char> {
        match self {
            Direction::LeftRight => "LR"@,
            Direction::TopDown => "TD"@,
        }
    }

    /// The flowchart keyword: `LR` or `TD`.
    pub fn keyword(self) -> (k: &'static str)
        ensures
            k@ == self.keyword_spec(),
    {
        match self {
            Direction::LeftRight => "LR",
            Direction::TopDown => "TD",
        }
    }
}

/// `s` with every `c` written as `with`.
pub open spec fn replace_char(s: Seq<char>, c: char, with: Seq<char>) -> Seq<char>
    decreases s.len(),
{
    if s.len() == 0 {
        Seq::empty()
    } else {
        replace_char(s.drop_last(), c, with) + if s.last() == c { with } else { seq![s.last()] }
    }
}

/// `s` with every occurrence of `pat`, scanning from the left, written as
/// `with`.
pub open spec fn replace_str(s: Seq<char>, pat: Seq<char>, with: Seq<char>) -> Seq<char>
    decreases s.len(),
{
    if s.len() == 0 || pat.len() == 0 {
        s
    } else if s.len() >= pat.len() && s.take(pat.len() as int) == pat {
        with + replace_str(s.skip(pat.len() as int), pat, with)
    } else {
        seq![s[0]] + replace_str(s.skip(1), pat, with)
    }
}

/// `s` without the characters `a` and `b`.
pub open spec fn strip2(s: Seq<char>, a: char, b: char) -> Seq<char>
    decreases s.len(),
{
    if s.len() == 0 {
        Seq::empty()
    } else if s.last() == a || s.last() == b {
        strip2(s.drop_last(), a, b)
    } else {
        strip2(s.drop_last(), a, b).push(s.last())
    }
}

fn replaced_char(s: &Vec<char>, c: char, with: &Vec<char>) -> (out: Vec<char>)
    ensures
        out@ == replace_char(s@, c, with@),
{
    let mut out: Vec<char> = Vec::new();
    let mut i: usize = 0;
    while i < s.len()
        invariant
            i <= s@.len(),
            out@ == replace_char(s@.take(i as int), c, with@),
        decreases s.len() - i,
    {
        proof {
            assert(s@.take(i + 1).drop_last() =~= s@.take(i as int));
        }
        if s[i] == c {
            append(&mut out, with);
        } else {
            out.push(s[i]);
            proof {
                assert(out@ =~= replace_char(s@.take(i as int), c, with@) + seq![s@[i as int]]);
            }
        }
        i += 1;
    }
    proof {
        assert(s@.take(s@.len() as int) =~= s@);
    }
    out
}

fn replaced_str(s: &Vec<char>, pat: &Vec<char>, with: &Vec<char>) -> (out: Vec<char>)
    requires
        pat@.len() > 0,
    ensures
        out@ == replace_str(s@, pat@, with@),
{
    let mut out: Vec<char> = Vec::new();
    let mut i: usize = 0;
    proof {
        assert(s@.skip(0) =~= s@);
        assert(out@ + replace_str(s@, pat@, with@) =~= replace_str(s@, pat@, with@));
    }
    while i < s.len()
        invariant
            i <= s@.len(),
            pat@.len() > 0,
            out@ + replace_str(s@.skip(i as int), pat@, with@) == replace_str(s@, pat@, with@),
        decreases s.len() - i,
    {
        let ghost rest = s@.skip(i as int);
        let hit = s.len() - i >= pat.len() && crate::text::at(s, pat, i);
        proof {
            if rest.len() >= pat@.len() {
                assert(rest.take(pat@.len() as int) =~= s@.subrange(i as int, i + pat@.len()));
            }
        }
        if hit {
            proof {
                assert(rest.take(pat@.len() as int) =~= pat@);
                assert(rest.skip(pat@.len() as int) =~= s@.skip(i + pat@.len()));
                assert(out@ + with@ + replace_str(s@.skip(i + pat@.len()), pat@, with@) =~= out@ + replace_str(rest, pat@, with@));
            }
            append(&mut out, with);
            i += pat.len();
        } else {
            proof {
                assert(rest.skip(1) =~= s@.skip(i + 1));
                assert(out@.push(s@[i as int]) + replace_str(s@.skip(i + 1), pat@, with@) =~= out@ + replace_str(rest, pat@, with@));
            }
            out.push(s[i]);
            i += 1;
        }
    }
    proof {
        assert(s@.skip(i as int) =~= Seq::<char>::empty());
        assert(out@ + Seq::<char>::empty() =~= out@);
    }
    out
}

fn stripped2(s: &Vec<char>, a: char, b: char) -> (out: Vec<char>)
    ensures
        out@ == strip2(s@, a, b),
{
    let mut out: Vec<char> = Vec::new();
    let mut i: usize = 0;
    while i < s.len()
        invariant
            i <= s@.len(),
            out@ == strip2(s@.take(i as int), a, b),
        decreases s.len() - i,
    {
        proof {
            assert(s@.take(i + 1).drop_last() =~= s@.take(i as int));
        }
        if s[i] != a && s[i] != b {
            out.push(s[i]);
        }
        i += 1;
    }
    proof {
        assert(s@.take(s@.len() as int) =~= s@);
    }
    out
}

/// Node shape per vertex kind: `(open, close)` delimiters.
pub open spec fn delims_spec(kind: VertexKind) -> (Seq<char>, Seq<char>) {
    match kind {
        VertexKind::Source => ("(["@, "])"@),
        VertexKind::Sink => ("[["@, "]]"@),
        VertexKind::MapUdf => ("["@, "]"@),
        VertexKind::Reduce => ("{{"@, "}}"@),
    }
}

fn delims(kind: VertexKind) -> (d: (&'static str, &'static str))
    ensures
        (d.0@, d.1@) == delims_spec(kind),
{
    match kind {
        VertexKind::Source => ("([", "])"),
        VertexKind::Sink => ("[[", "]]"),
        VertexKind::MapUdf => ("[", "]"),
        VertexKind::Reduce => ("{{", "}}"),
    }
}

/// Mermaid node ids may not contain `-`; vertex names are DNS labels, so this
/// is the only substitution needed and it cannot collide (`-` is the only
/// non-alphanumeric).
pub open spec fn node_id_spec(name: Seq<char>) -> Seq<char> {
    replace_char(name, '-', "_"@)
}

/// A node label in quotes, any quote in it written as `#quot;`.
pub open spec fn quote_spec(s: Seq<char>) -> Seq<char> {
    "\""@ + replace_char(s, '"', "#quot;"@) + "\""@
}

/// Edge labels sit between `|` and are not quotable in every renderer, so
/// the two characters that would break the syntax are stripped.
pub open spec fn edge_text_spec(s: Seq<char>) -> Seq<char> {
    strip2(s, '|', '"')
}

fn node_id(name: &Vec<char>) -> (out: Vec<char>)
    ensures
        out@ == node_id_spec(name@),
{
    replaced_char(name, '-', &chars_of("_"))
}

fn quote(s: &Vec<char>) -> (out: Vec<char>)
    ensures
        out@ == quote_spec(s@),
{
    let mut out = chars_of("\"");
    let body = replaced_char(s, '"', &chars_of("#quot;"));
    append(&mut out, &body);
    append(&mut out, &chars_of("\""));
    out
}

/// The label of a condition: the values joined by `, ` for `or`, by ` & `
/// otherwise, stripped of `|` and `"`, with `not ` in front for `not`.
pub open spec fn edge_label_spec(c: TagCondition) -> Seq<char> {
    let joiner = match c.operator {
        TagOperator::Or => ", "@,
        _ => " & "@,
    };
    let body = edge_text_spec(join(strings_view(c.values@), joiner));
    match c.operator {
        TagOperator::Not => "not "@ + body,
        _ => body,
    }
}

/// No `|` and no `"`: text a Mermaid edge label holds as it is.
pub open spec fn label_safe(s: Seq<char>) -> bool {
    forall|i: int| 0 <= i < s.len() ==> s[i] != '|' && s[i] != '"'
}

proof fn lemma_strip_safe(s: Seq<char>)
    requires
        label_safe(s),
    ensures
        strip2(s, '|', '"') == s,
    decreases s.len(),
{
    if s.len() > 0 {
        lemma_strip_safe(s.drop_last());
        assert(s.drop_last().push(s.last()) =~= s);
    }
}

proof fn lemma_join_safe(vs: Seq<Seq<char>>, sep: Seq<char>)
    requires
        label_safe(sep),
        forall|k: int| 0 <= k < vs.len() ==> label_safe(#[trigger] vs[k]),
    ensures
        label_safe(join(vs, sep)),
    decreases vs.len(),
{
    if vs.len() > 1 {
        lemma_join_safe(vs.drop_last(), sep);
        let a = join(vs.drop_last(), sep);
        let b = a + sep + vs.last();
        assert forall|i: int| 0 <= i < b.len() implies b[i] != '|' && b[i] != '"' by {
            if i < a.len() {
                assert(b[i] == a[i]);
            } else if i < a.len() + sep.len() {
                assert(b[i] == sep[i - a.len()]);
            } else {
                assert(b[i] == vs.last()[i - a.len() - sep.len()]);
            }
        }
    } else if vs.len() == 1 {
        assert(label_safe(vs[0]));
    }
}

/// The Mermaid label of a condition whose values hold no `|` or `"`: an
/// `and` joins its values with ` & `, an `or` with `, `, and a `not` is
/// `not ` before the values joined with ` & `.
pub proof fn lemma_condition_label(c: TagCondition)
    requires
        forall|k: int| 0 <= k < c.values@.len() ==> label_safe((#[trigger] c.values@[k])@),
    ensures
        c.operator == TagOperator::And ==> edge_label_spec(c) == join(strings_view(c.values@), " & "@),
        c.operator == TagOperator::Or ==> edge_label_spec(c) == join(strings_view(c.values@), ", "@),
        c.operator == TagOperator::Not ==> edge_label_spec(c) == "not "@ + join(strings_view(c.values@), " & "@),
        c.operator == TagOperator::And && c.values@.len() == 2 ==> edge_label_spec(c) == c.values@[0]@ + " & "@
            + c.values@[1]@,
        c.operator == TagOperator::Or && c.values@.len() == 2 ==> edge_label_spec(c) == c.values@[0]@ + ", "@
            + c.values@[1]@,
{
    reveal_strlit(" & ");
    reveal_strlit(", ");
    let vs = strings_view(c.values@);
    assert forall|k: int| 0 <= k < vs.len() implies label_safe(#[trigger] vs[k]) by {
        assert(vs[k] == c.values@[k]@);
    }
    assert(label_safe(" & "@));
    assert(label_safe(", "@));
    lemma_join_safe(vs, " & "@);
    lemma_join_safe(vs, ", "@);
    lemma_strip_safe(join(vs, " & "@));
    lemma_strip_safe(join(vs, ", "@));
    if vs.len() == 2 {
        assert(vs.drop_last().len() == 1);
        assert(join(vs.drop_last(), " & "@) == vs[0]);
        assert(join(vs.drop_last(), ", "@) == vs[0]);
    }
}

fn edge_label(c: &TagCondition) -> (out: Vec<char>)
    ensures
        out@ == edge_label_spec(*c),
{
    let joiner = match c.operator {
        TagOperator::Or => chars_of(", "),
        _ => chars_of(" & "),
    };
    let vs = strings_chars(&c.values);
    let joined = join_chars(&vs, &joiner);
    let body = stripped2(&joined, '|', '"');
    match c.operator {
        TagOperator::Not => {
            let mut out = chars_of("not ");
            append(&mut out, &body);
            out
        },
        _ => body,
    }
}

pub open spec fn arrow_spec(lossy: bool) -> Seq<char> {
    if lossy { "-.->"@ } else { "-->"@ }
}

/// One edge line: `  from arrow to`, or `  from arrow|label| to`.
pub open spec fn edge_line_spec(from: Seq<char>, to: Seq<char>, lossy: bool, label: Option<Seq<char>>) -> Seq<char> {
    match label {
        Some(t) => "  "@ + from + " "@ + arrow_spec(lossy) + "|"@ + t + "| "@ + to + "\n"@,
        None => "  "@ + from + " "@ + arrow_spec(lossy) + " "@ + to + "\n"@,
    }
}

pub open spec fn opt_view(o: Option<Vec<char>>) -> Option<Seq<char>> {
    match o {
        Some(t) => Some(t@),
        None => None,
    }
}

fn edge_line(from: &Vec<char>, to: &Vec<char>, lossy: bool, label: Option<Vec<char>>) -> (out: Vec<char>)
    ensures
        out@ == edge_line_spec(from@, to@, lossy, opt_view(label)),
{
    let mut out = chars_of("  ");
    append(&mut out, from);
    append(&mut out, &chars_of(" "));
    let arrow = if lossy { chars_of("-.->") } else { chars_of("-->") };
    append(&mut out, &arrow);
    match label {
        Some(t) => {
            append(&mut out, &chars_of("|"));
            append(&mut out, &t);
            append(&mut out, &chars_of("| "));
        },
        None => {
            append(&mut out, &chars_of(" "));
        },
    }
    append(&mut out, to);
    append(&mut out, &chars_of("\n"));
    out
}

/// One node line: `  id` then the label quoted inside the shape's
/// delimiters.
pub open spec fn node_line_spec(id: Seq<char>, kind: VertexKind, label: Seq<char>) -> Seq<char> {
    "  "@ + id + delims_spec(kind).0 + quote_spec(label) + delims_spec(kind).1 + "\n"@
}

fn node_line(id: &Vec<char>, kind: VertexKind, label: &Vec<char>) -> (out: Vec<char>)
    ensures
        out@ == node_line_spec(id@, kind, label@),
{
    let (open, close) = delims(kind);
    let mut out = chars_of("  ");
    append(&mut out, id);
    append(&mut out, &chars_of(open));
    append(&mut out, &quote(label));
    append(&mut out, &chars_of(close));
    append(&mut out, &chars_of("\n"));
    out
}

/// The lines of the first `i` vertices.
pub open spec fn vertex_lines(vs: Seq<Vertex>, i: int) -> Seq<char>
    decreases i,
{
    if i <= 0 {
        Seq::empty()
    } else {
        vertex_lines(vs, i - 1) + node_line_spec(node_id_spec(vs[i - 1].name@), vs[i - 1].kind, vs[i - 1].name@)
    }
}

/// The line of one topology edge.
pub open spec fn topo_edge_line(e: Edge) -> Seq<char> {
    edge_line_spec(
        node_id_spec(e.from@),
        node_id_spec(e.to@),
        e.on_full == OnFull::DiscardLatest,
        match e.conditions {
            Some(c) => Some(edge_label_spec(c)),
            None => None,
        },
    )
}

/// The lines of the first `i` edges.
pub open spec fn edge_lines(es: Seq<Edge>, i: int) -> Seq<char>
    decreases i,
{
    if i <= 0 {
        Seq::empty()
    } else {
        edge_lines(es, i - 1) + topo_edge_line(es[i - 1])
    }
}

/// The whole flowchart of a topology.
pub open spec fn to_mermaid_spec(t: Topology, dir: Direction) -> Seq<char> {
    "flowchart "@ + dir.keyword_spec() + "\n"@ + vertex_lines(t.spec_vertices(), t.spec_vertices().len() as int)
        + edge_lines(t.spec_edges(), t.spec_edges().len() as int)
}

/// Emit a `flowchart`. Deterministic: vertices in spec order, edges in spec
/// order. A lossy edge (`discardLatest`) is drawn dotted, so it reads as
/// "may drop"; a conditional one carries its condition between bars.
pub fn to_mermaid(t: &Topology, dir: Direction) -> (out: String)
    ensures
        out@ == to_mermaid_spec(*t, dir),
{
    let mut out = chars_of("flowchart ");
    append(&mut out, &chars_of(dir.keyword()));
    append(&mut out, &chars_of("\n"));
    let ghost head = out@;
    let vs = t.vertices();
    let mut i: usize = 0;
    while i < vs.len()
        invariant
            i <= vs@.len(),
            vs@ == t.spec_vertices(),
            out@ == head + vertex_lines(vs@, i as int),
        decreases vs.len() - i,
    {
        let name = chars_of(vs[i].name.as_str());
        let line = node_line(&node_id(&name), vs[i].kind, &name);
        append(&mut out, &line);
        proof {
            assert(out@ =~= head + vertex_lines(vs@, i + 1));
        }
        i += 1;
    }
    let ghost mid = out@;
    let es = t.edges();
    let mut i: usize = 0;
    while i < es.len()
        invariant
            i <= es@.len(),
            es@ == t.spec_edges(),
            out@ == mid + edge_lines(es@, i as int),
        decreases es.len() - i,
    {
        let e = &es[i];
        let from = node_id(&chars_of(e.from.as_str()));
        let to = node_id(&chars_of(e.to.as_str()));
        let label = match &e.conditions {
            Some(c) => Some(edge_label(c)),
            None => None,
        };
        let line = edge_line(&from, &to, e.on_full == OnFull::DiscardLatest, label);
        append(&mut out, &line);
        proof {
            assert(out@ =~= mid + edge_lines(es@, i + 1));
        }
        i += 1;
    }
    string_of(&out)
}

/// A view node's id: its label with ` ×` written `_x`, then as a vertex
/// name's id.
pub open spec fn view_id_spec(label: Seq<char>) -> Seq<char> {
    node_id_spec(replace_str(label, " \u{d7}"@, "_x"@))
}

fn view_id(label: &Vec<char>) -> (out: Vec<char>)
    ensures
        out@ == view_id_spec(label@),
{
    let pat = chars_of(" \u{d7}");
    proof {
        reveal_strlit(" \u{d7}");
    }
    node_id(&replaced_str(label, &pat, &chars_of("_x")))
}

/// The lines of the first `i` view nodes.
pub open spec fn view_node_lines(ns: Seq<ViewNode>, i: int) -> Seq<char>
    decreases i,
{
    if i <= 0 {
        Seq::empty()
    } else {
        view_node_lines(ns, i - 1) + node_line_spec(view_id_spec(ns[i - 1].label@), ns[i - 1].kind, ns[i - 1].label@)
    }
}

/// The line of one view edge.
pub open spec fn view_edge_line(ns: Seq<ViewNode>, e: ViewEdge) -> Seq<char> {
    edge_line_spec(
        view_id_spec(ns[e.from.0 as int].label@),
        view_id_spec(ns[e.to.0 as int].label@),
        e.lossy,
        if e.tags@.len() == 0 {
            None
        } else {
            Some(edge_text_spec(join(strings_view(e.tags@), ", "@)))
        },
    )
}

pub open spec fn view_edge_lines(ns: Seq<ViewNode>, es: Seq<ViewEdge>, i: int) -> Seq<char>
    decreases i,
{
    if i <= 0 {
        Seq::empty()
    } else {
        view_edge_lines(ns, es, i - 1) + view_edge_line(ns, es[i - 1])
    }
}

/// The whole flowchart of a view graph.
pub open spec fn view_to_mermaid_spec(g: ViewGraph, dir: Direction) -> Seq<char> {
    "flowchart "@ + dir.keyword_spec() + "\n"@ + view_node_lines(g.nodes@, g.nodes@.len() as int) + view_edge_lines(
        g.nodes@,
        g.edges@,
        g.edges@.len() as int,
    )
}

/// Emit a `flowchart` of a view graph: shard groups are one node labelled
/// `stem ×N`. Edges keep the view graph's order, which the colouring relies
/// on.
pub fn view_to_mermaid(g: &ViewGraph, dir: Direction) -> (out: String)
    requires
        g.wf(),
    ensures
        out@ == view_to_mermaid_spec(*g, dir),
{
    let mut out = chars_of("flowchart ");
    append(&mut out, &chars_of(dir.keyword()));
    append(&mut out, &chars_of("\n"));
    let ghost head = out@;
    let mut i: usize = 0;
    while i < g.nodes.len()
        invariant
            i <= g.nodes@.len(),
            out@ == head + view_node_lines(g.nodes@, i as int),
        decreases g.nodes.len() - i,
    {
        let n = &g.nodes[i];
        let label = chars_of(n.label.as_str());
        let line = node_line(&view_id(&label), n.kind, &label);
        append(&mut out, &line);
        proof {
            assert(out@ =~= head + view_node_lines(g.nodes@, i + 1));
        }
        i += 1;
    }
    let ghost mid = out@;
    let mut i: usize = 0;
    while i < g.edges.len()
        invariant
            i <= g.edges@.len(),
            g.wf(),
            out@ == mid + view_edge_lines(g.nodes@, g.edges@, i as int),
        decreases g.edges.len() - i,
    {
        let e = &g.edges[i];
        let from = view_id(&chars_of(g.nodes[e.from.0 as usize].label.as_str()));
        let to = view_id(&chars_of(g.nodes[e.to.0 as usize].label.as_str()));
        let label = if e.tags.len() == 0 {
            None
        } else {
            Some(stripped2(&chars_of(e.label().as_str()), '|', '"'))
        };
        let line = edge_line(&from, &to, e.lossy, label);
        append(&mut out, &line);
        proof {
            assert(out@ =~= mid + view_edge_lines(g.nodes@, g.edges@, i + 1));
        }
        i += 1;
    }
    string_of(&out)
}

} // verus!
