//! Graphviz DOT text of a topology, left to right.

use vstd::prelude::*;

use crate::mermaid::replace_char;
use crate::model::{Edge, OnFull, TagOperator, Topology, Vertex, VertexKind};
use crate::text::{chars_of, string_of};
use crate::view::{append, join, join_chars, strings_chars, strings_view};

verus! {

pub open spec fn shape_spec(kind: VertexKind) -> Seq<char> {
    match kind {
        VertexKind::Source => "cds"@,
        VertexKind::Sink => "box3d"@,
        VertexKind::MapUdf => "box"@,
        VertexKind::Reduce => "hexagon"@,
    }
}

fn shape(kind: VertexKind) -> (s: &'static str)
    ensures
        s@ == shape_spec(kind),
{
    match kind {
        VertexKind::Source => "cds",
        VertexKind::Sink => "box3d",
        VertexKind::MapUdf => "box",
        VertexKind::Reduce => "hexagon",
    }
}

/// A DOT string: in quotes, any quote in it escaped with a backslash.
pub open spec fn dot_quote_spec(s: Seq<char>) -> Seq<char> {
    "\""@ + replace_char(s, '"', "\\\""@) + "\""@
}

fn dot_quote(s: &Vec<char>) -> (out: Vec<char>)
    ensures
        out@ == dot_quote_spec(s@),
{
    let mut out = chars_of("\"");
    let mut i: usize = 0;
    let esc = chars_of("\\\"");
    let ghost start = out@;
    while i < s.len()
        invariant
            i <= s@.len(),
            esc@ == "\\\""@,
            out@ == start + replace_char(s@.take(i as int), '"', esc@),
        decreases s.len() - i,
    {
        proof {
            assert(s@.take(i + 1).drop_last() =~= s@.take(i as int));
        }
        if s[i] == '"' {
            append(&mut out, &esc);
            proof {
                assert(out@ =~= start + replace_char(s@.take(i + 1), '"', esc@));
            }
        } else {
            out.push(s[i]);
            proof {
                assert(out@ =~= start + replace_char(s@.take(i + 1), '"', esc@));
            }
        }
        i += 1;
    }
    proof {
        assert(s@.take(s@.len() as int) =~= s@);
    }
    append(&mut out, &chars_of("\""));
    out
}

/// One vertex line.
pub open spec fn dot_vertex_line(v: Vertex) -> Seq<char> {
    "  "@ + dot_quote_spec(v.name@) + " [shape="@ + shape_spec(v.kind) + "];\n"@
}

pub open spec fn dot_vertex_lines(vs: Seq<Vertex>, i: int) -> Seq<char>
    decreases i,
{
    if i <= 0 {
        Seq::empty()
    } else {
        dot_vertex_lines(vs, i - 1) + dot_vertex_line(vs[i - 1])
    }
}

/// The attributes of one edge: its condition as a label, the values joined
/// by ` | ` for `or` and ` & ` otherwise, `not ` in front for `not`; then
/// `style=dashed` when it drops on a full buffer.
pub open spec fn dot_attrs(e: Edge) -> Seq<Seq<char>> {
    let label: Seq<Seq<char>> = match e.conditions {
        Some(c) => {
            let joiner = match c.operator {
                TagOperator::Or => " | "@,
                _ => " & "@,
            };
            let body = join(strings_view(c.values@), joiner);
            let text = match c.operator {
                TagOperator::Not => "not "@ + body,
                _ => body,
            };
            seq!["label="@ + dot_quote_spec(text)]
        },
        None => Seq::empty(),
    };
    if e.on_full == OnFull::DiscardLatest {
        label.push("style=dashed"@)
    } else {
        label
    }
}

/// One edge line: `  "from" -> "to"`, the attributes in brackets when it
/// has any, and `;`.
pub open spec fn dot_edge_line(e: Edge) -> Seq<char> {
    let attrs = dot_attrs(e);
    let attr = if attrs.len() == 0 { Seq::empty() } else { " ["@ + join(attrs, ", "@) + "]"@ };
    "  "@ + dot_quote_spec(e.from@) + " -> "@ + dot_quote_spec(e.to@) + attr + ";\n"@
}

pub open spec fn dot_edge_lines(es: Seq<Edge>, i: int) -> Seq<char>
    decreases i,
{
    if i <= 0 {
        Seq::empty()
    } else {
        dot_edge_lines(es, i - 1) + dot_edge_line(es[i - 1])
    }
}

pub open spec fn to_dot_spec(t: Topology) -> Seq<char> {
    "digraph pipeline {\n  rankdir=LR;\n  node [fontname=\"monospace\"];\n"@ + dot_vertex_lines(
        t.spec_vertices(),
        t.spec_vertices().len() as int,
    ) + dot_edge_lines(t.spec_edges(), t.spec_edges().len() as int) + "}\n"@
}

fn edge_line(e: &Edge) -> (out: Vec<char>)
    ensures
        out@ == dot_edge_line(*e),
{
    let mut attrs: Vec<Vec<char>> = Vec::new();
    if let Some(c) = &e.conditions {
        let joiner = match c.operator {
            TagOperator::Or => chars_of(" | "),
            _ => chars_of(" & "),
        };
        let vs = strings_chars(&c.values);
        let body = join_chars(&vs, &joiner);
        let text = match c.operator {
            TagOperator::Not => {
                let mut t = chars_of("not ");
                append(&mut t, &body);
                t
            },
            _ => body,
        };
        let mut a = chars_of("label=");
        append(&mut a, &dot_quote(&text));
        attrs.push(a);
    }
    if e.on_full == OnFull::DiscardLatest {
        attrs.push(chars_of("style=dashed"));
    }
    proof {
        assert(attrs@.map_values(|v: Vec<char>| v@) =~= dot_attrs(*e));
    }
    let mut out = chars_of("  ");
    append(&mut out, &dot_quote(&chars_of(e.from.as_str())));
    append(&mut out, &chars_of(" -> "));
    append(&mut out, &dot_quote(&chars_of(e.to.as_str())));
    if attrs.len() > 0 {
        append(&mut out, &chars_of(" ["));
        append(&mut out, &join_chars(&attrs, &chars_of(", ")));
        append(&mut out, &chars_of("]"));
    }
    append(&mut out, &chars_of(";\n"));
    out
}

/// Emit Graphviz DOT, left to right: every vertex shaped by its kind, every
/// edge with its condition as a label and dashed when it may drop.
pub fn to_dot(t: &Topology) -> (out: String)
    ensures
        out@ == to_dot_spec(*t),
{
    let mut out = chars_of("digraph pipeline {\n  rankdir=LR;\n  node [fontname=\"monospace\"];\n");
    let ghost head = out@;
    let vs = t.vertices();
    let mut i: usize = 0;
    while i < vs.len()
        invariant
            i <= vs@.len(),
            vs@ == t.spec_vertices(),
            out@ == head + dot_vertex_lines(vs@, i as int),
        decreases vs.len() - i,
    {
        let mut line = chars_of("  ");
        append(&mut line, &dot_quote(&chars_of(vs[i].name.as_str())));
        append(&mut line, &chars_of(" [shape="));
        append(&mut line, &chars_of(shape(vs[i].kind)));
        append(&mut line, &chars_of("];\n"));
        append(&mut out, &line);
        proof {
            assert(out@ =~= head + dot_vertex_lines(vs@, i + 1));
        }
        i += 1;
    }
    let ghost mid = out@;
    let es = t.edges();
    let mut i: usize = 0;
    while i < es.len()
        invariant
            i <= es@.len(),
            es@ == t.spec_edges(),
            out@ == mid + dot_edge_lines(es@, i as int),
        decreases es.len() - i,
    {
        append(&mut out, &edge_line(&es[i]));
        proof {
            assert(out@ =~= mid + dot_edge_lines(es@, i + 1));
        }
        i += 1;
    }
    append(&mut out, &chars_of("}\n"));
    string_of(&out)
}

} // verus!
