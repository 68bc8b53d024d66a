//! Import Mermaid flowcharts into [`Topology`] values. Accepts what
//! [`crate::mermaid::to_mermaid`] emits and the common `graph LR` + `subgraph`
//! dialect (one subgraph per pipeline). Anything it does not understand is
//! skipped.

use vstd::prelude::*;

use crate::model::{
    Edge, OnFull, ScaleSpec, TagCondition, TagOperator, Topology, TopologyError, Vertex,
    VertexKind, VertexName, has_name, topology_ok, valid_name,
};
use crate::text::{
    chars_of, drop_lead, lowered, same, split_on as split_text, drop_trail, dropped_lead, dropped_trail, ends, ends_with, find, first,
    is_ws, lower, occurs_at, slice, split, split_on, starts, starts_with, string_of, to_lower,
    trim, trim_start, trimmed, trimmed_start, unquote, unquoted, ws, free_of, trimmed_parts, lemma_split_free,
    lemma_trim_free,
};

verus! {

// ---- tokens ---------------------------------------------------------------

/// The opening delimiter of node shape `k`, in the order they are tried.
pub open spec fn open_of(k: int) -> Seq<char> {
    if k == 0 {
        "(["@
    } else if k == 1 {
        "[["@
    } else if k == 2 {
        "(("@
    } else if k == 3 {
        "{{"@
    } else if k == 4 {
        "["@
    } else {
        "("@
    }
}

/// The closing delimiter of node shape `k`.
pub open spec fn close_of(k: int) -> Seq<char> {
    if k == 0 {
        "])"@
    } else if k == 1 {
        "]]"@
    } else if k == 2 {
        "))"@
    } else if k == 3 {
        "}}"@
    } else if k == 4 {
        "]"@
    } else {
        ")"@
    }
}

/// The kind node shape `k` declares: `([ ])` source, `[[ ]]` sink, `(( ))`
/// external, `{{ }}` reduce, `[ ]` map, `( )` external.
pub open spec fn kind_of(k: int) -> Option<VertexKind> {
    if k == 0 {
        Some(VertexKind::Source)
    } else if k == 1 {
        Some(VertexKind::Sink)
    } else if k == 2 {
        None
    } else if k == 3 {
        Some(VertexKind::Reduce)
    } else if k == 4 {
        Some(VertexKind::MapUdf)
    } else {
        None
    }
}

/// A node token read: its id, label and kind (`None` for an external node).
pub struct NodeTok {
    pub id: Seq<char>,
    pub label: Seq<char>,
    pub kind: Option<VertexKind>,
}

pub open spec fn dash_for_underscore(c: char) -> char {
    if c == '_' {
        '-'
    } else {
        c
    }
}

/// The first shape from `k` on whose delimiters wrap `tok` after a non-empty
/// id; a bare token is a map named by its id with `_` read as `-`.
pub open spec fn node_from(tok: Seq<char>, k: int) -> NodeTok
    decreases 6 - k,
{
    if k < 0 || k >= 6 {
        NodeTok { id: tok, label: tok.map_values(|c: char| dash_for_underscore(c)), kind: Some(VertexKind::MapUdf) }
    } else {
        match first(tok, open_of(k)) {
            Some(i) => if i > 0 && ends(tok, close_of(k)) {
                NodeTok {
                    id: tok.take(i),
                    label: unquote(trim(tok.subrange(i + open_of(k).len(), tok.len() - close_of(k).len()))),
                    kind: kind_of(k),
                }
            } else {
                node_from(tok, k + 1)
            },
            None => node_from(tok, k + 1),
        }
    }
}

/// What a node token declares.
pub open spec fn node_spec(tok: Seq<char>) -> NodeTok {
    node_from(tok, 0)
}

fn open_close(k: usize) -> (r: (Vec<char>, Vec<char>))
    requires
        k < 6,
    ensures
        r.0@ == open_of(k as int),
        r.1@ == close_of(k as int),
{
    let (o, c) = if k == 0 {
        ("([", "])")
    } else if k == 1 {
        ("[[", "]]")
    } else if k == 2 {
        ("((", "))")
    } else if k == 3 {
        ("{{", "}}")
    } else if k == 4 {
        ("[", "]")
    } else {
        ("(", ")")
    };
    (chars_of(o), chars_of(c))
}

fn kind_at(k: usize) -> (r: Option<VertexKind>)
    requires
        k < 6,
    ensures
        r == kind_of(k as int),
{
    if k == 0 {
        Some(VertexKind::Source)
    } else if k == 1 {
        Some(VertexKind::Sink)
    } else if k == 3 {
        Some(VertexKind::Reduce)
    } else if k == 4 {
        Some(VertexKind::MapUdf)
    } else {
        None
    }
}

/// An opening delimiter found in a token that ends with the closing one
/// lies wholly before it: no opening bracket is a closing one.
proof fn lemma_delims_apart(tok: Seq<char>, k: int, i: int)
    requires
        0 <= k < 6,
        occurs_at(tok, open_of(k), i),
        ends(tok, close_of(k)),
    ensures
        i + open_of(k).len() <= tok.len() - close_of(k).len(),
{
    reveal_strlit("([");
    reveal_strlit("[[");
    reveal_strlit("((");
    reveal_strlit("{{");
    reveal_strlit("[");
    reveal_strlit("(");
    reveal_strlit("])");
    reveal_strlit("]]");
    reveal_strlit("))");
    reveal_strlit("}}");
    reveal_strlit("]");
    reveal_strlit(")");
    let o = open_of(k);
    let c = close_of(k);
    let p = tok.len() - c.len();
    if i + o.len() > p {
        let x = i + o.len() - 1;
        assert(tok.subrange(i, i + o.len())[o.len() - 1] == tok[x]);
        assert(tok.skip(p)[x - p] == tok[x]);
        let ch = tok[x];
        assert(ch == o[o.len() - 1]);
        assert(ch == c[x - p]);
        assert(o[o.len() - 1] == '[' || o[o.len() - 1] == '(' || o[o.len() - 1] == '{');
        assert(forall|j: int| 0 <= j < c.len() ==> c[j] == ']' || c[j] == ')' || c[j] == '}');
    }
}

/// Node token → (id, label, kind).
fn parse_node(tok: &Vec<char>) -> (r: (Vec<char>, Vec<char>, Option<VertexKind>))
    ensures
        r.0@ == node_spec(tok@).id,
        r.1@ == node_spec(tok@).label,
        r.2 == node_spec(tok@).kind,
{
    let mut k: usize = 0;
    while k < 6
        invariant
            k <= 6,
            node_spec(tok@) == node_from(tok@, k as int),
        decreases 6 - k,
    {
        let (open, close) = open_close(k);
        match find(tok, &open) {
            Some(i) => {
                if i > 0 && ends_with(tok, &close) {
                    proof {
                        assert(occurs_at(tok@, open@, i as int));
                        assert(open@ == open_of(k as int));
                        lemma_delims_apart(tok@, k as int, i as int);
                        assert(i + open.len() <= tok.len());
                    }
                    let inner = slice(tok, i + open.len(), tok.len() - close.len());
                    let t = trimmed(&inner);
                    let label = unquoted(&t);
                    let id = slice(tok, 0, i);
                    proof {
                        assert(id@ =~= tok@.take(i as int));
                    }
                    return (id, label, kind_at(k));
                }
            },
            None => {},
        }
        k += 1;
    }
    let mut label: Vec<char> = Vec::new();
    let mut j: usize = 0;
    while j < tok.len()
        invariant
            j <= tok.len(),
            label@ == tok@.take(j as int).map_values(|c: char| dash_for_underscore(c)),
        decreases tok.len() - j,
    {
        let c = if tok[j] == '_' {
            '-'
        } else {
            tok[j]
        };
        label.push(c);
        proof {
            assert(tok@.take(j as int).map_values(|c: char| dash_for_underscore(c)).push(c)
                =~= tok@.take(j + 1).map_values(|c: char| dash_for_underscore(c)));
        }
        j += 1;
    }
    proof {
        assert(tok@.take(tok.len() as int) =~= tok@);
    }
    (tok.clone(), label, Some(VertexKind::MapUdf))
}

/// The arrow of index `k`: `-.->`, `-->`, `==>`, `---`.
pub open spec fn op_of(k: int) -> Seq<char> {
    if k == 0 {
        "-.->"@
    } else if k == 1 {
        "-->"@
    } else if k == 2 {
        "==>"@
    } else {
        "---"@
    }
}

/// The earliest arrow (preceded by a space) among `k..4`, given the best
/// so far as `(index of the space, arrow)`.
pub open spec fn arrow_from(line: Seq<char>, k: int, best: Option<(int, int)>) -> Option<(int, int)>
    decreases 4 - k,
{
    if k < 0 || k >= 4 {
        best
    } else {
        let found = first(line, " "@ + op_of(k));
        let next = match found {
            Some(i) => match best {
                Some(b) => if i < b.0 {
                    Some((i, k))
                } else {
                    best
                },
                None => Some((i, k)),
            },
            None => best,
        };
        arrow_from(line, k + 1, next)
    }
}

/// An edge statement read: source token, arrow, label, target token.
pub struct EdgeTok {
    pub src: Seq<char>,
    pub op: int,
    pub label: Option<Seq<char>>,
    pub dst: Seq<char>,
}

/// `a --> b`, `a -->|x| b`, `a -.-> b`, `a -.->|x| b`: the earliest arrow
/// splits the line; a label sits between `|`s; both ends must be non-empty.
pub open spec fn edge_spec(line: Seq<char>) -> Option<EdgeTok> {
    match arrow_from(line, 0, None) {
        None => None,
        Some((idx, k)) => {
            let src = trim(line.take(idx));
            let rest = trim_start(line.skip(idx + 1 + op_of(k).len()));
            if rest.len() > 0 && rest[0] == '|' {
                let after = rest.drop_first();
                match first(after, "|"@) {
                    None => None,
                    Some(j) => {
                        let dst = trim(after.skip(j + 1));
                        if src.len() == 0 || dst.len() == 0 {
                            None
                        } else {
                            Some(EdgeTok { src, op: k, label: Some(trim(after.take(j))), dst })
                        }
                    },
                }
            } else {
                let dst = trim(rest);
                if src.len() == 0 || dst.len() == 0 {
                    None
                } else {
                    Some(EdgeTok { src, op: k, label: None, dst })
                }
            }
        },
    }
}

fn op_at(k: usize) -> (r: Vec<char>)
    requires
        k < 4,
    ensures
        r@ == op_of(k as int),
{
    if k == 0 {
        chars_of("-.->")
    } else if k == 1 {
        chars_of("-->")
    } else if k == 2 {
        chars_of("==>")
    } else {
        chars_of("---")
    }
}

/// The edge statement on a line, if it is one.
fn parse_edge(line: &Vec<char>) -> (r: Option<(Vec<char>, usize, Option<Vec<char>>, Vec<char>)>)
    ensures
        match edge_spec(line@) {
            None => r is None,
            Some(t) => r matches Some(x) && x.0@ == t.src && x.1 as int == t.op && x.3@ == t.dst
                && match t.label {
                None => x.2 is None,
                Some(l) => x.2 matches Some(xl) && xl@ == l,
            },
        },
        r matches Some(x) ==> x.1 < 4,
{
    let mut best: Option<(usize, usize)> = None;
    let mut k: usize = 0;
    while k < 4
        invariant
            k <= 4,
            arrow_from(line@, 0, None) == arrow_from(
                line@,
                k as int,
                match best {
                    Some(b) => Some((b.0 as int, b.1 as int)),
                    None => None,
                },
            ),
            best matches Some(b) ==> b.1 < 4 && occurs_at(line@, " "@ + op_of(b.1 as int), b.0 as int),
        decreases 4 - k,
    {
        let mut pat = chars_of(" ");
        let op = op_at(k);
        let mut j: usize = 0;
        let ghost sp = pat@;
        while j < op.len()
            invariant
                j <= op.len(),
                pat@ == sp + op@.take(j as int),
            decreases op.len() - j,
        {
            pat.push(op[j]);
            proof {
                assert(sp + op@.take(j as int) + seq![op@[j as int]] =~= sp + op@.take(j + 1));
            }
            j += 1;
        }
        proof {
            assert(op@.take(op.len() as int) =~= op@);
        }
        match find(line, &pat) {
            Some(i) => {
                match best {
                    Some(b) => {
                        if i < b.0 {
                            best = Some((i, k));
                        }
                    },
                    None => {
                        best = Some((i, k));
                    },
                }
            },
            None => {},
        }
        k += 1;
    }
    let (idx, k) = match best {
        None => return None,
        Some(b) => b,
    };
    let op = op_at(k);
    proof {
        reveal_strlit(" ");
        assert((" "@ + op@).len() == 1 + op@.len());
        assert(occurs_at(line@, " "@ + op_of(k as int), idx as int));
        assert(idx + 1 + op@.len() <= line@.len());
        assert(idx + 1 + op.len() <= line.len());
    }
    let head = slice(line, 0, idx);
    proof {
        assert(head@ =~= line@.take(idx as int));
    }
    let src = trimmed(&head);
    let tail = slice(line, idx + 1 + op.len(), line.len());
    proof {
        assert(tail@ =~= line@.skip(idx + 1 + op@.len()));
    }
    let rest = trimmed_start(&tail);
    if rest.len() > 0 && rest[0] == '|' {
        let after = slice(&rest, 1, rest.len());
        proof {
            assert(after@ =~= rest@.drop_first());
        }
        let bar = chars_of("|");
        match find(&after, &bar) {
            None => None,
            Some(j) => {
                proof {
                    reveal_strlit("|");
                }
                let l = slice(&after, 0, j);
                let d = slice(&after, j + 1, after.len());
                proof {
                    assert(l@ =~= after@.take(j as int));
                    assert(d@ =~= after@.skip(j + 1));
                }
                let label = trimmed(&l);
                let dst = trimmed(&d);
                if src.len() == 0 || dst.len() == 0 {
                    None
                } else {
                    Some((src, k, Some(label), dst))
                }
            },
        }
    } else {
        let dst = trimmed(&rest);
        if src.len() == 0 || dst.len() == 0 {
            None
        } else {
            Some((src, k, None, dst))
        }
    }
}

/// `id["label"]`, `"label"` or a bare id, the text already trimmed.
pub open spec fn subgraph_spec(rest: Seq<char>) -> (Seq<char>, Seq<char>) {
    match first(rest, "["@) {
        Some(i) => (trim(rest.take(i)), unquote(drop_trail(rest.skip(i + 1), ']'))),
        None => (unquote(rest), unquote(rest)),
    }
}

fn parse_subgraph(rest: &Vec<char>) -> (r: (Vec<char>, Vec<char>))
    ensures
        r.0@ == subgraph_spec(rest@).0,
        r.1@ == subgraph_spec(rest@).1,
{
    let open = chars_of("[");
    proof {
        reveal_strlit("[");
    }
    match find(rest, &open) {
        Some(i) => {
            proof {
                assert(occurs_at(rest@, open@, i as int));
                assert(i + 1 <= rest.len());
            }
            let id = slice(rest, 0, i);
            let label = slice(rest, i + 1, rest.len());
            proof {
                assert(id@ =~= rest@.take(i as int));
                assert(label@ =~= rest@.skip(i + 1));
            }
            let l = dropped_trail(&label, ']');
            (trimmed(&id), unquoted(&l))
        },
        None => {
            let s = unquoted(rest);
            (s.clone(), s)
        },
    }
}

/// `(id, label)` pairs whose first is the same.
pub open spec fn is_ascii_alnum(c: char) -> bool {
    ('a' <= c && c <= 'z') || ('A' <= c && c <= 'Z') || ('0' <= c && c <= '9')
}

/// A label character as it stands in a vertex name: lower case, `_` and
/// space as `-`.
pub open spec fn name_char(c: char) -> char {
    let l = lower(c);
    if l == '_' || l == ' ' {
        '-'
    } else {
        l
    }
}

/// The label's characters that can stand in a name, mapped by `name_char`.
pub open spec fn kept(s: Seq<char>) -> Seq<char>
    decreases s.len(),
{
    if s.len() == 0 {
        Seq::empty()
    } else {
        let r = kept(s.drop_last());
        let c = name_char(s.last());
        if is_ascii_alnum(c) || c == '-' {
            r.push(c)
        } else {
            r
        }
    }
}

/// A label becomes a vertex name: lower-case, `_` and space to `-`, anything
/// else dropped, and no `-` at either end.
pub open spec fn vertex_name_spec(label: Seq<char>) -> Seq<char> {
    drop_trail(drop_lead(kept(label), '-'), '-')
}

fn vertex_name(label: &Vec<char>) -> (r: Vec<char>)
    ensures
        r@ == vertex_name_spec(label@),
{
    let mut s: Vec<char> = Vec::new();
    let mut i: usize = 0;
    while i < label.len()
        invariant
            i <= label.len(),
            s@ == kept(label@.take(i as int)),
        decreases label.len() - i,
    {
        let l = to_lower(label[i]);
        let c = if l == '_' || l == ' ' {
            '-'
        } else {
            l
        };
        proof {
            assert(label@.take(i + 1).drop_last() =~= label@.take(i as int));
        }
        if ('a' <= c && c <= 'z') || ('A' <= c && c <= 'Z') || ('0' <= c && c <= '9') || c == '-' {
            s.push(c);
        }
        i += 1;
    }
    proof {
        assert(label@.take(label.len() as int) =~= label@);
    }
    let a = dropped_lead(&s, '-');
    dropped_trail(&a, '-')
}

/// The trimmed, non-empty pieces.
pub open spec fn nonempty_trimmed(parts: Seq<Seq<char>>) -> Seq<Seq<char>>
    decreases parts.len(),
{
    if parts.len() == 0 {
        Seq::empty()
    } else {
        let r = nonempty_trimmed(parts.drop_last());
        let t = trim(parts.last());
        if t.len() > 0 {
            r.push(t)
        } else {
            r
        }
    }
}

/// A tag condition written on an edge: `not a, b` is `Not`, `a & b` is `And`
/// (split on ` & `), anything else is `Or` (split on `,`).
pub open spec fn tags_spec(label: Seq<char>) -> (TagOperator, Seq<Seq<char>>) {
    if starts(label, "not "@) {
        (TagOperator::Not, nonempty_trimmed(split(label.skip(4), ","@)))
    } else if first(label, " & "@) is Some {
        (TagOperator::And, nonempty_trimmed(split(label, " & "@)))
    } else {
        (TagOperator::Or, nonempty_trimmed(split(label, ","@)))
    }
}

proof fn lemma_nonempty_trimmed(parts: Seq<Seq<char>>)
    ensures
        trimmed_parts(parts, nonempty_trimmed(parts)),
    decreases parts.len(),
{
    if parts.len() > 0 {
        lemma_nonempty_trimmed(parts.drop_last());
        let r = nonempty_trimmed(parts.drop_last());
        let out = nonempty_trimmed(parts);
        assert forall|k: int| 0 <= k < out.len() implies (#[trigger] out[k]).len() > 0 && exists|j: int|
            0 <= j < parts.len() && out[k] == trim(parts[j]) by {
            if k < r.len() {
                assert(out[k] == r[k]);
                let j = choose|j: int| 0 <= j < parts.drop_last().len() && r[k] == trim(parts.drop_last()[j]);
                assert(parts[j] == parts.drop_last()[j]);
            } else {
                assert(out[k] == trim(parts.last()));
                assert(parts[parts.len() - 1] == parts.last());
            }
        }
    }
}

/// An edge label starting with `not ` is a `not` of the comma-separated
/// pieces after those four characters, each trimmed, the empty ones dropped.
pub proof fn lemma_not_label_tags(label: Seq<char>)
    requires
        starts(label, "not "@),
    ensures
        tags_spec(label).0 == TagOperator::Not,
        tags_spec(label).1 == nonempty_trimmed(split(label.skip(4), ","@)),
        forall|k: int| 0 <= k < tags_spec(label).1.len() ==> free_of(#[trigger] tags_spec(label).1[k], ","@),
{
    reveal_strlit("not ");
    reveal_strlit(",");
    assert(","@.len() == 1);
    assert("not "@.len() == 4);
    let pc = split(label.skip(4), ","@);
    lemma_split_free(label.skip(4), ","@);
    lemma_nonempty_trimmed(pc);
    let vc = nonempty_trimmed(pc);
    assert forall|k: int| 0 <= k < vc.len() implies free_of(#[trigger] vc[k], ","@) by {
        let j = choose|j: int| 0 <= j < pc.len() && vc[k] == trim(pc[j]);
        assert(free_of(pc[j], ","@));
        lemma_trim_free(pc[j], ","@);
    }
}

/// An edge label that does not start with `not ` and holds ` & ` is an
/// `and` of the pieces between the ` & `s, each trimmed, the empty ones
/// dropped: none is empty, none holds ` & `, each is a trimmed piece. Any
/// other label without `not ` is an `or` of the pieces between commas.
pub proof fn lemma_label_tags(label: Seq<char>)
    requires
        !starts(label, "not "@),
    ensures
        first(label, " & "@) is Some ==> {
            let (op, vs) = tags_spec(label);
            &&& op == TagOperator::And
            &&& vs == nonempty_trimmed(split(label, " & "@))
            &&& forall|k: int|
                0 <= k < vs.len() ==> (#[trigger] vs[k]).len() > 0 && free_of(vs[k], " & "@) && exists|j: int|
                    0 <= j < split(label, " & "@).len() && vs[k] == trim(split(label, " & "@)[j])
        },
        first(label, " & "@) is None ==> {
            let (op, vs) = tags_spec(label);
            &&& op == TagOperator::Or
            &&& vs == nonempty_trimmed(split(label, ","@))
            &&& forall|k: int| 0 <= k < vs.len() ==> (#[trigger] vs[k]).len() > 0 && free_of(vs[k], ","@)
        },
{
    reveal_strlit(" & ");
    reveal_strlit(",");
    let and = " & "@;
    let comma = ","@;
    assert(and.len() == 3);
    assert(comma.len() == 1);
    lemma_split_free(label, and);
    lemma_split_free(label, comma);
    let pa = split(label, and);
    let pc = split(label, comma);
    lemma_nonempty_trimmed(pa);
    lemma_nonempty_trimmed(pc);
    let va = nonempty_trimmed(pa);
    let vc = nonempty_trimmed(pc);
    assert forall|k: int| 0 <= k < va.len() implies free_of(#[trigger] va[k], and) by {
        let j = choose|j: int| 0 <= j < pa.len() && va[k] == trim(pa[j]);
        assert(free_of(pa[j], and));
        lemma_trim_free(pa[j], and);
    }
    assert forall|k: int| 0 <= k < vc.len() implies free_of(#[trigger] vc[k], comma) by {
        let j = choose|j: int| 0 <= j < pc.len() && vc[k] == trim(pc[j]);
        assert(free_of(pc[j], comma));
        lemma_trim_free(pc[j], comma);
    }
}

pub open spec fn strings_view(v: Seq<String>) -> Seq<Seq<char>> {
    v.map_values(|s: String| s@)
}

fn tags(label: &Vec<char>) -> (r: TagCondition)
    ensures
        r.operator == tags_spec(label@).0,
        strings_view(r.values@) == tags_spec(label@).1,
{
    let not = chars_of("not ");
    let and = chars_of(" & ");
    let comma = chars_of(",");
    proof {
        reveal_strlit("not ");
        reveal_strlit(" & ");
        reveal_strlit(",");
    }
    let (operator, parts) = if starts_with(label, &not) {
        let body = slice(label, 4, label.len());
        proof {
            assert(body@ =~= label@.skip(4));
        }
        (TagOperator::Not, split_on(&body, &comma))
    } else if find(label, &and).is_some() {
        (TagOperator::And, split_on(label, &and))
    } else {
        (TagOperator::Or, split_on(label, &comma))
    };
    let ghost pv = parts@.map_values(|v: Vec<char>| v@);
    let mut values: Vec<String> = Vec::new();
    let mut i: usize = 0;
    while i < parts.len()
        invariant
            i <= parts.len(),
            pv == parts@.map_values(|v: Vec<char>| v@),
            strings_view(values@) == nonempty_trimmed(pv.take(i as int)),
        decreases parts.len() - i,
    {
        let t = trimmed(&parts[i]);
        proof {
            assert(pv.take(i + 1).drop_last() =~= pv.take(i as int));
            assert(pv.take(i + 1).last() == parts@[i as int]@);
        }
        if t.len() > 0 {
            let s = string_of(&t);
            values.push(s);
            proof {
                assert(strings_view(values@) =~= strings_view(values@.drop_last()).push(s@));
            }
        }
        i += 1;
    }
    proof {
        assert(pv.take(parts.len() as int) =~= pv);
    }
    TagCondition { operator, values }
}

/// Quote parity: how many `"` come before `i`.
pub open spec fn quotes_before(s: Seq<char>, i: int) -> int
    decreases i,
{
    if i <= 0 {
        0
    } else {
        quotes_before(s, i - 1) + if s[i - 1] == '"' {
            1int
        } else {
            0
        }
    }
}

/// A comment starts at `i`: `%%` outside quotes.
pub open spec fn comment_at(s: Seq<char>, i: int) -> bool {
    0 <= i && i + 1 < s.len() && s[i] == '%' && s[i + 1] == '%' && quotes_before(s, i) % 2 == 0
}

/// Where the line's comment starts, or its length when it has none.
pub open spec fn comment_cut(s: Seq<char>, i: int) -> int
    decreases s.len() - i,
{
    if i < 0 || i >= s.len() {
        s.len() as int
    } else if comment_at(s, i) {
        i
    } else {
        comment_cut(s, i + 1)
    }
}

fn strip_comment(line: &Vec<char>) -> (r: Vec<char>)
    ensures
        r@ == line@.take(comment_cut(line@, 0)),
{
    let mut in_quote = false;
    let mut i: usize = 0;
    while i < line.len()
        invariant
            i <= line.len(),
            comment_cut(line@, 0) == comment_cut(line@, i as int),
            in_quote == (quotes_before(line@, i as int) % 2 == 1),
        decreases line.len() - i,
    {
        let c = line[i];
        if c == '%' && !in_quote && i + 1 < line.len() && line[i + 1] == '%' {
            return slice(line, 0, i);
        }
        if c == '"' {
            in_quote = !in_quote;
        }
        i += 1;
    }
    proof {
        assert(line@.take(line.len() as int) =~= line@);
    }
    slice(line, 0, line.len())
}

/// The first word of a line.
pub open spec fn token(s: Seq<char>) -> Seq<char>
    decreases s.len(),
{
    if s.len() == 0 || is_ws(s[0]) {
        Seq::empty()
    } else {
        seq![s[0]] + token(s.drop_first())
    }
}

fn first_word(s: &Vec<char>) -> (r: Vec<char>)
    ensures
        r@ == token(s@),
{
    let mut i: usize = 0;
    proof {
        assert(s@.skip(0) =~= s@);
    }
    while i < s.len() && !ws(s[i])
        invariant
            i <= s.len(),
            token(s@) == s@.take(i as int) + token(s@.skip(i as int)),
        decreases s.len() - i,
    {
        proof {
            assert(s@.skip(i as int).drop_first() =~= s@.skip(i + 1));
            assert(s@.take(i as int) + seq![s@[i as int]] =~= s@.take(i + 1));
        }
        i += 1;
    }
    proof {
        assert(s@.take(i as int) + Seq::<char>::empty() =~= s@.take(i as int));
    }
    slice(s, 0, i)
}


// ---- statements -------------------------------------------------------------

/// A node as first declared.
pub struct NodeS {
    pub id: Seq<char>,
    pub label: Seq<char>,
    pub kind: Option<VertexKind>,
    pub group: Option<Seq<char>>,
}

/// An edge statement as written.
pub struct LinkS {
    pub from: Seq<char>,
    pub to: Seq<char>,
    pub label: Option<Seq<char>>,
    pub dotted: bool,
}

/// What the lines read so far declare: nodes in first-declaration order,
/// edge statements, subgraphs `(id, label)` in order, the open subgraphs,
/// and whether the header has been read.
pub struct PState {
    pub nodes: Seq<NodeS>,
    pub links: Seq<LinkS>,
    pub groups: Seq<(Seq<char>, Seq<char>)>,
    pub stack: Seq<Seq<char>>,
    pub header: bool,
}

pub open spec fn has_id(nodes: Seq<NodeS>, id: Seq<char>) -> bool {
    exists|i: int| 0 <= i < nodes.len() && nodes[i].id == id
}

/// A node is declared once: the first declaration of an id stands.
pub open spec fn declare(nodes: Seq<NodeS>, n: NodeS) -> Seq<NodeS> {
    if has_id(nodes, n.id) {
        nodes
    } else {
        nodes.push(n)
    }
}

/// Statements that style or configure the chart; skipped.
pub open spec fn skipped_kw(low: Seq<char>) -> bool {
    ||| starts(low, "style "@)
    ||| starts(low, "classdef "@)
    ||| starts(low, "class "@)
    ||| starts(low, "linkstyle "@)
    ||| starts(low, "direction "@)
    ||| starts(low, "click "@)
}

pub open spec fn lower_all(s: Seq<char>) -> Seq<char> {
    s.map_values(|c: char| lower(c))
}

/// One line read: comments stripped and the line trimmed; blank lines
/// skipped; the first line must start `graph` or `flowchart` (`None`
/// otherwise); then `subgraph`, `end`, styling, an edge statement with its
/// endpoints declared, or a node declaration, each in the innermost open
/// subgraph.
pub open spec fn step_spec(st: PState, raw: Seq<char>) -> Option<PState> {
    let line = trim(raw.take(comment_cut(raw, 0)));
    if line.len() == 0 {
        Some(st)
    } else if !st.header {
        let head = lower_all(token(line));
        if head == "graph"@ || head == "flowchart"@ {
            Some(PState { header: true, ..st })
        } else {
            None
        }
    } else {
        let low = lower_all(line);
        if starts(line, "subgraph "@) {
            let (id, label) = subgraph_spec(trim(line.skip(9)));
            Some(PState { groups: st.groups.push((id, label)), stack: st.stack.push(id), ..st })
        } else if low == "end"@ {
            Some(
                PState {
                    stack: if st.stack.len() > 0 {
                        st.stack.drop_last()
                    } else {
                        st.stack
                    },
                    ..st
                },
            )
        } else if skipped_kw(low) {
            Some(st)
        } else {
            let group = if st.stack.len() > 0 {
                Some(st.stack.last())
            } else {
                None
            };
            match edge_spec(line) {
                Some(t) => {
                    let a = node_spec(t.src);
                    let b = node_spec(t.dst);
                    let nodes = declare(
                        declare(st.nodes, NodeS { id: a.id, label: a.label, kind: a.kind, group }),
                        NodeS { id: b.id, label: b.label, kind: b.kind, group },
                    );
                    Some(
                        PState {
                            nodes,
                            links: st.links.push(
                                LinkS { from: a.id, to: b.id, label: t.label, dotted: t.op == 0 },
                            ),
                            ..st
                        },
                    )
                },
                None => {
                    let a = node_spec(line);
                    Some(
                        PState {
                            nodes: declare(
                                st.nodes,
                                NodeS { id: a.id, label: a.label, kind: a.kind, group },
                            ),
                            ..st
                        },
                    )
                },
            }
        }
    }
}

/// The lines read in turn; `None` when the header is wrong.
pub open spec fn fold_lines(lines: Seq<Seq<char>>, st: PState) -> Option<PState>
    decreases lines.len(),
{
    if lines.len() == 0 {
        Some(st)
    } else {
        match step_spec(st, lines[0]) {
            None => None,
            Some(next) => fold_lines(lines.drop_first(), next),
        }
    }
}

pub open spec fn initial() -> PState {
    PState {
        nodes: Seq::empty(),
        links: Seq::empty(),
        groups: Seq::empty(),
        stack: Seq::empty(),
        header: false,
    }
}

/// What a source declares, line by line.
pub open spec fn parse_spec(src: Seq<char>) -> Option<PState> {
    fold_lines(split(src, "\n"@), initial())
}

struct Node {
    id: Vec<char>,
    label: Vec<char>,
    kind: Option<VertexKind>,
    group: Option<Vec<char>>,
}

pub open spec fn opt_view(o: Option<Vec<char>>) -> Option<Seq<char>> {
    match o {
        Some(v) => Some(v@),
        None => None,
    }
}

impl View for Node {
    type V = NodeS;

    closed spec fn view(&self) -> NodeS {
        NodeS { id: self.id@, label: self.label@, kind: self.kind, group: opt_view(self.group) }
    }
}

struct Link {
    from: Vec<char>,
    to: Vec<char>,
    label: Option<Vec<char>>,
    dotted: bool,
}

impl View for Link {
    type V = LinkS;

    closed spec fn view(&self) -> LinkS {
        LinkS { from: self.from@, to: self.to@, label: opt_view(self.label), dotted: self.dotted }
    }
}

struct Parser {
    nodes: Vec<Node>,
    links: Vec<Link>,
    groups: Vec<(Vec<char>, Vec<char>)>,
    stack: Vec<Vec<char>>,
    header: bool,
}

impl View for Parser {
    type V = PState;

    closed spec fn view(&self) -> PState {
        PState {
            nodes: self.nodes@.map_values(|n: Node| n@),
            links: self.links@.map_values(|l: Link| l@),
            groups: self.groups@.map_values(|g: (Vec<char>, Vec<char>)| (g.0@, g.1@)),
            stack: self.stack@.map_values(|v: Vec<char>| v@),
            header: self.header,
        }
    }
}

fn copy_opt(o: &Option<Vec<char>>) -> (r: Option<Vec<char>>)
    ensures
        opt_view(r) == opt_view(*o),
{
    match o {
        Some(v) => Some(v.clone()),
        None => None,
    }
}

fn lit(s: &str) -> (r: Vec<char>)
    ensures
        r@ == s@,
{
    chars_of(s)
}

impl Parser {
    fn declare(&mut self, id: Vec<char>, label: Vec<char>, kind: Option<VertexKind>, group: Option<Vec<char>>)
        ensures
            final(self)@ == (PState {
                nodes: declare(old(self)@.nodes, NodeS { id: id@, label: label@, kind, group: opt_view(group) }),
                ..old(self)@
            }),
    {
        let mut i: usize = 0;
        while i < self.nodes.len()
            invariant
                i <= self.nodes.len(),
                forall|j: int| 0 <= j < i ==> #[trigger] self.nodes@[j].id@ != id@,
            decreases self.nodes.len() - i,
        {
            if same(&self.nodes[i].id, &id) {
                proof {
                    assert(self@.nodes[i as int].id == id@);
                }
                return;
            }
            i += 1;
        }
        let ghost before = self@;
        proof {
            assert(!has_id(before.nodes, id@)) by {
                if has_id(before.nodes, id@) {
                    let j = choose|j: int| 0 <= j < before.nodes.len() && before.nodes[j].id == id@;
                    assert(self.nodes@[j].id@ == id@);
                }
            }
        }
        self.nodes.push(Node { id, label, kind, group });
        proof {
            assert(self@.nodes =~= before.nodes.push(self.nodes@.last()@));
        }
    }

    /// One line read, as `step_spec` says; false when the header is wrong.
    fn step(&mut self, raw: &Vec<char>) -> (ok: bool)
        ensures
            ok <==> step_spec(old(self)@, raw@) is Some,
            ok ==> step_spec(old(self)@, raw@) == Some(final(self)@),
    {
        let stripped = strip_comment(raw);
        let line = trimmed(&stripped);
        if line.len() == 0 {
            return true;
        }
        if !self.header {
            let w = first_word(&line);
            let head = lowered(&w);
            if same(&head, &lit("graph")) || same(&head, &lit("flowchart")) {
                self.header = true;
                return true;
            }
            return false;
        }
        let low = lowered(&line);
        let sub = lit("subgraph ");
        proof {
            reveal_strlit("subgraph ");
        }
        if starts_with(&line, &sub) {
            let rest = slice(&line, 9, line.len());
            proof {
                assert(rest@ =~= line@.skip(9));
            }
            let rest = trimmed(&rest);
            let (id, label) = parse_subgraph(&rest);
            let ghost before = self@;
            self.groups.push((id.clone(), label));
            self.stack.push(id);
            proof {
                assert(self@.groups =~= before.groups.push((id@, subgraph_spec(rest@).1)));
                assert(self@.stack =~= before.stack.push(id@));
            }
            return true;
        }
        if same(&low, &lit("end")) {
            let ghost before = self@;
            if self.stack.len() > 0 {
                self.stack.pop();
                proof {
                    assert(self@.stack =~= before.stack.drop_last());
                }
            }
            return true;
        }
        if starts_with(&low, &lit("style ")) || starts_with(&low, &lit("classdef ")) || starts_with(
            &low,
            &lit("class "),
        ) || starts_with(&low, &lit("linkstyle ")) || starts_with(&low, &lit("direction "))
            || starts_with(&low, &lit("click ")) {
            return true;
        }
        let group: Option<Vec<char>> = if self.stack.len() > 0 {
            Some(self.stack[self.stack.len() - 1].clone())
        } else {
            None
        };
        proof {
            if self.stack.len() > 0 {
                assert(self@.stack.last() == self.stack@[self.stack.len() - 1]@);
            }
        }
        match parse_edge(&line) {
            Some((s, op, label, d)) => {
                let (sid, sl, sk) = parse_node(&s);
                let (did, dl, dk) = parse_node(&d);
                self.declare(sid.clone(), sl, sk, copy_opt(&group));
                self.declare(did.clone(), dl, dk, group);
                let ghost before = self@;
                self.links.push(Link { from: sid, to: did, label, dotted: op == 0 });
                proof {
                    assert(self@.links =~= before.links.push(self.links@.last()@));
                }
                true
            },
            None => {
                let (id, l, k) = parse_node(&line);
                self.declare(id, l, k, group);
                true
            },
        }
    }
}

fn parse(src: &Vec<char>) -> (r: Option<Parser>)
    ensures
        match parse_spec(src@) {
            None => r is None,
            Some(st) => r matches Some(p) && p@ == st,
        },
{
    let nl = lit("\n");
    proof {
        reveal_strlit("\n");
    }
    let lines = split_text(src, &nl);
    let ghost ls = lines@.map_values(|v: Vec<char>| v@);
    let mut p = Parser {
        nodes: Vec::new(),
        links: Vec::new(),
        groups: Vec::new(),
        stack: Vec::new(),
        header: false,
    };
    proof {
        assert(p@.nodes =~= Seq::<NodeS>::empty());
        assert(p@.links =~= Seq::<LinkS>::empty());
        assert(p@.groups =~= Seq::<(Seq<char>, Seq<char>)>::empty());
        assert(p@.stack =~= Seq::<Seq<char>>::empty());
        assert(ls.skip(0) =~= ls);
    }
    let mut i: usize = 0;
    while i < lines.len()
        invariant
            i <= lines.len(),
            ls == lines@.map_values(|v: Vec<char>| v@),
            ls == split(src@, "\n"@),
            fold_lines(ls, initial()) == fold_lines(ls.skip(i as int), p@),
        decreases lines.len() - i,
    {
        proof {
            assert(ls.skip(i as int)[0] == lines@[i as int]@);
            assert(ls.skip(i as int).drop_first() =~= ls.skip(i + 1));
        }
        if !p.step(&lines[i]) {
            return None;
        }
        i += 1;
    }
    Some(p)
}

// ---- topologies --------------------------------------------------------------

/// Why a flowchart does not import.
#[derive(Debug)]
pub enum ImportError {
    /// The first statement is not `graph` or `flowchart`.
    NotAFlowchart,
    /// The vertices and edges of pipeline `.0` do not make a topology.
    Topology(String, TopologyError),
    /// In pipeline `.0`, the vertex labelled `.1` has no valid name.
    BadName(String, String),
}

/// `ImportError` as plain values.
pub enum ImportErrS {
    NotAFlowchart,
    Topology(Seq<char>),
    BadName(Seq<char>, Seq<char>),
}

impl ImportError {
    pub open spec fn spec_kind(&self) -> ImportErrS {
        match self {
            ImportError::NotAFlowchart => ImportErrS::NotAFlowchart,
            ImportError::Topology(p, _) => ImportErrS::Topology(p@),
            ImportError::BadName(p, l) => ImportErrS::BadName(p@, l@),
        }
    }
}

/// The vertex nodes of one subgraph (`None`: outside every subgraph), in
/// declaration order: external nodes have no kind and are dropped.
pub open spec fn vnodes(nodes: Seq<NodeS>, gid: Option<Seq<char>>) -> Seq<NodeS>
    decreases nodes.len(),
{
    if nodes.len() == 0 {
        Seq::empty()
    } else {
        let r = vnodes(nodes.drop_last(), gid);
        let n = nodes.last();
        if n.group == gid && n.kind is Some {
            r.push(n)
        } else {
            r
        }
    }
}

/// The label of the first vertex node whose label makes no valid name.
pub open spec fn first_bad(vs: Seq<NodeS>) -> Option<Seq<char>>
    decreases vs.len(),
{
    if vs.len() == 0 {
        None
    } else if !valid_name(vertex_name_spec(vs[0].label)) {
        Some(vs[0].label)
    } else {
        first_bad(vs.drop_first())
    }
}

/// The vertex name of the node with this id.
pub open spec fn name_of_id(vs: Seq<NodeS>, id: Seq<char>) -> Option<Seq<char>>
    decreases vs.len(),
{
    if vs.len() == 0 {
        None
    } else if vs[0].id == id {
        Some(vertex_name_spec(vs[0].label))
    } else {
        name_of_id(vs.drop_first(), id)
    }
}

/// An imported edge: from, to, and the tag condition its label writes.
pub struct EdgeS {
    pub from: Seq<char>,
    pub to: Seq<char>,
    pub tags: Option<(TagOperator, Seq<Seq<char>>)>,
}

pub open spec fn has_pair(es: Seq<EdgeS>, from: Seq<char>, to: Seq<char>) -> bool {
    exists|i: int| 0 <= i < es.len() && es[i].from == from && es[i].to == to
}

/// The edges of one pipeline: solid edge statements between two of its
/// vertex nodes, the first of each pair of vertices only.
pub open spec fn group_edges(links: Seq<LinkS>, vs: Seq<NodeS>) -> Seq<EdgeS>
    decreases links.len(),
{
    if links.len() == 0 {
        Seq::empty()
    } else {
        let r = group_edges(links.drop_last(), vs);
        let l = links.last();
        match (name_of_id(vs, l.from), name_of_id(vs, l.to)) {
            (Some(f), Some(t)) => if l.dotted || has_pair(r, f, t) {
                r
            } else {
                r.push(
                    EdgeS {
                        from: f,
                        to: t,
                        tags: match l.label {
                            Some(x) => Some(tags_spec(x)),
                            None => None,
                        },
                    },
                )
            },
            _ => r,
        }
    }
}

/// One imported pipeline: its label, its vertices' names and kinds, its edges.
pub struct GroupOut {
    pub label: Seq<char>,
    pub names: Seq<Seq<char>>,
    pub kinds: Seq<VertexKind>,
    pub edges: Seq<EdgeS>,
}

pub open spec fn distinct(s: Seq<Seq<char>>) -> bool {
    forall|i: int, j: int| 0 <= i < j < s.len() ==> s[i] != s[j]
}

/// One subgraph imported: a bad name first, then nothing when it has no
/// vertices, then a topology error when two vertices share a name.
pub open spec fn group_spec(p: PState, gid: Option<Seq<char>>, glabel: Seq<char>) -> Result<
    Option<GroupOut>,
    ImportErrS,
> {
    let vs = vnodes(p.nodes, gid);
    match first_bad(vs) {
        Some(l) => Err(ImportErrS::BadName(glabel, l)),
        None => if vs.len() == 0 {
            Ok(None)
        } else {
            let names = vs.map_values(|n: NodeS| vertex_name_spec(n.label));
            if !distinct(names) {
                Err(ImportErrS::Topology(glabel))
            } else {
                Ok(
                    Some(
                        GroupOut {
                            label: glabel,
                            names,
                            kinds: vs.map_values(|n: NodeS| n.kind.unwrap()),
                            edges: group_edges(p.links, vs),
                        },
                    ),
                )
            }
        },
    }
}

/// The pipelines: one per subgraph, or one called `pipeline` for the whole
/// chart when it has none.
pub open spec fn group_list(p: PState) -> Seq<(Option<Seq<char>>, Seq<char>)> {
    if p.groups.len() == 0 {
        seq![(None, "pipeline"@)]
    } else {
        p.groups.map_values(|g: (Seq<char>, Seq<char>)| (Some(g.0), g.1))
    }
}

pub open spec fn build_from(p: PState, gl: Seq<(Option<Seq<char>>, Seq<char>)>) -> Result<
    Seq<GroupOut>,
    ImportErrS,
>
    decreases gl.len(),
{
    if gl.len() == 0 {
        Ok(Seq::empty())
    } else {
        match group_spec(p, gl[0].0, gl[0].1) {
            Err(e) => Err(e),
            Ok(g) => match build_from(p, gl.drop_first()) {
                Err(e) => Err(e),
                Ok(rest) => match g {
                    Some(x) => Ok(seq![x] + rest),
                    None => Ok(rest),
                },
            },
        }
    }
}

/// What `from_mermaid` returns for a source, as plain values.
pub open spec fn import_spec(src: Seq<char>) -> Result<Seq<GroupOut>, ImportErrS> {
    match parse_spec(src) {
        None => Err(ImportErrS::NotAFlowchart),
        Some(p) => build_from(p, group_list(p)),
    }
}

pub open spec fn tags_view(c: Option<TagCondition>) -> Option<(TagOperator, Seq<Seq<char>>)> {
    match c {
        Some(c) => Some((c.operator, strings_view(c.values@))),
        None => None,
    }
}

/// An imported vertex: named, of its kind, one partition, default scale, no image.
pub open spec fn vertex_is(v: Vertex, name: Seq<char>, kind: VertexKind) -> bool {
    &&& v.name@ == name
    &&& v.kind == kind
    &&& v.partitions == 1
    &&& v.scale.min is None && v.scale.max is None && !v.scale.disabled
    &&& v.image is None
}

pub open spec fn edge_is(e: Edge, s: EdgeS) -> bool {
    &&& e.from@ == s.from
    &&& e.to@ == s.to
    &&& tags_view(e.conditions) == s.tags
    &&& e.on_full == OnFull::RetryUntilSuccess
}

/// A topology holding what one `GroupOut` says.
pub open spec fn topology_is(t: Topology, g: GroupOut) -> bool {
    &&& t.spec_vertices().len() == g.names.len()
    &&& g.kinds.len() == g.names.len()
    &&& forall|i: int|
        0 <= i < g.names.len() ==> vertex_is(#[trigger] t.spec_vertices()[i], g.names[i], g.kinds[i])
    &&& t.spec_edges().len() == g.edges.len()
    &&& forall|i: int| 0 <= i < g.edges.len() ==> edge_is(#[trigger] t.spec_edges()[i], g.edges[i])
}

pub open spec fn pipelines_are(out: Seq<(String, Topology)>, gs: Seq<GroupOut>) -> bool {
    &&& out.len() == gs.len()
    &&& forall|i: int|
        0 <= i < gs.len() ==> (#[trigger] out[i]).0@ == gs[i].label && topology_is(out[i].1, gs[i])
}

fn same_opt(a: &Option<Vec<char>>, b: &Option<Vec<char>>) -> (r: bool)
    ensures
        r == (opt_view(*a) == opt_view(*b)),
{
    match (a, b) {
        (Some(x), Some(y)) => same(x, y),
        (None, None) => true,
        _ => false,
    }
}

proof fn lemma_vnodes_push(nodes: Seq<NodeS>, gid: Option<Seq<char>>, i: int)
    requires
        0 <= i < nodes.len(),
    ensures
        vnodes(nodes.take(i + 1), gid) == if nodes[i].group == gid && nodes[i].kind is Some {
            vnodes(nodes.take(i), gid).push(nodes[i])
        } else {
            vnodes(nodes.take(i), gid)
        },
{
    assert(nodes.take(i + 1).drop_last() =~= nodes.take(i));
}

proof fn lemma_vnodes_kind(nodes: Seq<NodeS>, gid: Option<Seq<char>>)
    ensures
        forall|k: int| 0 <= k < vnodes(nodes, gid).len() ==> (#[trigger] vnodes(nodes, gid)[k]).kind is Some,
    decreases nodes.len(),
{
    if nodes.len() > 0 {
        lemma_vnodes_kind(nodes.drop_last(), gid);
    }
}

proof fn lemma_first_bad_skip(vs: Seq<NodeS>, i: int)
    requires
        0 <= i < vs.len(),
        valid_name(vertex_name_spec(vs[i].label)),
    ensures
        first_bad(vs.skip(i)) == first_bad(vs.skip(i + 1)),
{
    assert(vs.skip(i).drop_first() =~= vs.skip(i + 1));
}

proof fn lemma_name_of_id(vs: Seq<NodeS>, id: Seq<char>, j: int)
    requires
        0 <= j < vs.len(),
        vs[j].id == id,
        forall|k: int| 0 <= k < j ==> vs[k].id != id,
    ensures
        name_of_id(vs, id) == Some(vertex_name_spec(vs[j].label)),
    decreases j,
{
    if j > 0 {
        lemma_name_of_id(vs.drop_first(), id, j - 1);
    }
}

proof fn lemma_name_of_id_none(vs: Seq<NodeS>, id: Seq<char>)
    requires
        forall|k: int| 0 <= k < vs.len() ==> vs[k].id != id,
    ensures
        name_of_id(vs, id) is None,
    decreases vs.len(),
{
    if vs.len() > 0 {
        lemma_name_of_id_none(vs.drop_first(), id);
    }
}

fn build_group(p: &Parser, gid: &Option<Vec<char>>, glabel: &Vec<char>) -> (r: Result<
    Option<(String, Topology)>,
    ImportError,
>)
    ensures
        match group_spec(p@, opt_view(*gid), glabel@) {
            Err(e) => r matches Err(x) && x.spec_kind() == e,
            Ok(None) => r matches Ok(None),
            Ok(Some(g)) => r matches Ok(Some(x)) && x.0@ == g.label && topology_is(x.1, g),
        },
{
    let ghost pv = p@;
    // The vertex nodes of this subgraph, as indices into `p.nodes`.
    let mut vs: Vec<usize> = Vec::new();
    let mut i: usize = 0;
    while i < p.nodes.len()
        invariant
            i <= p.nodes.len(),
            pv == p@,
            forall|j: int| 0 <= j < vs.len() ==> #[trigger] vs@[j] < p.nodes.len(),
            vs@.map_values(|k: usize| p.nodes@[k as int]@) == vnodes(pv.nodes.take(i as int), opt_view(*gid)),
        decreases p.nodes.len() - i,
    {
        proof {
            lemma_vnodes_push(pv.nodes, opt_view(*gid), i as int);
            assert(pv.nodes[i as int] == p.nodes@[i as int]@);
        }
        if same_opt(&p.nodes[i].group, gid) && p.nodes[i].kind.is_some() {
            vs.push(i);
            proof {
                assert(vs@.map_values(|k: usize| p.nodes@[k as int]@) =~= vnodes(pv.nodes.take(i as int), opt_view(*gid)).push(p.nodes@[i as int]@));
            }
        }
        i += 1;
    }
    proof {
        assert(pv.nodes.take(p.nodes.len() as int) =~= pv.nodes);
    }
    let ghost vseq = vnodes(pv.nodes, opt_view(*gid));
    proof {
        lemma_vnodes_kind(pv.nodes, opt_view(*gid));
    }
    assert(vs@.map_values(|k: usize| p.nodes@[k as int]@) == vseq);
    assert(forall|j: int| 0 <= j < vs.len() ==> #[trigger] vseq[j] == p.nodes@[vs@[j] as int]@);
    // Names, checked in order.
    let mut names: Vec<VertexName> = Vec::new();
    let mut vertices: Vec<Vertex> = Vec::new();
    proof {
        assert(vseq.skip(0) =~= vseq);
    }
    let mut j: usize = 0;
    while j < vs.len()
        invariant
            j <= vs.len(),
            pv == p@,
            vs@.len() == vseq.len(),
            forall|k: int| 0 <= k < vs.len() ==> #[trigger] vs@[k] < p.nodes.len(),
            forall|k: int| 0 <= k < vs.len() ==> #[trigger] vseq[k] == p.nodes@[vs@[k] as int]@,
            first_bad(vseq) == first_bad(vseq.skip(j as int)),
            vseq == vnodes(pv.nodes, opt_view(*gid)),
            names.len() == j,
            vertices.len() == j,
            forall|k: int| 0 <= k < j ==> (#[trigger] names@[k])@ == vertex_name_spec(vseq[k].label),
            forall|k: int| 0 <= k < j ==> vertex_is(#[trigger] vertices@[k], vertex_name_spec(vseq[k].label), vseq[k].kind.unwrap()),
            forall|k: int| 0 <= k < vseq.len() ==> (#[trigger] vseq[k]).kind is Some,
        decreases vs.len() - j,
    {
        let node = &p.nodes[vs[j]];
        let cs = vertex_name(&node.label);
        let text = string_of(&cs);
        match VertexName::new(text.as_str()) {
            Ok(name) => {
                proof {
                    lemma_first_bad_skip(vseq, j as int);
                }
                let kind = match node.kind {
                    Some(k) => k,
                    None => VertexKind::MapUdf,
                };
                vertices.push(
                    Vertex {
                        name: name.copy(),
                        kind,
                        partitions: 1,
                        scale: ScaleSpec::default(),
                        image: None,
                    },
                );
                names.push(name);
            },
            Err(_) => {
                proof {
                    assert(vseq.skip(j as int)[0] == vseq[j as int]);
                    assert(node.label@ == vseq[j as int].label);
                    assert(!valid_name(vertex_name_spec(vseq[j as int].label)));
                    assert(first_bad(vseq.skip(j as int)) == Some(vseq[j as int].label));
                }
                let gs = string_of(glabel);
                let ls = string_of(&node.label);
                let err = ImportError::BadName(gs, ls);
                proof {
                    assert(err.spec_kind() == ImportErrS::BadName(glabel@, vseq[j as int].label));
                    assert(group_spec(p@, opt_view(*gid), glabel@) == Err::<Option<GroupOut>, ImportErrS>(ImportErrS::BadName(glabel@, vseq[j as int].label)));
                }
                return Err(err);
            },
        }
        j += 1;
    }
    proof {
        assert(first_bad(vseq.skip(vs.len() as int)) is None);
    }
    if vs.len() == 0 {
        return Ok(None);
    }
    // Edges: solid, between two of these vertices, one per pair.
    let ghost lv = pv.links;
    let mut edges: Vec<Edge> = Vec::new();
    let ghost mut es: Seq<EdgeS> = Seq::empty();
    let mut l: usize = 0;
    while l < p.links.len()
        invariant
            l <= p.links.len(),
            pv == p@,
            lv == pv.links,
            vs@.len() == vseq.len(),
            names.len() == vs.len(),
            forall|k: int| 0 <= k < vs.len() ==> #[trigger] vs@[k] < p.nodes.len(),
            forall|k: int| 0 <= k < vs.len() ==> #[trigger] vseq[k] == p.nodes@[vs@[k] as int]@,
            forall|k: int| 0 <= k < vs.len() ==> (#[trigger] names@[k])@ == vertex_name_spec(vseq[k].label),
            es == group_edges(lv.take(l as int), vseq),
            edges.len() == es.len(),
            forall|k: int| 0 <= k < es.len() ==> edge_is(#[trigger] edges@[k], es[k]),
        decreases p.links.len() - l,
    {
        let link = &p.links[l];
        proof {
            assert(lv.take(l + 1).drop_last() =~= lv.take(l as int));
            assert(lv.take(l + 1).last() == p.links@[l as int]@);
        }
        let f = lookup(p, &vs, &link.from, Ghost(vseq));
        let t = lookup(p, &vs, &link.to, Ghost(vseq));
        match (f, t) {
            (Some(a), Some(b)) => {
                if !link.dotted {
                    let mut dup = false;
                    let mut k: usize = 0;
                    while k < edges.len()
                        invariant
                            k <= edges.len(),
                            edges.len() == es.len(),
                            a < names.len(),
                            b < names.len(),
                            forall|q: int| 0 <= q < es.len() ==> edge_is(#[trigger] edges@[q], es[q]),
                            dup <==> exists|q: int| 0 <= q < k && es[q].from == names@[a as int]@ && es[q].to == names@[b as int]@,
                        decreases edges.len() - k,
                    {
                        if edges[k].from.same(&names[a]) && edges[k].to.same(&names[b]) {
                            dup = true;
                        }
                        k += 1;
                    }
                    if !dup {
                        let conditions = match &link.label {
                            Some(x) => Some(tags(x)),
                            None => None,
                        };
                        edges.push(
                            Edge {
                                from: names[a].copy(),
                                to: names[b].copy(),
                                conditions,
                                on_full: OnFull::RetryUntilSuccess,
                            },
                        );
                        proof {
                            es = es.push(
                                EdgeS {
                                    from: names@[a as int]@,
                                    to: names@[b as int]@,
                                    tags: match link@.label {
                                        Some(x) => Some(tags_spec(x)),
                                        None => None,
                                    },
                                },
                            );
                        }
                    }
                }
            },
            _ => {},
        }
        l += 1;
    }
    proof {
        assert(lv.take(p.links.len() as int) =~= lv);
    }
    let ghost names_spec = vseq.map_values(|n: NodeS| vertex_name_spec(n.label));
    proof {
        assert forall|k: int| 0 <= k < vertices.len() implies #[trigger] vertices@[k].name@ == names_spec[k] by {}
        // Every edge joins two of the names, and no pair is joined twice.
        assert forall|k: int| 0 <= k < edges.len() implies has_name(vertices@, #[trigger] edges@[k].from@) && has_name(vertices@, edges@[k].to@) by {
            lemma_group_edges_known(lv, vseq, k);
            let (x, y) = choose|x: int, y: int| 0 <= x < vseq.len() && 0 <= y < vseq.len() && es[k].from == vertex_name_spec(vseq[x].label) && es[k].to == vertex_name_spec(vseq[y].label);
            assert(vertices@[x].name@ == es[k].from);
            assert(vertices@[y].name@ == es[k].to);
        }
        assert forall|a: int, b: int| 0 <= a < b < edges.len() implies !(#[trigger] edges@[a].from@ == #[trigger] edges@[b].from@ && edges@[a].to@ == edges@[b].to@) by {
            lemma_group_edges_distinct(lv, vseq, a, b);
        }
    }
    let gname = string_of(glabel);
    match Topology::new(vertices, edges) {
        Ok(t) => {
            proof {
                assert(distinct(names_spec)) by {
                    assert forall|a: int, b: int| 0 <= a < b < names_spec.len() implies names_spec[a] != names_spec[b] by {
                        assert(t.spec_vertices()[a].name@ != t.spec_vertices()[b].name@);
                    }
                }
            }
            Ok(Some((gname, t)))
        },
        Err(e) => {
            proof {
                if distinct(names_spec) {
                    assert forall|a: int, b: int| 0 <= a < b < vertices@.len() implies #[trigger] vertices@[a].name@ != #[trigger] vertices@[b].name@ by {
                        assert(names_spec[a] != names_spec[b]);
                    }
                }
            }
            Err(ImportError::Topology(gname, e))
        },
    }
}

proof fn lemma_group_edges_known(links: Seq<LinkS>, vs: Seq<NodeS>, k: int)
    requires
        0 <= k < group_edges(links, vs).len(),
    ensures
        exists|x: int, y: int|
            0 <= x < vs.len() && 0 <= y < vs.len() && group_edges(links, vs)[k].from
                == vertex_name_spec(vs[x].label) && group_edges(links, vs)[k].to
                == vertex_name_spec(vs[y].label),
    decreases links.len(),
{
    let r = group_edges(links.drop_last(), vs);
    if k < r.len() {
        lemma_group_edges_known(links.drop_last(), vs, k);
    } else {
        let l = links.last();
        lemma_name_of_id_some(vs, l.from);
        lemma_name_of_id_some(vs, l.to);
    }
}

proof fn lemma_name_of_id_some(vs: Seq<NodeS>, id: Seq<char>)
    ensures
        name_of_id(vs, id) matches Some(n) ==> exists|x: int| 0 <= x < vs.len() && n == vertex_name_spec(#[trigger] vs[x].label),
    decreases vs.len(),
{
    if vs.len() > 0 && vs[0].id != id {
        lemma_name_of_id_some(vs.drop_first(), id);
        if name_of_id(vs, id) is Some {
            let x = choose|x: int| 0 <= x < vs.drop_first().len() && name_of_id(vs, id)->0 == vertex_name_spec(#[trigger] vs.drop_first()[x].label);
            assert(vs[x + 1] == vs.drop_first()[x]);
        }
    }
}

proof fn lemma_group_edges_distinct(links: Seq<LinkS>, vs: Seq<NodeS>, a: int, b: int)
    requires
        0 <= a < b < group_edges(links, vs).len(),
    ensures
        !(group_edges(links, vs)[a].from == group_edges(links, vs)[b].from && group_edges(links, vs)[a].to
            == group_edges(links, vs)[b].to),
    decreases links.len(),
{
    let r = group_edges(links.drop_last(), vs);
    if b < r.len() {
        lemma_group_edges_distinct(links.drop_last(), vs, a, b);
    } else {
        let g = group_edges(links, vs);
        assert(g[a] == r[a]);
    }
}

/// The index in `vs` of the first vertex node with this id.
fn lookup(p: &Parser, vs: &Vec<usize>, id: &Vec<char>, Ghost(vseq): Ghost<Seq<NodeS>>) -> (r: Option<usize>)
    requires
        vs@.len() == vseq.len(),
        forall|k: int| 0 <= k < vs.len() ==> #[trigger] vs@[k] < p.nodes.len(),
        forall|k: int| 0 <= k < vs.len() ==> #[trigger] vseq[k] == p.nodes@[vs@[k] as int]@,
    ensures
        match r {
            Some(j) => j < vs.len() && name_of_id(vseq, id@) == Some(vertex_name_spec(vseq[j as int].label)),
            None => name_of_id(vseq, id@) is None,
        },
{
    let mut j: usize = 0;
    while j < vs.len()
        invariant
            j <= vs.len(),
            vs@.len() == vseq.len(),
            forall|k: int| 0 <= k < vs.len() ==> #[trigger] vs@[k] < p.nodes.len(),
            forall|k: int| 0 <= k < vs.len() ==> #[trigger] vseq[k] == p.nodes@[vs@[k] as int]@,
            forall|k: int| 0 <= k < j ==> vseq[k].id != id@,
        decreases vs.len() - j,
    {
        if same(&p.nodes[vs[j]].id, id) {
            proof {
                lemma_name_of_id(vseq, id@, j as int);
            }
            return Some(j);
        }
        j += 1;
    }
    proof {
        lemma_name_of_id_none(vseq, id@);
    }
    None
}

/// Parse a flowchart into one topology per subgraph (or one called
/// `pipeline` for the whole chart when there are no subgraphs), as
/// `import_spec` says. Cross-subgraph, dotted and external edges are
/// dropped: a Numaflow pipeline is one subgraph.
pub fn from_mermaid(src: &str) -> (r: Result<Vec<(String, Topology)>, ImportError>)
    ensures
        match import_spec(src@) {
            Err(e) => r matches Err(x) && x.spec_kind() == e,
            Ok(gs) => r matches Ok(out) && pipelines_are(out@, gs),
        },
{
    let cs = chars_of(src);
    let parsed = parse(&cs);
    let p = match parsed {
        None => return Err(ImportError::NotAFlowchart),
        Some(p) => p,
    };
    let ghost pv = p@;
    assert(parse_spec(src@) == Some(pv));
    // The pipelines to build, as (subgraph id, label).
    let mut gl: Vec<(Option<Vec<char>>, Vec<char>)> = Vec::new();
    if p.groups.len() == 0 {
        gl.push((None, lit("pipeline")));
    } else {
        let mut i: usize = 0;
        while i < p.groups.len()
            invariant
                i <= p.groups.len(),
                pv == p@,
                gl@.len() == i,
                forall|k: int| 0 <= k < i ==> #[trigger] opt_view(gl@[k].0) == Some(p.groups@[k].0@) && gl@[k].1@ == p.groups@[k].1@,
            decreases p.groups.len() - i,
        {
            gl.push((Some(p.groups[i].0.clone()), p.groups[i].1.clone()));
            i += 1;
        }
    }
    let ghost glv = gl@.map_values(|g: (Option<Vec<char>>, Vec<char>)| (opt_view(g.0), g.1@));
    proof {
        assert(glv =~= group_list(pv));
        assert(glv.skip(0) =~= glv);
    }
    let mut out: Vec<(String, Topology)> = Vec::new();
    let ghost mut acc: Seq<GroupOut> = Seq::empty();
    let mut i: usize = 0;
    while i < gl.len()
        invariant
            i <= gl.len(),
            pv == p@,
            glv == gl@.map_values(|g: (Option<Vec<char>>, Vec<char>)| (opt_view(g.0), g.1@)),
            build_from(pv, glv) == match build_from(pv, glv.skip(i as int)) {
                Err(e) => Err(e),
                Ok(rest) => Ok(acc + rest),
            },
            pipelines_are(out@, acc),
            parse_spec(src@) == Some(pv),
            glv == group_list(pv),
        decreases gl.len() - i,
    {
        proof {
            assert(glv.skip(i as int).drop_first() =~= glv.skip(i + 1));
            assert(glv.skip(i as int)[0] == (opt_view(gl@[i as int].0), gl@[i as int].1@));
        }
        match build_group(&p, &gl[i].0, &gl[i].1) {
            Err(e) => {
                proof {
                    let gi = glv.skip(i as int);
                    assert(gi[0] == glv[i as int]);
                    assert(build_from(pv, gi) == Err::<Seq<GroupOut>, ImportErrS>(e.spec_kind()));
                    assert(build_from(pv, glv) == Err::<Seq<GroupOut>, ImportErrS>(e.spec_kind()));
                    assert(parse_spec(src@) == Some(pv));
                    assert(import_spec(src@) == Err::<Seq<GroupOut>, ImportErrS>(e.spec_kind()));
                }
                return Err(e);
            },
            Ok(None) => {},
            Ok(Some(x)) => {
                let ghost g = group_spec(pv, opt_view(gl@[i as int].0), gl@[i as int].1@)->Ok_0->Some_0;
                out.push(x);
                proof {
                    let old_acc = acc;
                    acc = acc.push(g);
                    assert forall|rest: Seq<GroupOut>| #[trigger] (old_acc + (seq![g] + rest)) == acc + rest by {
                        assert(old_acc + (seq![g] + rest) =~= acc + rest);
                    }
                }
            },
        }
        i += 1;
    }
    proof {
        assert(acc + Seq::<GroupOut>::empty() =~= acc);
    }
    Ok(out)
}

} // verus!
