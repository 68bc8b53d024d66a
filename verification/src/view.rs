//! The graph the layout sees: vertices, with shard groups collapsed.

use vstd::prelude::*;

use crate::model::{
    Edge, OnFull, TagCondition, TagOperator, Topology, Vertex, VertexKind, VertexName,
};
use crate::text::{chars_of, ends, ends_with, push_all, same, slice, string_of};

verus! {

/// A node of the view graph: its position in `nodes`.
#[derive(Debug, Clone, Copy, PartialEq, Eq, Structural, Hash, PartialOrd, Ord)]
pub struct NodeId(pub u32);

#[derive(Debug, Clone, PartialEq, Eq)]
pub struct ViewNode {
    /// `name`, or `stem ×N` for a shard group.
    pub label: String,
    pub kind: VertexKind,
    pub members: Vec<VertexName>,
    pub partitions: u32,
}

impl ViewNode {
    pub open spec fn spec_is_group(&self) -> bool {
        self.members@.len() > 1
    }

    /// A shard group: more than one member.
    pub fn is_group(&self) -> (b: bool)
        ensures
            b == self.spec_is_group(),
    {
        self.members.len() > 1
    }
}

#[derive(Debug, Clone, PartialEq, Eq)]
pub struct ViewEdge {
    pub from: NodeId,
    pub to: NodeId,
    /// Condition values (`not` rendered as a prefix), empty when unconditional.
    pub tags: Vec<String>,
    /// Drops on a full buffer (`discardLatest`) on any member edge.
    pub lossy: bool,
    /// Underlying topology edges (one, or one per shard member pair).
    pub members: Vec<(VertexName, VertexName)>,
}

/// `vs` joined by `sep`.
pub open spec fn join(vs: Seq<Seq<char>>, sep: Seq<char>) -> Seq<char>
    decreases vs.len(),
{
    if vs.len() == 0 {
        Seq::empty()
    } else if vs.len() == 1 {
        vs[0]
    } else {
        join(vs.drop_last(), sep) + sep + vs.last()
    }
}

pub open spec fn strings_view(v: Seq<String>) -> Seq<Seq<char>> {
    v.map_values(|s: String| s@)
}

/// `vs` joined by `sep`.
pub fn join_chars(vs: &Vec<Vec<char>>, sep: &Vec<char>) -> (out: Vec<char>)
    ensures
        out@ == join(vs@.map_values(|v: Vec<char>| v@), sep@),
{
    let ghost vv = vs@.map_values(|v: Vec<char>| v@);
    let mut out: Vec<char> = Vec::new();
    let mut i: usize = 0;
    while i < vs.len()
        invariant
            i <= vs.len(),
            vv == vs@.map_values(|v: Vec<char>| v@),
            out@ == join(vv.take(i as int), sep@),
        decreases vs.len() - i,
    {
        proof {
            assert(vv.take(i + 1).drop_last() =~= vv.take(i as int));
            assert(vv.take(i + 1).last() == vs@[i as int]@);
        }
        if i > 0 {
            append(&mut out, sep);
        } else {
            proof {
                assert(vv.take(1) =~= seq![vs@[0]@]);
            }
        }
        append(&mut out, &vs[i]);
        i += 1;
    }
    proof {
        assert(vv.take(vs.len() as int) =~= vv);
    }
    out
}

/// `a` with `b` added at the end.
pub fn append(a: &mut Vec<char>, b: &Vec<char>)
    ensures
        final(a)@ == old(a)@ + b@,
{
    let ghost start = a@;
    let mut i: usize = 0;
    while i < b.len()
        invariant
            i <= b.len(),
            a@ == start + b@.take(i as int),
        decreases b.len() - i,
    {
        a.push(b[i]);
        proof {
            assert(start + b@.take(i as int) + seq![b@[i as int]] =~= start + b@.take(i + 1));
        }
        i += 1;
    }
    proof {
        assert(b@.take(b.len() as int) =~= b@);
    }
}

impl ViewEdge {
    /// The tags as one label, empty when unconditional.
    pub fn label(&self) -> (s: String)
        ensures
            s@ == join(strings_view(self.tags@), ", "@),
    {
        let ts = strings_chars(&self.tags);
        let s = join_chars(&ts, &chars_of(", "));
        string_of(&s)
    }
}

/// The characters of each string.
pub fn strings_chars(v: &Vec<String>) -> (out: Vec<Vec<char>>)
    ensures
        out@.map_values(|c: Vec<char>| c@) == strings_view(v@),
{
    let mut out: Vec<Vec<char>> = Vec::new();
    let mut i: usize = 0;
    while i < v.len()
        invariant
            i <= v.len(),
            out@.len() == i,
            forall|k: int| 0 <= k < i ==> (#[trigger] out@[k])@ == v@[k]@,
        decreases v.len() - i,
    {
        out.push(chars_of(v[i].as_str()));
        i += 1;
    }
    proof {
        assert(out@.map_values(|c: Vec<char>| c@) =~= strings_view(v@));
    }
    out
}

/// Strings holding these characters.
pub fn strings_of(v: &Vec<Vec<char>>) -> (out: Vec<String>)
    ensures
        strings_view(out@) == v@.map_values(|c: Vec<char>| c@),
{
    let mut out: Vec<String> = Vec::new();
    let mut i: usize = 0;
    while i < v.len()
        invariant
            i <= v.len(),
            out@.len() == i,
            forall|k: int| 0 <= k < i ==> (#[trigger] out@[k])@ == v@[k]@,
        decreases v.len() - i,
    {
        out.push(string_of(&v[i]));
        i += 1;
    }
    proof {
        assert(strings_view(out@) =~= v@.map_values(|c: Vec<char>| c@));
    }
    out
}

#[derive(Debug, Clone, PartialEq, Eq, Default)]
pub struct ViewGraph {
    pub nodes: Vec<ViewNode>,
    pub edges: Vec<ViewEdge>,
}

impl ViewGraph {
    /// Every edge joins two of the nodes.
    pub open spec fn wf(&self) -> bool {
        forall|i: int|
            0 <= i < self.edges@.len() ==> (#[trigger] self.edges@[i]).from.0 < self.nodes@.len()
                && self.edges@[i].to.0 < self.nodes@.len()
    }
}

// ---- decimal numbers ------------------------------------------------------------

pub open spec fn digit(d: int) -> char {
    (('0' as u32) + (d as u32)) as char
}

/// `n` written in decimal.
pub open spec fn dec(n: nat) -> Seq<char>
    decreases n,
{
    if n < 10 {
        seq![digit(n as int)]
    } else {
        dec(n / 10).push(digit((n % 10) as int))
    }
}

/// The decimal digit `d`.
fn digit_char(d: u32) -> (c: char)
    requires
        d < 10,
    ensures
        c == digit(d as int),
{
    ((d as u8) + 48u8) as char
}

/// `n` written in decimal.
pub fn dec_chars(n: u32) -> (out: Vec<char>)
    ensures
        out@ == dec(n as nat),
    decreases n,
{
    if n < 10 {
        let mut v = Vec::new();
        v.push(digit_char(n));
        v
    } else {
        let mut v = dec_chars(n / 10);
        v.push(digit_char(n % 10));
        v
    }
}

/// `n` written in decimal.
pub fn dec_wide(n: u128) -> (out: Vec<char>)
    ensures
        out@ == dec(n as nat),
    decreases n,
{
    if n < 10 {
        let mut v = Vec::new();
        v.push(digit_char(n as u32));
        v
    } else {
        let mut v = dec_wide(n / 10);
        v.push(digit_char((n % 10) as u32));
        v
    }
}

/// `n` in decimal, with a leading `-` when negative.
pub open spec fn signed(n: int) -> Seq<char> {
    if n < 0 {
        "-"@ + dec((-n) as nat)
    } else {
        dec(n as nat)
    }
}

/// `s` right-aligned in `w` columns; a longer `s` as it is.
pub open spec fn right(s: Seq<char>, w: int) -> Seq<char> {
    if s.len() < w {
        Seq::new((w - s.len()) as nat, |i: int| ' ') + s
    } else {
        s
    }
}

/// Append `n` right-aligned in `w` columns.
pub fn push_number(out: &mut String, n: i128, w: usize)
    requires
        n > i128::MIN,
    ensures
        final(out)@ == old(out)@ + right(signed(n as int), w as int),
{
    let mut digits: Vec<char> = Vec::new();
    if n < 0 {
        digits.push('-');
        let rest = dec_wide((-n) as u128);
        append(&mut digits, &rest);
    } else {
        digits = dec_wide(n as u128);
    }
    proof {
        assert(digits@ == signed(n as int)) by {
            if n < 0 {
                assert(digits@ =~= seq!['-'] + dec((-n) as nat));
                reveal_strlit("-");
                assert("-"@ =~= seq!['-']);
            }
        }
    }
    let mut pad: Vec<char> = Vec::new();
    if digits.len() < w {
        let k = w - digits.len();
        let mut i: usize = 0;
        while i < k
            invariant
                i <= k,
                pad@ == Seq::new(i as nat, |j: int| ' '),
            decreases k - i,
        {
            pad.push(' ');
            proof {
                assert(pad@ =~= Seq::new((i + 1) as nat, |j: int| ' '));
            }
            i += 1;
        }
    }
    push_all(out, &pad);
    push_all(out, &digits);
    proof {
        assert(pad@ + digits@ =~= right(signed(n as int), w as int));
    }
}

pub open spec fn is_digit(c: char) -> bool {
    '0' <= c && c <= '9'
}

/// The value of a string of decimal digits.
pub open spec fn dec_val(s: Seq<char>) -> nat
    decreases s.len(),
{
    if s.len() == 0 {
        0
    } else {
        dec_val(s.drop_last()) * 10 + ((s.last() as u32) - ('0' as u32)) as nat
    }
}

// ---- shard names ------------------------------------------------------------------

/// The last `-` in a name.
pub open spec fn last_dash(s: Seq<char>) -> Option<int>
    decreases s.len(),
{
    if s.len() == 0 {
        None
    } else if s.last() == '-' {
        Some(s.len() - 1)
    } else {
        last_dash(s.drop_last())
    }
}

/// `stem-<digits>` → `(stem, index)`: a non-empty stem, a non-empty run of
/// digits after the last `-`, and an index that fits in a `u32`.
pub open spec fn shard_spec(name: Seq<char>) -> Option<(Seq<char>, nat)> {
    match last_dash(name) {
        None => None,
        Some(p) => {
            let stem = name.take(p);
            let idx = name.skip(p + 1);
            if stem.len() > 0 && idx.len() > 0 && (forall|i: int|
                0 <= i < idx.len() ==> is_digit(#[trigger] idx[i])) && dec_val(idx) <= u32::MAX {
                Some((stem, dec_val(idx)))
            } else {
                None
            }
        },
    }
}

proof fn lemma_last_dash(s: Seq<char>)
    ensures
        last_dash(s) matches Some(p) ==> 0 <= p < s.len() && s[p] == '-' && forall|j: int|
            p < j < s.len() ==> s[j] != '-',
        last_dash(s) is None ==> forall|j: int| 0 <= j < s.len() ==> s[j] != '-',
    decreases s.len(),
{
    if s.len() > 0 && s.last() != '-' {
        let t = s.drop_last();
        lemma_last_dash(t);
        assert forall|j: int| 0 <= j < t.len() implies t[j] == s[j] by {}
    }
}

pub fn shard_split(name: &Vec<char>) -> (r: Option<(Vec<char>, u32)>)
    ensures
        match shard_spec(name@) {
            None => r is None,
            Some((stem, idx)) => r matches Some(x) && x.0@ == stem && x.1 as nat == idx,
        },
{
    let mut p: usize = name.len();
    proof {
        assert(name@.take(p as int) =~= name@);
    }
    while p > 0 && name[p - 1] != '-'
        invariant
            p <= name.len(),
            last_dash(name@) == last_dash(name@.take(p as int)),
        decreases p,
    {
        proof {
            assert(name@.take(p as int).drop_last() =~= name@.take(p - 1));
        }
        p -= 1;
    }
    if p == 0 {
        return None;
    }
    proof {
        assert(name@.take(p as int).last() == '-');
        assert(last_dash(name@) == Some(p - 1));
    }
    let dash = p - 1;
    if dash == 0 || dash + 1 == name.len() {
        return None;
    }
    let ghost idx = name@.skip(dash + 1);
    let mut v: u64 = 0;
    let mut i: usize = dash + 1;
    while i < name.len()
        invariant
            dash + 1 <= i <= name.len(),
            idx == name@.skip(dash + 1),
            last_dash(name@) == Some(dash as int),
            dash > 0,
            forall|j: int| dash + 1 <= j < i ==> is_digit(#[trigger] name@[j]),
            v as nat == dec_val(idx.take(i - dash - 1)),
            v <= u32::MAX,
        decreases name.len() - i,
    {
        let c = name[i];
        if !('0' <= c && c <= '9') {
            proof {
                assert(idx[i - dash - 1] == c);
                assert(!is_digit(idx[i - dash - 1]));
            }
            return None;
        }
        proof {
            assert(idx.take(i - dash).drop_last() =~= idx.take(i - dash - 1));
            assert(idx.take(i - dash).last() == c);
        }
        let d = (c as u32 - '0' as u32) as u64;
        let nv = v * 10 + d;
        if nv > u32::MAX as u64 {
            proof {
                assert(dec_val(idx.take(i - dash)) == nv);
                if forall|j: int| 0 <= j < idx.len() ==> is_digit(#[trigger] idx[j]) {
                    lemma_dec_val_grows(idx, (i - dash) as int);
                }
            }
            return None;
        }
        v = nv;
        i += 1;
    }
    proof {
        assert(idx.take(idx.len() as int) =~= idx);
        assert forall|j: int| 0 <= j < idx.len() implies is_digit(#[trigger] idx[j]) by {
            assert(idx[j] == name@[dash + 1 + j]);
        }
    }
    let stem = slice(name, 0, dash);
    proof {
        assert(stem@ =~= name@.take(dash as int));
    }
    Some((stem, v as u32))
}

proof fn lemma_dec_val_grows(s: Seq<char>, k: int)
    requires
        0 <= k <= s.len(),
        forall|j: int| 0 <= j < s.len() ==> is_digit(#[trigger] s[j]),
    ensures
        dec_val(s) >= dec_val(s.take(k)),
    decreases s.len() - k,
{
    if k < s.len() {
        lemma_dec_val_grows(s, k + 1);
        assert(s.take(k + 1).drop_last() =~= s.take(k));
        assert(s.take(k + 1).last() == s[k]);
        assert(is_digit(s[k]));
    } else {
        assert(s.take(k) =~= s);
    }
}

// ---- tags ------------------------------------------------------------------------

pub open spec fn cond_view(c: Option<TagCondition>) -> Option<(TagOperator, Seq<Seq<char>>)> {
    match c {
        Some(c) => Some((c.operator, strings_view(c.values@))),
        None => None,
    }
}

/// The tags an edge shows: each value, `not v` for each value of a `Not`,
/// one `a & b` for an `And`; nothing when unconditional.
pub open spec fn tag_strings_spec(c: Option<(TagOperator, Seq<Seq<char>>)>) -> Seq<Seq<char>> {
    match c {
        None => Seq::empty(),
        Some((op, vs)) => match op {
            TagOperator::Not => vs.map_values(|v: Seq<char>| "not "@ + v),
            TagOperator::And => seq![join(vs, " & "@)],
            TagOperator::Or => vs,
        },
    }
}

pub fn tag_strings(c: &Option<TagCondition>) -> (out: Vec<Vec<char>>)
    ensures
        out@.map_values(|v: Vec<char>| v@) == tag_strings_spec(cond_view(*c)),
{
    match c {
        None => {
            let out: Vec<Vec<char>> = Vec::new();
            proof {
                assert(out@.map_values(|v: Vec<char>| v@) =~= Seq::<Seq<char>>::empty());
            }
            out
        },
        Some(c) => condition_strings(c),
    }
}

/// The tags a condition shows; see `tag_strings_spec`.
pub fn condition_strings(c: &TagCondition) -> (out: Vec<Vec<char>>)
    ensures
        out@.map_values(|v: Vec<char>| v@) == tag_strings_spec(Some((c.operator, strings_view(c.values@)))),
{
    let vs = strings_chars(&c.values);
    match c.operator {
        TagOperator::Or => vs,
        TagOperator::And => {
            let j = join_chars(&vs, &chars_of(" & "));
            let mut out: Vec<Vec<char>> = Vec::new();
            out.push(j);
            proof {
                assert(out@.map_values(|v: Vec<char>| v@) =~= seq![j@]);
            }
            out
        },
        TagOperator::Not => {
            let mut out: Vec<Vec<char>> = Vec::new();
            let mut i: usize = 0;
            while i < vs.len()
                invariant
                    i <= vs.len(),
                    out@.len() == i,
                    forall|k: int| 0 <= k < i ==> (#[trigger] out@[k])@ == "not "@ + vs@[k]@,
                decreases vs.len() - i,
            {
                let mut t = chars_of("not ");
                append(&mut t, &vs[i]);
                out.push(t);
                i += 1;
            }
            proof {
                assert(out@.map_values(|v: Vec<char>| v@) =~= vs@.map_values(|v: Vec<char>| v@).map_values(|v: Seq<char>| "not "@ + v));
            }
            out
        },
    }
}

/// A condition's tags as the edge table writes them: the values joined by
/// `, `, by ` & ` for an `and`, each as `not v` for a `not`.
pub fn tag_label(c: &TagCondition) -> (s: String)
    ensures
        s@ == join(tag_strings_spec(Some((c.operator, strings_view(c.values@)))), ", "@),
{
    let parts = condition_strings(c);
    let joined = join_chars(&parts, &chars_of(", "));
    crate::text::string_of(&joined)
}

/// Tags on a shard member's edges often carry the member's own index
/// (`route-2` into `worker-2`); those become `route-*` so the group matches.
pub open spec fn norm_tags_spec(tags: Seq<Seq<char>>, idx: Option<nat>) -> Seq<Seq<char>> {
    match idx {
        None => tags,
        Some(i) => {
            let suffix = "-"@ + dec(i);
            tags.map_values(
                |t: Seq<char>|
                    if ends(t, suffix) {
                        t.take(t.len() - suffix.len()) + "-*"@
                    } else {
                        t
                    },
            )
        },
    }
}

pub fn norm_tags(tags: Vec<Vec<char>>, idx: Option<u32>) -> (out: Vec<Vec<char>>)
    ensures
        out@.map_values(|v: Vec<char>| v@) == norm_tags_spec(
            tags@.map_values(|v: Vec<char>| v@),
            match idx {
                Some(i) => Some(i as nat),
                None => None,
            },
        ),
{
    let i = match idx {
        None => {
            return tags;
        },
        Some(i) => i,
    };
    let mut suffix = chars_of("-");
    append(&mut suffix, &dec_chars(i));
    let star = chars_of("-*");
    let mut out: Vec<Vec<char>> = Vec::new();
    let mut k: usize = 0;
    while k < tags.len()
        invariant
            k <= tags.len(),
            suffix@ == "-"@ + dec(i as nat),
            star@ == "-*"@,
            out@.len() == k,
            forall|j: int|
                0 <= j < k ==> (#[trigger] out@[j])@ == if ends(tags@[j]@, suffix@) {
                    tags@[j]@.take(tags@[j]@.len() - suffix@.len()) + "-*"@
                } else {
                    tags@[j]@
                },
        decreases tags.len() - k,
    {
        let t = &tags[k];
        if ends_with(t, &suffix) {
            let mut s = slice(t, 0, t.len() - suffix.len());
            proof {
                assert(s@ =~= t@.take(t@.len() - suffix@.len()));
            }
            append(&mut s, &star);
            out.push(s);
        } else {
            out.push(t.clone());
        }
        k += 1;
    }
    proof {
        assert(out@.map_values(|v: Vec<char>| v@) =~= norm_tags_spec(
            tags@.map_values(|v: Vec<char>| v@),
            Some(i as nat),
        ));
    }
    out
}

pub fn same_tags(a: &Vec<Vec<char>>, b: &Vec<Vec<char>>) -> (r: bool)
    ensures
        r == (a@.map_values(|v: Vec<char>| v@) == b@.map_values(|v: Vec<char>| v@)),
{
    if a.len() != b.len() {
        proof {
            assert(a@.map_values(|v: Vec<char>| v@).len() != b@.map_values(|v: Vec<char>| v@).len());
        }
        return false;
    }
    let mut i: usize = 0;
    while i < a.len()
        invariant
            a.len() == b.len(),
            i <= a.len(),
            forall|j: int| 0 <= j < i ==> (#[trigger] a@[j])@ == b@[j]@,
        decreases a.len() - i,
    {
        if !same(&a[i], &b[i]) {
            proof {
                assert(a@.map_values(|v: Vec<char>| v@)[i as int] != b@.map_values(|v: Vec<char>| v@)[i as int]);
            }
            return false;
        }
        i += 1;
    }
    proof {
        assert(a@.map_values(|v: Vec<char>| v@) =~= b@.map_values(|v: Vec<char>| v@));
    }
    true
}

// ---- shard groups -------------------------------------------------------------

pub open spec fn vnames(t: Topology) -> Seq<Seq<char>> {
    t.spec_vertices().map_values(|v: Vertex| v.name@)
}

pub open spec fn idx_of(name: Seq<char>) -> Option<nat> {
    match shard_spec(name) {
        Some((_, i)) => Some(i),
        None => None,
    }
}

/// The names with this shard stem, in vertex order.
pub open spec fn by_stem(names: Seq<Seq<char>>, stem: Seq<char>) -> Seq<Seq<char>>
    decreases names.len(),
{
    if names.len() == 0 {
        Seq::empty()
    } else {
        let r = by_stem(names.drop_last(), stem);
        match shard_spec(names.last()) {
            Some((s, _)) => if s == stem {
                r.push(names.last())
            } else {
                r
            },
            None => r,
        }
    }
}

/// The stem a name may be grouped under: one shared by two or more names.
pub open spec fn candidate(names: Seq<Seq<char>>, n: Seq<char>) -> Option<Seq<char>> {
    match shard_spec(n) {
        Some((s, _)) => if by_stem(names, s).len() >= 2 {
            Some(s)
        } else {
            None
        },
        None => None,
    }
}

/// How a neighbour is named from outside a group: by its candidate stem.
pub open spec fn outside(names: Seq<Seq<char>>, n: Seq<char>) -> Seq<char> {
    match candidate(names, n) {
        Some(s) => s,
        None => n,
    }
}

/// An edge's tags as seen from its end `n`.
pub open spec fn tags_at(e: Edge, n: Seq<char>) -> Seq<Seq<char>> {
    norm_tags_spec(tag_strings_spec(cond_view(e.conditions)), idx_of(n))
}

/// Inbound (`into`) or outbound neighbourhood of `n`: (outside name of the
/// other end, tags) per edge.
pub open spec fn hood(t: Topology, n: Seq<char>, into: bool) -> Set<(Seq<char>, Seq<Seq<char>>)> {
    Set::new(
        |p: (Seq<char>, Seq<Seq<char>>)|
            exists|k: int|
                0 <= k < t.spec_edges().len() && #[trigger] hood_edge(t, n, into, k, p),
    )
}

pub open spec fn hood_edge(t: Topology, n: Seq<char>, into: bool, k: int, p: (Seq<char>, Seq<Seq<char>>)) -> bool {
    let e = t.spec_edges()[k];
    if into {
        e.to@ == n && p == (outside(vnames(t), e.from@), tags_at(e, n))
    } else {
        e.from@ == n && p == (outside(vnames(t), e.to@), tags_at(e, n))
    }
}

/// Kind and partitions of the vertex named `n`.
pub open spec fn kind_parts(vs: Seq<Vertex>, n: Seq<char>) -> (VertexKind, u32)
    decreases vs.len(),
{
    if vs.len() == 0 {
        (VertexKind::MapUdf, 1)
    } else if vs[0].name@ == n {
        (vs[0].kind, vs[0].partitions)
    } else {
        kind_parts(vs.drop_first(), n)
    }
}

/// What members of a group must share: kind, partitions, and both
/// neighbourhoods outside the group.
pub open spec fn signature(t: Topology, n: Seq<char>) -> (
    (VertexKind, u32),
    Set<(Seq<char>, Seq<Seq<char>>)>,
    Set<(Seq<char>, Seq<Seq<char>>)>,
) {
    (kind_parts(t.spec_vertices(), n), hood(t, n, true), hood(t, n, false))
}

/// A stem whose names all share the first one's signature, two or more of them.
pub open spec fn accepted(t: Topology, stem: Seq<char>) -> bool {
    let ms = by_stem(vnames(t), stem);
    ms.len() >= 2 && forall|i: int| 0 <= i < ms.len() ==> signature(t, #[trigger] ms[i]) == signature(t, ms[0])
}

pub open spec fn key_of(n: Seq<char>) -> nat {
    match idx_of(n) {
        Some(i) => i,
        None => 0,
    }
}

/// `x` placed after every element of the sorted `s` whose index is no
/// greater: a stable insertion.
pub open spec fn insert_sorted(s: Seq<Seq<char>>, x: Seq<char>) -> Seq<Seq<char>>
    decreases s.len(),
{
    if s.len() == 0 {
        seq![x]
    } else if key_of(s.last()) <= key_of(x) {
        s.push(x)
    } else {
        insert_sorted(s.drop_last(), x).push(s.last())
    }
}

/// The names ordered by shard index, ties kept in order.
pub open spec fn by_index(ms: Seq<Seq<char>>) -> Seq<Seq<char>>
    decreases ms.len(),
{
    if ms.len() == 0 {
        Seq::empty()
    } else {
        insert_sorted(by_index(ms.drop_last()), ms.last())
    }
}

/// The group a vertex joins, as (stem, members by index); none unless
/// shards are collapsed and its stem is accepted.
pub open spec fn grouping(t: Topology, collapse: bool, n: Seq<char>) -> Option<(Seq<char>, Seq<Seq<char>>)> {
    if !collapse {
        None
    } else {
        match shard_spec(n) {
            Some((s, _)) => if accepted(t, s) {
                Some((s, by_index(by_stem(vnames(t), s))))
            } else {
                None
            },
            None => None,
        }
    }
}

/// A view node as plain values.
pub struct NodeV {
    pub label: Seq<char>,
    pub kind: VertexKind,
    pub members: Seq<Seq<char>>,
    pub partitions: u32,
}

/// A view edge as plain values.
pub struct EdgeV {
    pub from: int,
    pub to: int,
    pub tags: Seq<Seq<char>>,
    pub lossy: bool,
    pub members: Seq<(Seq<char>, Seq<char>)>,
}

/// The first node with `n` among its members.
pub open spec fn member_of(nodes: Seq<NodeV>, n: Seq<char>) -> Option<int>
    decreases nodes.len(),
{
    if nodes.len() == 0 {
        None
    } else {
        match member_of(nodes.drop_last(), n) {
            Some(i) => Some(i),
            None => if nodes.last().members.contains(n) {
                Some(nodes.len() - 1)
            } else {
                None
            },
        }
    }
}

/// The node a vertex opens: itself, or its whole group labelled `stem ×N`.
pub open spec fn node_for(t: Topology, collapse: bool, v: Vertex) -> NodeV {
    match grouping(t, collapse, v.name@) {
        None => NodeV { label: v.name@, kind: v.kind, members: seq![v.name@], partitions: v.partitions },
        Some((stem, ms)) => NodeV {
            label: stem + " \u{d7}"@ + dec(ms.len()),
            kind: v.kind,
            members: ms,
            partitions: v.partitions,
        },
    }
}

/// The nodes of the first `k` vertices: each vertex not already in a node
/// opens one.
pub open spec fn nodes_upto(t: Topology, collapse: bool, k: int) -> Seq<NodeV>
    decreases k,
{
    if k <= 0 || k > t.spec_vertices().len() {
        Seq::empty()
    } else {
        let r = nodes_upto(t, collapse, k - 1);
        let v = t.spec_vertices()[k - 1];
        if member_of(r, v.name@) is Some {
            r
        } else {
            r.push(node_for(t, collapse, v))
        }
    }
}

pub open spec fn view_nodes(t: Topology, collapse: bool) -> Seq<NodeV> {
    nodes_upto(t, collapse, t.spec_vertices().len() as int)
}

pub open spec fn is_group_v(n: NodeV) -> bool {
    n.members.len() > 1
}

/// The tags a view edge carries: the edge's own, normalised at each end
/// that is a group.
pub open spec fn view_tags(nodes: Seq<NodeV>, e: Edge, f: int, to: int) -> Seq<Seq<char>> {
    let t0 = tag_strings_spec(cond_view(e.conditions));
    let t1 = if is_group_v(nodes[f]) {
        norm_tags_spec(t0, idx_of(e.from@))
    } else {
        t0
    };
    if is_group_v(nodes[to]) {
        norm_tags_spec(t1, idx_of(e.to@))
    } else {
        t1
    }
}

/// The first edge so far with these ends and tags.
pub open spec fn find_edge(es: Seq<EdgeV>, f: int, to: int, tags: Seq<Seq<char>>) -> Option<int>
    decreases es.len(),
{
    if es.len() == 0 {
        None
    } else {
        match find_edge(es.drop_last(), f, to, tags) {
            Some(i) => Some(i),
            None => if es.last().from == f && es.last().to == to && es.last().tags == tags {
                Some(es.len() - 1)
            } else {
                None
            },
        }
    }
}

/// The view edges of the first `k` topology edges: an edge inside a group
/// between two members is dropped; one with the ends and tags of an earlier
/// view edge joins it (lossy if either is).
pub open spec fn edges_upto(t: Topology, nodes: Seq<NodeV>, k: int) -> Seq<EdgeV>
    decreases k,
{
    if k <= 0 || k > t.spec_edges().len() {
        Seq::empty()
    } else {
        let r = edges_upto(t, nodes, k - 1);
        let e = t.spec_edges()[k - 1];
        match (member_of(nodes, e.from@), member_of(nodes, e.to@)) {
            (Some(f), Some(to)) => {
                let tags = view_tags(nodes, e, f, to);
                let lossy = e.on_full == OnFull::DiscardLatest;
                if f == to && is_group_v(nodes[f]) && e.from@ != e.to@ {
                    r
                } else {
                    match find_edge(r, f, to, tags) {
                        Some(x) => r.update(
                            x,
                            EdgeV {
                                lossy: r[x].lossy || lossy,
                                members: r[x].members.push((e.from@, e.to@)),
                                ..r[x]
                            },
                        ),
                        None => r.push(
                            EdgeV { from: f, to, tags, lossy, members: seq![(e.from@, e.to@)] },
                        ),
                    }
                }
            },
            _ => r,
        }
    }
}

/// Topology edge `i` goes from `m.0` to `m.1`.
pub open spec fn names_edge(t: Topology, i: int, m: (Seq<char>, Seq<char>)) -> bool {
    t.spec_edges()[i].from@ == m.0 && t.spec_edges()[i].to@ == m.1
}

/// Topology edge `i` drops on a full buffer.
pub open spec fn discards(t: Topology, i: int) -> bool {
    t.spec_edges()[i].on_full == OnFull::DiscardLatest
}

proof fn lemma_find_edge_in(es: Seq<EdgeV>, f: int, to: int, tags: Seq<Seq<char>>)
    ensures
        find_edge(es, f, to, tags) matches Some(x) ==> 0 <= x < es.len(),
    decreases es.len(),
{
    if es.len() > 0 {
        lemma_find_edge_in(es.drop_last(), f, to, tags);
    }
}

/// Topology edge `i`, one of the first `k`, has the ends `m`, and when it
/// drops the view edge it is in is lossy.
pub open spec fn named_by(t: Topology, m: (Seq<char>, Seq<char>), i: int, k: int, lossy: bool) -> bool {
    0 <= i < k && i < t.spec_edges().len() && names_edge(t, i, m) && (discards(t, i) ==> lossy)
}

/// Each member of each view edge in `r` names one of the first `k`
/// topology edges, and when that edge drops, the view edge is lossy.
pub open spec fn members_named(t: Topology, r: Seq<EdgeV>, k: int) -> bool {
    forall|x: int, j: int|
        0 <= x < r.len() && 0 <= j < r[x].members.len() ==> #[trigger] member_named(t, r, k, x, j)
}

/// Member `j` of view edge `x` in `r` names one of the first `k` topology
/// edges, and its dropping makes the view edge lossy.
pub open spec fn member_named(t: Topology, r: Seq<EdgeV>, k: int, x: int, j: int) -> bool {
    exists|i: int| #[trigger] named_by(t, r[x].members[j], i, k, r[x].lossy)
}

/// Each lossy view edge in `r` has a member naming one of the first `k`
/// topology edges that drops.
pub open spec fn lossy_named(t: Topology, r: Seq<EdgeV>, k: int) -> bool {
    forall|x: int|
        0 <= x < r.len() && #[trigger] r[x].lossy ==> exists|j: int, i: int|
            0 <= j < r[x].members.len() && 0 <= i < k && i < t.spec_edges().len() && #[trigger] names_edge(
                t,
                i,
                r[x].members[j],
            ) && discards(t, i)
}

proof fn lemma_named_grow(t: Topology, r: Seq<EdgeV>, k: int)
    requires
        members_named(t, r, k - 1),
        lossy_named(t, r, k - 1),
    ensures
        members_named(t, r, k),
        lossy_named(t, r, k),
{
    assert forall|x: int, j: int| 0 <= x < r.len() && 0 <= j < r[x].members.len() implies #[trigger] member_named(t, r, k, x, j) by {
        assert(member_named(t, r, k - 1, x, j));
        let i = choose|i: int| #[trigger] named_by(t, r[x].members[j], i, k - 1, r[x].lossy);
        assert(named_by(t, r[x].members[j], i, k, r[x].lossy));
    }
    assert forall|x: int| 0 <= x < r.len() && #[trigger] r[x].lossy implies exists|j: int, i: int|
        0 <= j < r[x].members.len() && 0 <= i < k && i < t.spec_edges().len() && #[trigger] names_edge(
            t,
            i,
            r[x].members[j],
        ) && discards(t, i) by {
        let (j, i) = choose|j: int, i: int|
            0 <= j < r[x].members.len() && 0 <= i < k - 1 && i < t.spec_edges().len() && #[trigger] names_edge(
                t,
                i,
                r[x].members[j],
            ) && discards(t, i);
    }
}

/// Over the view edges of the first `k` topology edges: each member is the
/// pair of ends of one of those edges, lossy makes its view edge lossy, and a
/// lossy view edge has such a member.
proof fn lemma_edges_lossy(t: Topology, nodes: Seq<NodeV>, k: int)
    ensures
        members_named(t, edges_upto(t, nodes, k), k),
        lossy_named(t, edges_upto(t, nodes, k), k),
    decreases k,
{
    if k <= 0 || k > t.spec_edges().len() {
        assert(edges_upto(t, nodes, k).len() == 0);
    } else {
        lemma_edges_lossy(t, nodes, k - 1);
        let r0 = edges_upto(t, nodes, k - 1);
        let r = edges_upto(t, nodes, k);
        let e = t.spec_edges()[k - 1];
        let pair = (e.from@, e.to@);
        assert(names_edge(t, k - 1, pair));
        match (member_of(nodes, e.from@), member_of(nodes, e.to@)) {
            (Some(f), Some(to)) => {
                let tags = view_tags(nodes, e, f, to);
                if f == to && is_group_v(nodes[f]) && e.from@ != e.to@ {
                    assert(r == r0);
                    lemma_named_grow(t, r0, k);
                } else {
                    lemma_find_edge_in(r0, f, to, tags);
                    match find_edge(r0, f, to, tags) {
                        Some(x0) => {
                            assert forall|x: int, j: int| 0 <= x < r.len() && 0 <= j < r[x].members.len() implies #[trigger] member_named(t, r, k, x, j) by {
                                if x == x0 && j == r0[x0].members.len() {
                                    assert(r[x].members[j] == pair);
                                    assert(named_by(t, r[x].members[j], k - 1, k, r[x].lossy));
                                } else if x == x0 {
                                    assert(r[x].members[j] == r0[x].members[j]);
                                    assert(member_named(t, r0, k - 1, x, j));
                                    let i = choose|i: int| #[trigger] named_by(t, r0[x].members[j], i, k - 1, r0[x].lossy);
                                    assert(named_by(t, r[x].members[j], i, k, r[x].lossy));
                                } else {
                                    assert(r[x] == r0[x]);
                                    assert(member_named(t, r0, k - 1, x, j));
                                    let i = choose|i: int| #[trigger] named_by(t, r0[x].members[j], i, k - 1, r0[x].lossy);
                                    assert(named_by(t, r[x].members[j], i, k, r[x].lossy));
                                }
                            }
                            assert forall|x: int| 0 <= x < r.len() && #[trigger] r[x].lossy implies exists|j: int, i: int|
                                0 <= j < r[x].members.len() && 0 <= i < k && i < t.spec_edges().len() && #[trigger] names_edge(
                                    t,
                                    i,
                                    r[x].members[j],
                                ) && discards(t, i) by {
                                if x == x0 {
                                    if r0[x0].lossy {
                                        let (j, i) = choose|j: int, i: int|
                                            0 <= j < r0[x].members.len() && 0 <= i < k - 1 && i < t.spec_edges().len()
                                                && #[trigger] names_edge(t, i, r0[x].members[j]) && discards(t, i);
                                        assert(r[x].members[j] == r0[x].members[j]);
                                        assert(names_edge(t, i, r[x].members[j]));
                                    } else {
                                        let j = r0[x0].members.len() as int;
                                        assert(r[x].members[j] == pair);
                                        assert(names_edge(t, k - 1, r[x].members[j]));
                                    }
                                } else {
                                    assert(r[x] == r0[x]);
                                    let (j, i) = choose|j: int, i: int|
                                        0 <= j < r0[x].members.len() && 0 <= i < k - 1 && i < t.spec_edges().len()
                                            && #[trigger] names_edge(t, i, r0[x].members[j]) && discards(t, i);
                                    assert(names_edge(t, i, r[x].members[j]));
                                }
                            }
                        },
                        None => {
                            assert forall|x: int, j: int| 0 <= x < r.len() && 0 <= j < r[x].members.len() implies #[trigger] member_named(t, r, k, x, j) by {
                                if x == r0.len() {
                                    assert(r[x].members[j] == pair);
                                    assert(named_by(t, r[x].members[j], k - 1, k, r[x].lossy));
                                } else {
                                    assert(r[x] == r0[x]);
                                    assert(member_named(t, r0, k - 1, x, j));
                                    let i = choose|i: int| #[trigger] named_by(t, r0[x].members[j], i, k - 1, r0[x].lossy);
                                    assert(named_by(t, r[x].members[j], i, k, r[x].lossy));
                                }
                            }
                            assert forall|x: int| 0 <= x < r.len() && #[trigger] r[x].lossy implies exists|j: int, i: int|
                                0 <= j < r[x].members.len() && 0 <= i < k && i < t.spec_edges().len() && #[trigger] names_edge(
                                    t,
                                    i,
                                    r[x].members[j],
                                ) && discards(t, i) by {
                                if x == r0.len() {
                                    assert(r[x].members[0] == pair);
                                    assert(names_edge(t, k - 1, r[x].members[0]));
                                } else {
                                    assert(r[x] == r0[x]);
                                    let (j, i) = choose|j: int, i: int|
                                        0 <= j < r0[x].members.len() && 0 <= i < k - 1 && i < t.spec_edges().len()
                                            && #[trigger] names_edge(t, i, r0[x].members[j]) && discards(t, i);
                                    assert(names_edge(t, i, r[x].members[j]));
                                }
                            }
                        },
                    }
                }
            },
            _ => {
                assert(r == r0);
                lemma_named_grow(t, r0, k);
            },
        }
    }
}

/// A view edge drops on a full buffer exactly when one of the topology edges
/// it stands for does: it is lossy if and only if some member pair is the
/// two ends of an edge set to `discardLatest`.
pub proof fn lemma_view_edge_lossy(g: ViewGraph, t: Topology, collapse: bool)
    requires
        t.wf(),
        g.is_view_of(t, collapse),
    ensures
        forall|x: int|
            0 <= x < g.edges@.len() ==> ((#[trigger] g.edges@[x]).lossy <==> exists|j: int, i: int|
                0 <= j < g.edges@[x].members@.len() && 0 <= i < t.spec_edges().len() && names_edge(
                    t,
                    i,
                    (g.edges@[x].members@[j].0@, g.edges@[x].members@[j].1@),
                ) && discards(t, i)),
{
    let nodes = view_nodes(t, collapse);
    let k = t.spec_edges().len() as int;
    lemma_edges_lossy(t, nodes, k);
    let r = view_edges(t, collapse);
    assert forall|x: int| 0 <= x < g.edges@.len() implies ((#[trigger] g.edges@[x]).lossy <==> exists|j: int, i: int|
        0 <= j < g.edges@[x].members@.len() && 0 <= i < t.spec_edges().len() && names_edge(
            t,
            i,
            (g.edges@[x].members@[j].0@, g.edges@[x].members@[j].1@),
        ) && discards(t, i)) by {
        assert(g.edges_v()[x] == r[x]);
        let ev = g.edges@[x].spec_v();
        assert(ev == r[x]);
        assert(ev.lossy == g.edges@[x].lossy);
        assert forall|j: int| 0 <= j < ev.members.len() implies #[trigger] ev.members[j] == (
            g.edges@[x].members@[j].0@,
            g.edges@[x].members@[j].1@,
        ) by {}
        if g.edges@[x].lossy {
            let (j, i) = choose|j: int, i: int|
                0 <= j < r[x].members.len() && 0 <= i < k && i < t.spec_edges().len() && #[trigger] names_edge(t, i, r[x].members[j])
                    && discards(t, i);
            assert(names_edge(t, i, (g.edges@[x].members@[j].0@, g.edges@[x].members@[j].1@)));
        }
        if exists|j: int, i: int|
            0 <= j < g.edges@[x].members@.len() && 0 <= i < t.spec_edges().len() && names_edge(
                t,
                i,
                (g.edges@[x].members@[j].0@, g.edges@[x].members@[j].1@),
            ) && discards(t, i) {
            let (j, i) = choose|j: int, i: int|
                0 <= j < g.edges@[x].members@.len() && 0 <= i < t.spec_edges().len() && names_edge(
                    t,
                    i,
                    (g.edges@[x].members@[j].0@, g.edges@[x].members@[j].1@),
                ) && discards(t, i);
            assert(ev.members[j] == r[x].members[j]);
            assert(member_named(t, r, k, x, j));
            let i2 = choose|i2: int| #[trigger] named_by(t, r[x].members[j], i2, k, r[x].lossy);
            if i2 != i {
                if i < i2 {
                    assert(!(t.spec_edges()[i].from@ == t.spec_edges()[i2].from@ && t.spec_edges()[i].to@
                        == t.spec_edges()[i2].to@));
                } else {
                    assert(!(t.spec_edges()[i2].from@ == t.spec_edges()[i].from@ && t.spec_edges()[i2].to@
                        == t.spec_edges()[i].to@));
                }
            }
        }
    }
}

pub open spec fn view_edges(t: Topology, collapse: bool) -> Seq<EdgeV> {
    edges_upto(t, view_nodes(t, collapse), t.spec_edges().len() as int)
}

impl ViewNode {
    pub open spec fn spec_v(&self) -> NodeV {
        NodeV {
            label: self.label@,
            kind: self.kind,
            members: self.members@.map_values(|m: VertexName| m@),
            partitions: self.partitions,
        }
    }
}

impl ViewEdge {
    pub open spec fn spec_v(&self) -> EdgeV {
        EdgeV {
            from: self.from.0 as int,
            to: self.to.0 as int,
            tags: strings_view(self.tags@),
            lossy: self.lossy,
            members: self.members@.map_values(|m: (VertexName, VertexName)| (m.0@, m.1@)),
        }
    }
}

impl ViewGraph {
    pub open spec fn nodes_v(&self) -> Seq<NodeV> {
        self.nodes@.map_values(|n: ViewNode| n.spec_v())
    }

    pub open spec fn edges_v(&self) -> Seq<EdgeV> {
        self.edges@.map_values(|e: ViewEdge| e.spec_v())
    }

    /// The graph `t` makes with shards collapsed or not.
    pub open spec fn is_view_of(&self, t: Topology, collapse: bool) -> bool {
        &&& self.nodes_v() == view_nodes(t, collapse)
        &&& self.edges_v() == view_edges(t, collapse)
    }
}

// ---- building the view -----------------------------------------------------

pub open spec fn chars_view(v: Seq<Vec<char>>) -> Seq<Seq<char>> {
    v.map_values(|c: Vec<char>| c@)
}

fn names_of(t: &Topology) -> (out: Vec<Vec<char>>)
    ensures
        chars_view(out@) == vnames(*t),
{
    let vs = t.vertices();
    let mut out: Vec<Vec<char>> = Vec::new();
    let mut i: usize = 0;
    while i < vs.len()
        invariant
            i <= vs.len(),
            vs@ == t.spec_vertices(),
            out@.len() == i,
            forall|k: int| 0 <= k < i ==> (#[trigger] out@[k])@ == vs@[k].name@,
        decreases vs.len() - i,
    {
        out.push(chars_of(vs[i].name.as_str()));
        i += 1;
    }
    proof {
        assert(chars_view(out@) =~= vnames(*t));
    }
    out
}

/// Indices of the names with this stem, in order.
fn stem_members(names: &Vec<Vec<char>>, stem: &Vec<char>) -> (out: Vec<usize>)
    ensures
        forall|k: int| 0 <= k < out@.len() ==> #[trigger] out@[k] < names@.len(),
        out@.map_values(|i: usize| names@[i as int]@) == by_stem(chars_view(names@), stem@),
{
    let ghost nv = chars_view(names@);
    let mut out: Vec<usize> = Vec::new();
    let mut i: usize = 0;
    while i < names.len()
        invariant
            i <= names.len(),
            nv == chars_view(names@),
            forall|k: int| 0 <= k < out@.len() ==> #[trigger] out@[k] < i,
            out@.map_values(|j: usize| names@[j as int]@) == by_stem(nv.take(i as int), stem@),
        decreases names.len() - i,
    {
        proof {
            assert(nv.take(i + 1).drop_last() =~= nv.take(i as int));
            assert(nv.take(i + 1).last() == names@[i as int]@);
        }
        match shard_split(&names[i]) {
            Some((s, _)) => {
                if same(&s, stem) {
                    out.push(i);
                    proof {
                        assert(out@.map_values(|j: usize| names@[j as int]@) =~= by_stem(nv.take(i as int), stem@).push(names@[i as int]@));
                    }
                }
            },
            None => {},
        }
        i += 1;
    }
    proof {
        assert(nv.take(names.len() as int) =~= nv);
    }
    out
}

fn candidate_of(names: &Vec<Vec<char>>, n: &Vec<char>) -> (r: Option<Vec<char>>)
    ensures
        match candidate(chars_view(names@), n@) {
            Some(s) => r matches Some(x) && x@ == s,
            None => r is None,
        },
{
    match shard_split(n) {
        Some((s, _)) => {
            let ms = stem_members(names, &s);
            proof {
                assert(ms@.map_values(|i: usize| names@[i as int]@).len() == ms@.len());
            }
            if ms.len() >= 2 {
                Some(s)
            } else {
                None
            }
        },
        None => None,
    }
}

fn outside_of(names: &Vec<Vec<char>>, n: &Vec<char>) -> (r: Vec<char>)
    ensures
        r@ == outside(chars_view(names@), n@),
{
    match candidate_of(names, n) {
        Some(s) => s,
        None => n.clone(),
    }
}

pub open spec fn pairs_view(v: Seq<(Vec<char>, Vec<Vec<char>>)>) -> Seq<(Seq<char>, Seq<Seq<char>>)> {
    v.map_values(|p: (Vec<char>, Vec<Vec<char>>)| (p.0@, chars_view(p.1@)))
}

/// The neighbourhood of `n` as a list, with repeats.
fn hood_of(t: &Topology, names: &Vec<Vec<char>>, n: &Vec<char>, into: bool) -> (out: Vec<(Vec<char>, Vec<Vec<char>>)>)
    requires
        chars_view(names@) == vnames(*t),
    ensures
        forall|p: (Seq<char>, Seq<Seq<char>>)| pairs_view(out@).contains(p) <==> #[trigger] hood(*t, n@, into).contains(p),
{
    let es = t.edges();
    let idx = match shard_split(n) {
        Some((_, i)) => Some(i),
        None => None,
    };
    let mut out: Vec<(Vec<char>, Vec<Vec<char>>)> = Vec::new();
    let mut k: usize = 0;
    while k < es.len()
        invariant
            k <= es.len(),
            es@ == t.spec_edges(),
            chars_view(names@) == vnames(*t),
            match idx {
                Some(i) => idx_of(n@) == Some(i as nat),
                None => idx_of(n@) is None,
            },
            forall|p: (Seq<char>, Seq<Seq<char>>)| pairs_view(out@).contains(p) <==> exists|j: int| 0 <= j < k && #[trigger] hood_edge(*t, n@, into, j, p),
        decreases es.len() - k,
    {
        let e = &es[k];
        let (near, far) = if into {
            (&e.to, &e.from)
        } else {
            (&e.from, &e.to)
        };
        let near_c = chars_of(near.as_str());
        if same(&near_c, n) {
            let far_c = chars_of(far.as_str());
            let o = outside_of(names, &far_c);
            let tags = norm_tags(tag_strings(&e.conditions), idx);
            let ghost pv = (o@, chars_view(tags@));
            let ghost before = out@;
            assert(forall|p: (Seq<char>, Seq<Seq<char>>)| pairs_view(before).contains(p) <==> exists|j: int| 0 <= j < k && #[trigger] hood_edge(*t, n@, into, j, p));
            out.push((o, tags));
            proof {
                assert(pairs_view(out@) =~= pairs_view(before).push(pv));
                assert(hood_edge(*t, n@, into, k as int, pv));
                assert forall|p: (Seq<char>, Seq<Seq<char>>)| pairs_view(out@).contains(p) <==> exists|j: int| 0 <= j < k + 1 && #[trigger] hood_edge(*t, n@, into, j, p) by {
                    if pairs_view(out@).contains(p) {
                        if p == pv {
                        } else {
                            let q = choose|q: int| 0 <= q < pairs_view(out@).len() && pairs_view(out@)[q] == p;
                            assert(pairs_view(before).contains(p)) by {
                                assert(pairs_view(before)[q] == p);
                            }
                        }
                    }
                    if exists|j: int| 0 <= j < k + 1 && #[trigger] hood_edge(*t, n@, into, j, p) {
                        let j = choose|j: int| 0 <= j < k + 1 && #[trigger] hood_edge(*t, n@, into, j, p);
                        if j < k {
                            assert(pairs_view(before).contains(p));
                            let q = choose|q: int| 0 <= q < pairs_view(before).len() && pairs_view(before)[q] == p;
                            assert(pairs_view(out@)[q] == p);
                        } else {
                            assert(p == pv);
                            assert(pairs_view(out@)[before.len() as int] == p);
                        }
                    }
                }
            }
        } else {
            proof {
                assert forall|p: (Seq<char>, Seq<Seq<char>>)| pairs_view(out@).contains(p) <==> exists|j: int| 0 <= j < k + 1 && #[trigger] hood_edge(*t, n@, into, j, p) by {
                    if exists|j: int| 0 <= j < k + 1 && #[trigger] hood_edge(*t, n@, into, j, p) {
                        let j = choose|j: int| 0 <= j < k + 1 && #[trigger] hood_edge(*t, n@, into, j, p);
                        assert(j != k);
                    }
                }
            }
        }
        k += 1;
    }
    out
}

fn same_pair(a: &(Vec<char>, Vec<Vec<char>>), b: &(Vec<char>, Vec<Vec<char>>)) -> (r: bool)
    ensures
        r == ((a.0@, chars_view(a.1@)) == (b.0@, chars_view(b.1@))),
{
    same(&a.0, &b.0) && same_tags(&a.1, &b.1)
}

/// Whether every pair of `a` is in `b`.
fn within(a: &Vec<(Vec<char>, Vec<Vec<char>>)>, b: &Vec<(Vec<char>, Vec<Vec<char>>)>) -> (r: bool)
    ensures
        r == forall|p: (Seq<char>, Seq<Seq<char>>)| pairs_view(a@).contains(p) ==> pairs_view(b@).contains(p),
{
    let mut i: usize = 0;
    while i < a.len()
        invariant
            i <= a.len(),
            forall|x: int| 0 <= x < i ==> pairs_view(b@).contains(#[trigger] pairs_view(a@)[x]),
        decreases a.len() - i,
    {
        let mut found = false;
        let mut j: usize = 0;
        while j < b.len()
            invariant
                j <= b.len(),
                i < a.len(),
                found ==> pairs_view(b@).contains(pairs_view(a@)[i as int]),
                !found ==> forall|y: int| 0 <= y < j ==> pairs_view(b@)[y] != pairs_view(a@)[i as int],
            decreases b.len() - j,
        {
            if same_pair(&a[i], &b[j]) {
                found = true;
                proof {
                    assert(pairs_view(b@)[j as int] == pairs_view(a@)[i as int]);
                }
            }
            j += 1;
        }
        if !found {
            proof {
                let p = pairs_view(a@)[i as int];
                assert(pairs_view(a@).contains(p));
                assert(!pairs_view(b@).contains(p));
            }
            return false;
        }
        i += 1;
    }
    proof {
        assert forall|p: (Seq<char>, Seq<Seq<char>>)| pairs_view(a@).contains(p) implies pairs_view(b@).contains(p) by {
            let x = choose|x: int| 0 <= x < pairs_view(a@).len() && pairs_view(a@)[x] == p;
        }
    }
    true
}

fn kind_parts_of(t: &Topology, n: &Vec<char>) -> (r: (VertexKind, u32))
    ensures
        r == kind_parts(t.spec_vertices(), n@),
{
    let vs = t.vertices();
    let mut i: usize = 0;
    proof {
        assert(vs@.skip(0) =~= vs@);
    }
    while i < vs.len()
        invariant
            i <= vs.len(),
            vs@ == t.spec_vertices(),
            kind_parts(vs@, n@) == kind_parts(vs@.skip(i as int), n@),
        decreases vs.len() - i,
    {
        proof {
            assert(vs@.skip(i as int)[0] == vs@[i as int]);
            assert(vs@.skip(i as int).drop_first() =~= vs@.skip(i + 1));
        }
        if same(&chars_of(vs[i].name.as_str()), n) {
            return (vs[i].kind, vs[i].partitions);
        }
        i += 1;
    }
    (VertexKind::MapUdf, 1)
}

fn same_signature(t: &Topology, names: &Vec<Vec<char>>, a: &Vec<char>, b: &Vec<char>) -> (r: bool)
    requires
        chars_view(names@) == vnames(*t),
    ensures
        r == (signature(*t, a@) == signature(*t, b@)),
{
    let ka = kind_parts_of(t, a);
    let kb = kind_parts_of(t, b);
    let ia = hood_of(t, names, a, true);
    let ib = hood_of(t, names, b, true);
    let oa = hood_of(t, names, a, false);
    let ob = hood_of(t, names, b, false);
    let w1 = within(&ia, &ib);
    let w2 = within(&ib, &ia);
    let w3 = within(&oa, &ob);
    let w4 = within(&ob, &oa);
    let r = ka.0 == kb.0 && ka.1 == kb.1 && w1 && w2 && w3 && w4;
    proof {
        if r {
            assert(hood(*t, a@, true) =~= hood(*t, b@, true));
            assert(hood(*t, a@, false) =~= hood(*t, b@, false));
        } else if ka == kb {
            if !w1 {
                let p = choose|p: (Seq<char>, Seq<Seq<char>>)| !(pairs_view(ia@).contains(p) ==> pairs_view(ib@).contains(p));
                assert(hood(*t, a@, true).contains(p) && !hood(*t, b@, true).contains(p));
            } else if !w2 {
                let p = choose|p: (Seq<char>, Seq<Seq<char>>)| !(pairs_view(ib@).contains(p) ==> pairs_view(ia@).contains(p));
                assert(hood(*t, b@, true).contains(p) && !hood(*t, a@, true).contains(p));
            } else if !w3 {
                let p = choose|p: (Seq<char>, Seq<Seq<char>>)| !(pairs_view(oa@).contains(p) ==> pairs_view(ob@).contains(p));
                assert(hood(*t, a@, false).contains(p) && !hood(*t, b@, false).contains(p));
            } else {
                let p = choose|p: (Seq<char>, Seq<Seq<char>>)| !(pairs_view(ob@).contains(p) ==> pairs_view(oa@).contains(p));
                assert(hood(*t, b@, false).contains(p) && !hood(*t, a@, false).contains(p));
            }
        }
    }
    r
}

/// The member indices ordered by shard index, ties in order.
fn sort_by_index(names: &Vec<Vec<char>>, ms: &Vec<usize>) -> (out: Vec<usize>)
    requires
        forall|k: int| 0 <= k < ms@.len() ==> #[trigger] ms@[k] < names@.len(),
    ensures
        forall|k: int| 0 <= k < out@.len() ==> #[trigger] out@[k] < names@.len(),
        out@.map_values(|i: usize| names@[i as int]@) == by_index(ms@.map_values(|i: usize| names@[i as int]@)),
{
    let ghost mv = ms@.map_values(|i: usize| names@[i as int]@);
    let mut out: Vec<usize> = Vec::new();
    let mut keys: Vec<u32> = Vec::new();
    let mut k: usize = 0;
    while k < ms.len()
        invariant
            k <= ms.len(),
            mv == ms@.map_values(|i: usize| names@[i as int]@),
            forall|q: int| 0 <= q < ms@.len() ==> #[trigger] ms@[q] < names@.len(),
            forall|q: int| 0 <= q < out@.len() ==> #[trigger] out@[q] < names@.len(),
            keys@.len() == out@.len(),
            forall|q: int| 0 <= q < out@.len() ==> keys@[q] as nat == key_of(#[trigger] names@[out@[q] as int]@),
            out@.map_values(|i: usize| names@[i as int]@) == by_index(mv.take(k as int)),
        decreases ms.len() - k,
    {
        let m = ms[k];
        let key = match shard_split(&names[m]) {
            Some((_, i)) => i,
            None => 0,
        };
        proof {
            assert(mv.take(k + 1).drop_last() =~= mv.take(k as int));
            assert(mv.take(k + 1).last() == names@[m as int]@);
        }
        // Insert after the last element whose key is no greater.
        let mut pos: usize = out.len();
        let ghost ov = out@.map_values(|i: usize| names@[i as int]@);
        proof {
            assert(ov.take(pos as int) =~= ov);
            assert(ov.skip(pos as int) =~= Seq::<Seq<char>>::empty());
            assert(ov + Seq::<Seq<char>>::empty() =~= ov);
        }
        while pos > 0 && keys[pos - 1] > key
            invariant
                pos <= out@.len(),
                m < names@.len(),
                key as nat == key_of(names@[m as int]@),
                forall|q: int| 0 <= q < out@.len() ==> #[trigger] out@[q] < names@.len(),
                keys@.len() == out@.len(),
                ov == out@.map_values(|i: usize| names@[i as int]@),
                forall|q: int| 0 <= q < out@.len() ==> keys@[q] as nat == key_of(#[trigger] names@[out@[q] as int]@),
                insert_sorted(ov, names@[m as int]@) == insert_sorted(ov.take(pos as int), names@[m as int]@) + ov.skip(pos as int),
            decreases pos,
        {
            proof {
                let a = ov.take(pos as int);
                assert(a.last() == names@[out@[pos - 1] as int]@);
                assert(a.drop_last() =~= ov.take(pos - 1));
                assert(seq![a.last()] + ov.skip(pos as int) =~= ov.skip(pos - 1));
                assert(insert_sorted(a, names@[m as int]@) == insert_sorted(ov.take(pos - 1), names@[m as int]@).push(a.last()));
                assert(insert_sorted(ov.take(pos - 1), names@[m as int]@).push(a.last()) + ov.skip(pos as int) =~= insert_sorted(ov.take(pos - 1), names@[m as int]@) + ov.skip(pos - 1));
            }
            pos -= 1;
        }
        proof {
            let a = ov.take(pos as int);
            if pos > 0 {
                assert(a.last() == names@[out@[pos - 1] as int]@);
            }
            assert(insert_sorted(a, names@[m as int]@) == a.push(names@[m as int]@));
        }
        out.insert(pos, m);
        keys.insert(pos, key);
        proof {
            assert(out@.map_values(|i: usize| names@[i as int]@) =~= ov.take(pos as int).push(names@[m as int]@) + ov.skip(pos as int));
        }
        k += 1;
    }
    proof {
        assert(mv.take(ms.len() as int) =~= mv);
    }
    out
}

/// The group `n` joins, as (stem, member indices by shard index).
fn group_of(t: &Topology, names: &Vec<Vec<char>>, collapse: bool, n: &Vec<char>) -> (r: Option<(Vec<char>, Vec<usize>)>)
    requires
        chars_view(names@) == vnames(*t),
    ensures
        match grouping(*t, collapse, n@) {
            None => r is None,
            Some((stem, ms)) => r matches Some(x) && x.0@ == stem && (forall|k: int| 0 <= k < x.1@.len() ==> #[trigger] x.1@[k] < names@.len())
                && x.1@.map_values(|i: usize| names@[i as int]@) == ms,
        },
{
    if !collapse {
        return None;
    }
    let stem = match shard_split(n) {
        None => return None,
        Some((s, _)) => s,
    };
    let ms = stem_members(names, &stem);
    let ghost mv = ms@.map_values(|i: usize| names@[i as int]@);
    assert(mv == by_stem(vnames(*t), stem@));
    if ms.len() < 2 {
        return None;
    }
    let mut i: usize = 0;
    while i < ms.len()
        invariant
            i <= ms.len(),
            ms.len() >= 2,
            chars_view(names@) == vnames(*t),
            mv == ms@.map_values(|i: usize| names@[i as int]@),
            mv == by_stem(vnames(*t), stem@),
            collapse,
            shard_spec(n@) matches Some((s, _)) && s == stem@,
            forall|k: int| 0 <= k < ms@.len() ==> #[trigger] ms@[k] < names@.len(),
            forall|k: int| 0 <= k < i ==> signature(*t, #[trigger] mv[k]) == signature(*t, mv[0]),
        decreases ms.len() - i,
    {
        if !same_signature(t, names, &names[ms[i]], &names[ms[0]]) {
            proof {
                assert(mv[i as int] == names@[ms@[i as int] as int]@);
                assert(mv[0] == names@[ms@[0] as int]@);
                assert(signature(*t, mv[i as int]) != signature(*t, mv[0]));
                assert(!accepted(*t, stem@));
            }
            return None;
        }
        i += 1;
    }
    let sorted = sort_by_index(names, &ms);
    Some((stem, sorted))
}

proof fn lemma_by_stem_len(names: Seq<Seq<char>>, stem: Seq<char>)
    ensures
        by_stem(names, stem).len() <= names.len(),
    decreases names.len(),
{
    if names.len() > 0 {
        lemma_by_stem_len(names.drop_last(), stem);
    }
}

proof fn lemma_insert_len(s: Seq<Seq<char>>, x: Seq<char>)
    ensures
        insert_sorted(s, x).len() == s.len() + 1,
    decreases s.len(),
{
    if s.len() > 0 {
        lemma_insert_len(s.drop_last(), x);
    }
}

proof fn lemma_by_index_len(ms: Seq<Seq<char>>)
    ensures
        by_index(ms).len() == ms.len(),
    decreases ms.len(),
{
    if ms.len() > 0 {
        lemma_by_index_len(ms.drop_last());
        lemma_insert_len(by_index(ms.drop_last()), ms.last());
    }
}

pub open spec fn members_view(ms: Seq<VertexName>) -> Seq<Seq<char>> {
    ms.map_values(|m: VertexName| m@)
}

proof fn lemma_member_of_prefix(nodes: Seq<NodeV>, n: Seq<char>, j: int)
    requires
        0 <= j <= nodes.len(),
    ensures
        member_of(nodes.take(j), n) matches Some(x) ==> member_of(nodes, n) == Some(x),
    decreases nodes.len() - j,
{
    if j < nodes.len() {
        lemma_member_of_prefix(nodes, n, j + 1);
        assert(nodes.take(j + 1).drop_last() =~= nodes.take(j));
    } else {
        assert(nodes.take(j) =~= nodes);
    }
}

/// The first node holding `n` among its members.
fn member_index(nodes: &Vec<ViewNode>, n: &VertexName) -> (r: Option<usize>)
    ensures
        match member_of(nodes@.map_values(|x: ViewNode| x.spec_v()), n@) {
            Some(i) => r == Some(i as usize),
            None => r is None,
        },
        r matches Some(i) ==> i < nodes@.len() && member_of(nodes@.map_values(|x: ViewNode| x.spec_v()), n@) == Some(i as int),
        r is None ==> member_of(nodes@.map_values(|x: ViewNode| x.spec_v()), n@) is None,
{
    let ghost nv = nodes@.map_values(|x: ViewNode| x.spec_v());
    let mut i: usize = 0;
    while i < nodes.len()
        invariant
            i <= nodes.len(),
            nv == nodes@.map_values(|x: ViewNode| x.spec_v()),
            member_of(nv.take(i as int), n@) is None,
        decreases nodes.len() - i,
    {
        let ms = &nodes[i].members;
        let mut j: usize = 0;
        let mut found = false;
        while j < ms.len()
            invariant
                j <= ms.len(),
                found ==> members_view(ms@).contains(n@),
                !found ==> forall|q: int| 0 <= q < j ==> ms@[q]@ != n@,
            decreases ms.len() - j,
        {
            if ms[j].same(n) {
                found = true;
                proof {
                    assert(members_view(ms@)[j as int] == n@);
                }
            }
            j += 1;
        }
        proof {
            assert(nv.take(i + 1).drop_last() =~= nv.take(i as int));
            assert(nv.take(i + 1).last() == nv[i as int]);
            assert(nv[i as int].members == members_view(ms@));
        }
        if found {
            proof {
                lemma_member_of_prefix(nv, n@, i + 1);
            }
            return Some(i);
        }
        proof {
            assert(!members_view(ms@).contains(n@));
        }
        i += 1;
    }
    proof {
        assert(nv.take(nodes.len() as int) =~= nv);
    }
    None
}

/// Tags of the view edges built so far, as characters.
pub open spec fn tags_chars(v: Seq<Vec<Vec<char>>>) -> Seq<Seq<Seq<char>>> {
    v.map_values(|t: Vec<Vec<char>>| chars_view(t@))
}

proof fn lemma_find_edge_prefix(es: Seq<EdgeV>, f: int, to: int, tags: Seq<Seq<char>>, j: int)
    requires
        0 <= j <= es.len(),
    ensures
        find_edge(es.take(j), f, to, tags) matches Some(x) ==> find_edge(es, f, to, tags) == Some(x),
    decreases es.len() - j,
{
    if j < es.len() {
        lemma_find_edge_prefix(es, f, to, tags, j + 1);
        assert(es.take(j + 1).drop_last() =~= es.take(j));
    } else {
        assert(es.take(j) =~= es);
    }
}

impl ViewGraph {
    fn build(t: &Topology, collapse: bool) -> (g: ViewGraph)
        requires
            t.spec_vertices().len() <= u32::MAX,
        ensures
            g.is_view_of(*t, collapse),
            g.wf(),
    {
        let names = names_of(t);
        let vs = t.vertices();
        proof {
            assert(chars_view(names@).len() == names@.len());
            assert(names@.len() == vs@.len());
            assert forall|q: int| 0 <= q < names@.len() implies #[trigger] names@[q]@ == vs@[q].name@ by {
                assert(chars_view(names@)[q] == names@[q]@);
                assert(vnames(*t)[q] == vs@[q].name@);
            }
        }
        let mut nodes: Vec<ViewNode> = Vec::new();
        let mut i: usize = 0;
        while i < vs.len()
            invariant
                i <= vs.len(),
                vs@ == t.spec_vertices(),
                vs.len() <= u32::MAX,
                chars_view(names@) == vnames(*t),
                names@.len() == vs@.len(),
                forall|q: int| 0 <= q < names@.len() ==> #[trigger] names@[q]@ == vs@[q].name@,
                nodes@.map_values(|x: ViewNode| x.spec_v()) == nodes_upto(*t, collapse, i as int),
                nodes@.len() <= i,
            decreases vs.len() - i,
        {
            let v = &vs[i];
            proof {
                assert(names@[i as int]@ == v.name@);
            }
            if member_index(&nodes, &v.name).is_none() {
                let node = match group_of(t, &names, collapse, &names[i]) {
                    None => {
                        let mut members: Vec<VertexName> = Vec::new();
                        members.push(v.name.copy());
                        proof {
                            assert(members_view(members@) =~= seq![v.name@]);
                        }
                        ViewNode {
                            label: string_of(&names[i]),
                            kind: v.kind,
                            members,
                            partitions: v.partitions,
                        }
                    },
                    Some((stem, ms)) => {
                        let mut label = stem.clone();
                        append(&mut label, &chars_of(" \u{d7}"));
                        proof {
                            assert(ms@.map_values(|q: usize| names@[q as int]@).len() == ms@.len());
                            let sh = shard_spec(names@[i as int]@)->0;
                            lemma_by_stem_len(vnames(*t), sh.0);
                            lemma_by_index_len(by_stem(vnames(*t), sh.0));
                            assert(ms@.len() <= vs@.len());
                        }
                        append(&mut label, &dec_chars(ms.len() as u32));
                        let mut members: Vec<VertexName> = Vec::new();
                        let mut k: usize = 0;
                        while k < ms.len()
                            invariant
                                k <= ms.len(),
                                vs@ == t.spec_vertices(),
                                chars_view(names@) == vnames(*t),
                                names@.len() == vs@.len(),
                                forall|q: int| 0 <= q < names@.len() ==> #[trigger] names@[q]@ == vs@[q].name@,
                                forall|q: int| 0 <= q < ms@.len() ==> #[trigger] ms@[q] < names@.len(),
                                members@.len() == k,
                                forall|q: int| 0 <= q < k ==> (#[trigger] members@[q])@ == names@[ms@[q] as int]@,
                            decreases ms.len() - k,
                        {
                            let m = ms[k];
                            proof {
                                assert(names@[m as int]@ == vs@[m as int].name@);
                            }
                            members.push(vs[m].name.copy());
                            k += 1;
                        }
                        proof {
                            assert(members_view(members@) =~= ms@.map_values(|q: usize| names@[q as int]@));
                        }
                        ViewNode {
                            label: string_of(&label),
                            kind: v.kind,
                            members,
                            partitions: v.partitions,
                        }
                    },
                };
                let ghost before = nodes@.map_values(|x: ViewNode| x.spec_v());
                proof {
                    assert(node.spec_v().label == node_for(*t, collapse, *v).label);
                    assert(node.spec_v().members == node_for(*t, collapse, *v).members);
                    assert(node.spec_v() == node_for(*t, collapse, *v));
                }
                nodes.push(node);
                proof {
                    assert(nodes@.map_values(|x: ViewNode| x.spec_v()) =~= before.push(node_for(*t, collapse, *v)));
                }
            }
            i += 1;
        }
        let ghost nv = nodes@.map_values(|x: ViewNode| x.spec_v());
        assert(nv == view_nodes(*t, collapse));
        let es = t.edges();
        let mut edges: Vec<ViewEdge> = Vec::new();
        let mut etags: Vec<Vec<Vec<char>>> = Vec::new();
        let mut k: usize = 0;
        while k < es.len()
            invariant
                k <= es.len(),
                es@ == t.spec_edges(),
                nv == nodes@.map_values(|x: ViewNode| x.spec_v()),
                nv == view_nodes(*t, collapse),
                nodes@.len() <= u32::MAX,
                edges@.map_values(|e: ViewEdge| e.spec_v()) == edges_upto(*t, nv, k as int),
                etags@.len() == edges@.len(),
                forall|q: int| 0 <= q < edges@.len() ==> chars_view(#[trigger] etags@[q]@) == strings_view(edges@[q].tags@),
                forall|q: int| 0 <= q < edges@.len() ==> (#[trigger] edges@[q]).from.0 < nodes@.len() && edges@[q].to.0 < nodes@.len(),
            decreases es.len() - k,
        {
            let e = &es[k];
            let ghost ev = edges@.map_values(|x: ViewEdge| x.spec_v());
            let f = member_index(&nodes, &e.from);
            let to = member_index(&nodes, &e.to);
            match (f, to) {
                (Some(f), Some(to)) => {
                    let mut tags = tag_strings(&e.conditions);
                    let from_c = chars_of(e.from.as_str());
                    let to_c = chars_of(e.to.as_str());
                    if nodes[f].is_group() {
                        let idx = match shard_split(&from_c) {
                            Some((_, x)) => Some(x),
                            None => None,
                        };
                        tags = norm_tags(tags, idx);
                    }
                    if nodes[to].is_group() {
                        let idx = match shard_split(&to_c) {
                            Some((_, x)) => Some(x),
                            None => None,
                        };
                        tags = norm_tags(tags, idx);
                    }
                    proof {
                        assert(nv[f as int].members == members_view(nodes@[f as int].members@));
                        assert(nv[to as int].members == members_view(nodes@[to as int].members@));
                        assert(chars_view(tags@) == view_tags(nv, es@[k as int], f as int, to as int));
                    }
                    proof {
                        assert(member_of(nv, es@[k as int].from@) == Some(f as int));
                        assert(member_of(nv, es@[k as int].to@) == Some(to as int));
                        assert(is_group_v(nv[f as int]) == nodes@[f as int].spec_is_group());
                        assert(edges_upto(*t, nv, k + 1) == {
                            let r = edges_upto(*t, nv, k as int);
                            let e = t.spec_edges()[k as int];
                            let tg = view_tags(nv, e, f as int, to as int);
                            let lossy = e.on_full == OnFull::DiscardLatest;
                            if f == to && is_group_v(nv[f as int]) && e.from@ != e.to@ {
                                r
                            } else {
                                match find_edge(r, f as int, to as int, tg) {
                                    Some(x) => r.update(
                                        x,
                                        EdgeV {
                                            lossy: r[x].lossy || lossy,
                                            members: r[x].members.push((e.from@, e.to@)),
                                            ..r[x]
                                        },
                                    ),
                                    None => r.push(
                                        EdgeV { from: f as int, to: to as int, tags: tg, lossy, members: seq![(e.from@, e.to@)] },
                                    ),
                                }
                            }
                        });
                    }
                    if f == to && nodes[f].is_group() && !e.from.same(&e.to) {
                        // An edge between two members of one group.
                    } else {
                        let lossy = e.on_full == OnFull::DiscardLatest;
                        let mut x: usize = 0;
                        let mut found: Option<usize> = None;
                        while x < edges.len()
                            invariant
                                x <= edges.len(),
                                etags@.len() == edges@.len(),
                                ev == edges@.map_values(|q: ViewEdge| q.spec_v()),
                                forall|q: int| 0 <= q < edges@.len() ==> chars_view(#[trigger] etags@[q]@) == strings_view(edges@[q].tags@),
                                match found {
                                    Some(y) => y < x && find_edge(ev.take(y + 1), f as int, to as int, chars_view(tags@)) == Some(y as int),
                                    None => find_edge(ev.take(x as int), f as int, to as int, chars_view(tags@)) is None,
                                },
                            decreases edges.len() - x,
                        {
                            if found.is_none() {
                                proof {
                                    assert(ev.take(x + 1).drop_last() =~= ev.take(x as int));
                                    assert(ev.take(x + 1).last() == ev[x as int]);
                                }
                                if edges[x].from.0 as usize == f && edges[x].to.0 as usize == to && same_tags(&etags[x], &tags) {
                                    found = Some(x);
                                }
                            }
                            x += 1;
                        }
                        match found {
                            Some(y) => {
                                proof {
                                    lemma_find_edge_prefix(ev, f as int, to as int, chars_view(tags@), y + 1);
                                }
                                let ghost old_edges = edges@;
                                let nl = edges[y].lossy || lossy;
                                edges[y].lossy = nl;
                                let pair = (e.from.copy(), e.to.copy());
                                edges[y].members.push(pair);
                                proof {
                                    assert(edges@.len() == old_edges.len());
                                    assert forall|q: int| 0 <= q < edges@.len() && q != y implies edges@[q] == old_edges[q] by {}
                                    assert(edges@[y as int].members@ == old_edges[y as int].members@.push(pair));
                                    assert(edges@[y as int].spec_v().members =~= ev[y as int].members.push((e.from@, e.to@)));
                                    assert(edges@.map_values(|q: ViewEdge| q.spec_v()) =~= ev.update(
                                        y as int,
                                        EdgeV {
                                            lossy: ev[y as int].lossy || lossy,
                                            members: ev[y as int].members.push((e.from@, e.to@)),
                                            ..ev[y as int]
                                        },
                                    ));
                                }
                            },
                            None => {
                                proof {
                                    assert(ev.take(edges.len() as int) =~= ev);
                                }
                                let mut members: Vec<(VertexName, VertexName)> = Vec::new();
                                members.push((e.from.copy(), e.to.copy()));
                                let ghost tv = chars_view(tags@);
                                edges.push(
                                    ViewEdge {
                                        from: NodeId(f as u32),
                                        to: NodeId(to as u32),
                                        tags: strings_of(&tags),
                                        lossy,
                                        members,
                                    },
                                );
                                etags.push(tags);
                                proof {
                                    assert(edges@.last().spec_v().members =~= seq![(e.from@, e.to@)]);
                                    assert(edges@.map_values(|q: ViewEdge| q.spec_v()) =~= ev.push(
                                        EdgeV { from: f as int, to: to as int, tags: tv, lossy, members: seq![(e.from@, e.to@)] },
                                    ));
                                }
                            },
                        }
                    }
                },
                _ => {
                    proof {
                        assert(edges_upto(*t, nv, k + 1) == edges_upto(*t, nv, k as int));
                    }
                },
            }
            k += 1;
        }
        ViewGraph { nodes, edges }
    }
}

impl ViewGraph {
    /// Every vertex is its own node.
    pub fn expanded(t: &Topology) -> (g: Self)
        requires
            t.spec_vertices().len() <= u32::MAX,
        ensures
            g.is_view_of(*t, false),
            g.wf(),
    {
        Self::build(t, false)
    }

    /// Vertices `stem-N` with the same stem, kind, partitions and identical
    /// outside neighbourhoods collapse into one node `stem ×N`.
    pub fn collapsed(t: &Topology) -> (g: Self)
        requires
            t.spec_vertices().len() <= u32::MAX,
        ensures
            g.is_view_of(*t, true),
            g.wf(),
    {
        Self::build(t, true)
    }

    /// The node a vertex belongs to.
    pub fn node_of(&self, name: &VertexName) -> (r: Option<NodeId>)
        ensures
            match member_of(self.nodes_v(), name@) {
                Some(i) => r == Some(NodeId(if i <= u32::MAX { i as u32 } else { u32::MAX })),
                None => r is None,
            },
    {
        match member_index(&self.nodes, name) {
            Some(i) => Some(NodeId(if i <= u32::MAX as usize { i as u32 } else { u32::MAX })),
            None => None,
        }
    }
}

} // verus!
