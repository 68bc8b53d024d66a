//! Layered layout for the card view: columns by rank, one-row pass slots for
//! long edges, column order chosen by drawing each barycenter sweep, bundled
//! tracks in the gaps, lanes for back edges. Pure: cell coordinates in, no
//! terminal types.

use vstd::prelude::*;

pub mod order;
pub mod place;
pub mod rank;
pub mod refine;
pub mod route;
pub mod score;
pub mod search;
pub mod slots;
pub mod tracks;

use crate::text::{chars_of, le, lex_le, same, string_of};
use crate::view::{
    join, join_chars, strings_chars, strings_view, chars_view, ViewGraph, ViewEdge,
};
pub use crate::view::{NodeId, ViewNode};

verus! {

#[derive(Debug, Clone, Copy, PartialEq, Eq, Structural, Hash, PartialOrd, Ord)]
pub struct EdgeId(pub u32);

/// Palette slot for an edge's tag combination; the renderer owns the hues.
#[derive(Debug, Clone, Copy, PartialEq, Eq, Structural, Hash, PartialOrd, Ord)]
pub struct EdgeColour(pub u8);

pub const PALETTE_SIZE: u8 = 6;

/// Where a column's rows go: a card, or a long edge passing through this
/// column on one row.
#[derive(Debug, Clone, Copy, PartialEq, Eq, Structural)]
pub enum Slot {
    Card(NodeId),
    /// A long edge passing through this column on one row.
    Pass(EdgeId),
}

/// One vertical track in a gap and the edges that run on it.
#[derive(Debug, Clone, PartialEq, Eq)]
pub struct Track {
    pub x: i32,
    pub edges: Vec<EdgeId>,
}

/// The gap between two columns and its tracks.
#[derive(Debug, Clone, PartialEq, Eq)]
pub struct GapPlan {
    pub x0: i32,
    pub width: u16,
    pub tracks: Vec<Track>,
}

/// The drawn path of one edge.
#[derive(Debug, PartialEq, Eq)]
pub struct Route {
    pub edge: EdgeId,
    /// Orthogonal polyline; collinear points collapsed.
    pub polyline: Vec<(i32, i32)>,
    /// Cell for the arrowhead (shared by every edge into the same target).
    pub head: (i32, i32),
    pub colour: Option<EdgeColour>,
}

/// Where a card sits: its column, top-left cell and height.
#[derive(Debug, Clone, Copy, PartialEq, Eq, Structural)]
pub struct CardPos {
    pub node: NodeId,
    pub col: usize,
    pub x: i32,
    pub y: i32,
    pub h: u16,
}

/// A tag label shown on a card, in the colour of the edges that carry it.
#[derive(Debug, Clone, PartialEq, Eq)]
pub struct Badge {
    pub label: String,
    pub colour: Option<EdgeColour>,
}

/// A drawn layout in cell coordinates.
#[derive(Debug, PartialEq, Eq)]
pub struct Layout {
    pub columns: Vec<Vec<Slot>>,
    pub col_x: Vec<i32>,
    pub cards: Vec<CardPos>,
    pub gaps: Vec<GapPlan>,
    pub routes: Vec<Route>,
    /// Back-edge lane rows under the cards.
    pub lanes: u16,
    /// Tag badges per node: one per distinct combination arriving there,
    /// for the nodes that have any, in node order.
    pub badges: Vec<(NodeId, Vec<Badge>)>,
    pub width: u16,
    pub height: u16,
}

impl Layout {
    /// The card of `node`: the first one placed for it.
    pub fn card(&self, node: NodeId) -> (r: Option<&CardPos>)
        ensures
            match r {
                Some(c) => crate::layout::route::first_card(self.cards@, node.0 as int) == Some(*c),
                None => crate::layout::route::first_card(self.cards@, node.0 as int) is None,
            },
    {
        let mut i: usize = 0;
        while i < self.cards.len()
            invariant
                i <= self.cards@.len(),
                crate::layout::route::first_card(self.cards@.take(i as int), node.0 as int) is None,
            decreases self.cards.len() - i,
        {
            proof {
                assert(self.cards@.take(i + 1).drop_last() =~= self.cards@.take(i as int));
            }
            if self.cards[i].node.0 == node.0 {
                proof {
                    lemma_first_card_prefix(self.cards@, node.0 as int, i + 1);
                }
                return Some(&self.cards[i]);
            }
            i += 1;
        }
        proof {
            assert(self.cards@.take(i as int) =~= self.cards@);
        }
        None
    }
}

proof fn lemma_first_card_prefix(cards: Seq<CardPos>, v: int, j: int)
    requires
        0 <= j <= cards.len(),
    ensures
        crate::layout::route::first_card(cards.take(j), v) matches Some(k) ==> crate::layout::route::first_card(cards, v) == Some(k),
    decreases cards.len() - j,
{
    if j < cards.len() {
        lemma_first_card_prefix(cards, v, j + 1);
        assert(cards.take(j + 1).drop_last() =~= cards.take(j));
    } else {
        assert(cards.take(j) =~= cards);
    }
}

/// Where the horizontal runs of long edges sit when several cross the same
/// columns.
#[derive(Debug, Clone, Copy, PartialEq, Eq, Structural)]
pub enum Bundling {
    /// Each edge takes the row that costs it the least, so runs scatter.
    Spread,
    /// Runs crossing the same columns are pulled into one band of adjacent
    /// rows, read like a ribbon cable.
    Ribbon,
}

impl Default for Bundling {
    fn default() -> (b: Self)
        ensures
            b == Bundling::Spread,
    {
        Bundling::Spread
    }
}

/// Card size and edge style.
#[derive(Debug, Clone, Copy)]
pub struct LayoutOptions {
    /// How parallel runs through the same columns are placed.
    pub bundling: Bundling,
    pub card_w: u16,
    /// Rows per card, borders included. Odd, so there is a middle row; the
    /// last content row holds tag badges.
    pub card_h: u16,
}

/// Most nodes a layout takes: rows and columns stay well inside `i32`.
pub const MAX_NODES: usize = 1024;

/// Most edges a layout takes.
pub const MAX_EDGES: usize = 4096;

/// Barycenter sweeps after the first downward pass.
pub const MAX_SWEEPS: usize = 8;

/// Narrowest gap between two columns.
pub const MIN_GAP: u16 = 5;

/// A graph the layout takes: well formed, within the size limits.
pub open spec fn small(g: &ViewGraph) -> bool {
    &&& g.wf()
    &&& g.nodes@.len() <= MAX_NODES
    &&& g.edges@.len() <= MAX_EDGES
}

// ---- colours ------------------------------------------------------------------------

/// `x` placed before the first element of the sorted `s` greater than it.
pub open spec fn insert_str(s: Seq<Seq<char>>, x: Seq<char>) -> Seq<Seq<char>>
    decreases s.len(),
{
    if s.len() == 0 {
        seq![x]
    } else if lex_le(s.last(), x) {
        s.push(x)
    } else {
        insert_str(s.drop_last(), x).push(s.last())
    }
}

/// The strings in lexicographic order.
pub open spec fn sort_strs(s: Seq<Seq<char>>) -> Seq<Seq<char>>
    decreases s.len(),
{
    if s.len() == 0 {
        Seq::empty()
    } else {
        insert_str(sort_strs(s.drop_last()), s.last())
    }
}

/// An edge's tag combination: its tags sorted and joined by `,`; none when
/// it carries no tags.
pub open spec fn combo(tags: Seq<Seq<char>>) -> Option<Seq<char>> {
    if tags.len() == 0 {
        None
    } else {
        Some(join(sort_strs(tags), ","@))
    }
}

pub open spec fn index_in(seen: Seq<Seq<char>>, k: Seq<char>) -> Option<nat>
    decreases seen.len(),
{
    if seen.len() == 0 {
        None
    } else {
        match index_in(seen.drop_last(), k) {
            Some(i) => Some(i),
            None => if seen.last() == k {
                Some((seen.len() - 1) as nat)
            } else {
                None
            },
        }
    }
}

/// The line number of each of the first `i` edges and the combinations seen,
/// in first-encounter order.
pub open spec fn lines_fold(combos: Seq<Option<Seq<char>>>, i: int) -> (Seq<Option<nat>>, Seq<Seq<char>>)
    decreases i,
{
    if i <= 0 || i > combos.len() {
        (Seq::empty(), Seq::empty())
    } else {
        let (ids, seen) = lines_fold(combos, i - 1);
        match combos[i - 1] {
            None => (ids.push(None), seen),
            Some(k) => match index_in(seen, k) {
                Some(j) => (ids.push(Some(j)), seen),
                None => (ids.push(Some(seen.len())), seen.push(k)),
            },
        }
    }
}

pub open spec fn edge_combos(g: ViewGraph) -> Seq<Option<Seq<char>>> {
    g.edges@.map_values(|e: ViewEdge| combo(strings_view(e.tags@)))
}

/// The line each edge belongs to: its tag combination, numbered in
/// first-encounter order; `None` when it carries no tags.
pub open spec fn lines_spec(g: ViewGraph) -> Seq<Option<nat>> {
    lines_fold(edge_combos(g), g.edges@.len() as int).0
}

/// The colour of each edge: its line, wrapping round the palette.
pub open spec fn colours_spec(g: ViewGraph) -> Seq<Option<EdgeColour>> {
    lines_spec(g).map_values(
        |n: Option<nat>|
            match n {
                Some(k) => Some(EdgeColour((k % (PALETTE_SIZE as nat)) as u8)),
                None => None,
            },
    )
}

fn sorted_strs(v: &Vec<Vec<char>>) -> (out: Vec<Vec<char>>)
    ensures
        chars_view(out@) == sort_strs(chars_view(v@)),
{
    let ghost vv = chars_view(v@);
    let mut out: Vec<Vec<char>> = Vec::new();
    let mut k: usize = 0;
    while k < v.len()
        invariant
            k <= v.len(),
            vv == chars_view(v@),
            chars_view(out@) == sort_strs(vv.take(k as int)),
        decreases v.len() - k,
    {
        proof {
            assert(vv.take(k + 1).drop_last() =~= vv.take(k as int));
            assert(vv.take(k + 1).last() == v@[k as int]@);
        }
        let x = &v[k];
        let mut pos: usize = out.len();
        let ghost ov = chars_view(out@);
        proof {
            assert(ov.take(pos as int) =~= ov);
            assert(ov.skip(pos as int) =~= Seq::<Seq<char>>::empty());
            assert(ov + Seq::<Seq<char>>::empty() =~= ov);
        }
        while pos > 0 && !le(&out[pos - 1], x)
            invariant
                pos <= out@.len(),
                ov == chars_view(out@),
                insert_str(ov, x@) == insert_str(ov.take(pos as int), x@) + ov.skip(pos as int),
            decreases pos,
        {
            proof {
                let a = ov.take(pos as int);
                assert(a.last() == out@[pos - 1]@);
                assert(a.drop_last() =~= ov.take(pos - 1));
                assert(insert_str(ov.take(pos - 1), x@).push(a.last()) + ov.skip(pos as int) =~= insert_str(ov.take(pos - 1), x@) + ov.skip(pos - 1));
            }
            pos -= 1;
        }
        proof {
            let a = ov.take(pos as int);
            if pos > 0 {
                assert(a.last() == out@[pos - 1]@);
            }
        }
        out.insert(pos, x.clone());
        proof {
            assert(chars_view(out@) =~= ov.take(pos as int).push(x@) + ov.skip(pos as int));
        }
        k += 1;
    }
    proof {
        assert(vv.take(v.len() as int) =~= vv);
    }
    out
}

/// The line each edge belongs to: its sorted tag combination, in
/// first-encounter order, and `None` when it carries no tags. Unlike
/// [`colours`] this never puts two combinations together.
pub fn lines(g: &ViewGraph) -> (out: Vec<Option<u32>>)
    requires
        g.edges@.len() <= MAX_EDGES,
    ensures
        out@.len() == g.edges@.len(),
        lines_spec(*g).len() == g.edges@.len(),
        forall|k: int|
            0 <= k < out@.len() ==> match (#[trigger] out@[k], lines_spec(*g)[k]) {
                (Some(a), Some(b)) => a as nat == b,
                (None, None) => true,
                _ => false,
            },
{
    let ghost cs = edge_combos(*g);
    let mut seen: Vec<Vec<char>> = Vec::new();
    let mut out: Vec<Option<u32>> = Vec::new();
    let mut i: usize = 0;
    while i < g.edges.len()
        invariant
            i <= g.edges@.len(),
            g.edges@.len() <= MAX_EDGES,
            cs == edge_combos(*g),
            cs.len() == g.edges@.len(),
            chars_view(seen@) == lines_fold(cs, i as int).1,
            seen@.len() <= i,
            out@.len() == i,
            lines_fold(cs, i as int).0.len() == i,
            forall|k: int|
                0 <= k < i ==> match (#[trigger] out@[k], lines_fold(cs, i as int).0[k]) {
                    (Some(a), Some(b)) => a as nat == b,
                    (None, None) => true,
                    _ => false,
                },
        decreases g.edges@.len() - i,
    {
        let e = &g.edges[i];
        let ghost prev = lines_fold(cs, i as int);
        if e.tags.len() == 0 {
            out.push(None);
            proof {
                assert(cs[i as int] is None);
            }
        } else {
            let ts = strings_chars(&e.tags);
            let sorted = sorted_strs(&ts);
            let key = join_chars(&sorted, &chars_of(","));
            proof {
                assert(cs[i as int] == Some(key@));
            }
            let mut j: usize = 0;
            let mut found: Option<usize> = None;
            while j < seen.len()
                invariant
                    j <= seen@.len(),
                    match found {
                        Some(x) => x < j && index_in(chars_view(seen@).take(x + 1), key@) == Some(x as nat),
                        None => index_in(chars_view(seen@).take(j as int), key@) is None,
                    },
                decreases seen.len() - j,
            {
                if found.is_none() {
                    proof {
                        assert(chars_view(seen@).take(j + 1).drop_last() =~= chars_view(seen@).take(j as int));
                    }
                    if same(&seen[j], &key) {
                        found = Some(j);
                    }
                }
                j += 1;
            }
            match found {
                Some(x) => {
                    proof {
                        lemma_index_in_prefix(chars_view(seen@), key@, x + 1);
                    }
                    out.push(Some(x as u32));
                },
                None => {
                    proof {
                        assert(chars_view(seen@).take(seen@.len() as int) =~= chars_view(seen@));
                    }
                    out.push(Some(seen.len() as u32));
                    seen.push(key);
                    proof {
                        assert(chars_view(seen@) =~= prev.1.push(key@));
                    }
                },
            }
        }
        i += 1;
    }
    out
}

proof fn lemma_index_in_prefix(seen: Seq<Seq<char>>, k: Seq<char>, j: int)
    requires
        0 <= j <= seen.len(),
    ensures
        index_in(seen.take(j), k) matches Some(x) ==> index_in(seen, k) == Some(x),
    decreases seen.len() - j,
{
    if j < seen.len() {
        lemma_index_in_prefix(seen, k, j + 1);
        assert(seen.take(j + 1).drop_last() =~= seen.take(j));
    } else {
        assert(seen.take(j) =~= seen);
    }
}

/// Colour per edge: sorted tag combination, first-encounter order. The
/// palette wraps, so two combinations can share a hue.
pub fn colours(g: &ViewGraph) -> (out: Vec<Option<EdgeColour>>)
    requires
        g.edges@.len() <= MAX_EDGES,
    ensures
        out@ == colours_spec(*g),
        out@.len() == g.edges@.len(),
{
    let ls = lines(g);
    let mut out: Vec<Option<EdgeColour>> = Vec::new();
    let mut i: usize = 0;
    while i < ls.len()
        invariant
            i <= ls@.len(),
            ls@.len() == g.edges@.len(),
            lines_spec(*g).len() == g.edges@.len(),
            forall|k: int|
                0 <= k < ls@.len() ==> match (#[trigger] ls@[k], lines_spec(*g)[k]) {
                    (Some(a), Some(b)) => a as nat == b,
                    (None, None) => true,
                    _ => false,
                },
            out@ == colours_spec(*g).take(i as int),
        decreases ls.len() - i,
    {
        let c = match ls[i] {
            Some(n) => Some(EdgeColour((n % (PALETTE_SIZE as u32)) as u8)),
            None => None,
        };
        out.push(c);
        proof {
            assert(out@ =~= colours_spec(*g).take(i + 1));
        }
        i += 1;
    }
    proof {
        assert(colours_spec(*g).take(ls@.len() as int) =~= colours_spec(*g));
    }
    out
}

/// While the lines are numbered, every edge so far that carries tags has
/// the number of its combination among those seen so far, and the seen
/// combinations are distinct.
proof fn lemma_lines_fold(combos: Seq<Option<Seq<char>>>, i: int)
    requires
        0 <= i <= combos.len(),
    ensures
        lines_fold(combos, i).0.len() == i,
        forall|a: int, b: int| 0 <= a < b < lines_fold(combos, i).1.len() ==> lines_fold(combos, i).1[a] != lines_fold(combos, i).1[b],
        forall|k: int| 0 <= k < i ==> match #[trigger] combos[k] {
            Some(c) => lines_fold(combos, i).0[k] == index_in(lines_fold(combos, i).1, c) && index_in(
                lines_fold(combos, i).1,
                c,
            ) is Some,
            None => lines_fold(combos, i).0[k] is None,
        },
    decreases i,
{
    if i > 0 {
        lemma_lines_fold(combos, i - 1);
        let (ids, seen) = lines_fold(combos, i - 1);
        match combos[i - 1] {
            None => {},
            Some(c) => match index_in(seen, c) {
                Some(j) => {},
                None => {
                    let seen2 = seen.push(c);
                    assert forall|k: int| 0 <= k < i - 1 implies match #[trigger] combos[k] {
                        Some(d) => index_in(seen2, d) == index_in(seen, d),
                        None => true,
                    } by {
                        if let Some(d) = combos[k] {
                            lemma_index_in_push(seen, c, d);
                        }
                    }
                    lemma_index_in_push(seen, c, c);
                    lemma_index_in_absent(seen, c);
                },
            },
        }
    }
}

/// Looking a combination up in a list grown by a new one finds what it found
/// before, and the new one at the end.
proof fn lemma_index_in_push(seen: Seq<Seq<char>>, c: Seq<char>, d: Seq<char>)
    requires
        index_in(seen, c) is None,
    ensures
        d != c ==> index_in(seen.push(c), d) == index_in(seen, d),
        index_in(seen.push(c), c) == Some(seen.len()),
{
    assert(seen.push(c).drop_last() =~= seen);
}

/// A combination not found is in no place of the list.
proof fn lemma_index_in_absent(seen: Seq<Seq<char>>, c: Seq<char>)
    ensures
        index_in(seen, c) is None <==> forall|k: int| 0 <= k < seen.len() ==> seen[k] != c,
        index_in(seen, c) matches Some(j) ==> j < seen.len() && seen[j as int] == c,
    decreases seen.len(),
{
    if seen.len() > 0 {
        lemma_index_in_absent(seen.drop_last(), c);
        if index_in(seen, c) is None {
            assert forall|k: int| 0 <= k < seen.len() implies seen[k] != c by {
                if k < seen.len() - 1 {
                    assert(seen.drop_last()[k] == seen[k]);
                }
            }
        }
        if forall|k: int| 0 <= k < seen.len() ==> seen[k] != c {
            assert forall|k: int| 0 <= k < seen.drop_last().len() implies seen.drop_last()[k] != c by {
                assert(seen.drop_last()[k] == seen[k]);
            }
        }
    }
}

/// Edges with the same tag combination are on the same line and so drawn in
/// the same colour; edges of different combinations are on different lines;
/// an edge without tags is on none.
pub proof fn lemma_colour_by_combination(g: ViewGraph, i: int, j: int)
    requires
        0 <= i < g.edges@.len(),
        0 <= j < g.edges@.len(),
    ensures
        edge_combos(g)[i] == edge_combos(g)[j] ==> lines_spec(g)[i] == lines_spec(g)[j] && colours_spec(g)[i]
            == colours_spec(g)[j],
        edge_combos(g)[i] is Some && edge_combos(g)[j] is Some && edge_combos(g)[i] != edge_combos(g)[j]
            ==> lines_spec(g)[i] != lines_spec(g)[j],
        edge_combos(g)[i] is None <==> lines_spec(g)[i] is None,
        g.edges@[i].tags@.len() == 0 <==> colours_spec(g)[i] is None,
{
    let combos = edge_combos(g);
    let n = g.edges@.len() as int;
    lemma_lines_fold(combos, n);
    let seen = lines_fold(combos, n).1;
    if let (Some(a), Some(b)) = (combos[i], combos[j]) {
        if a != b {
            lemma_index_in_absent(seen, a);
            lemma_index_in_absent(seen, b);
        }
    }
    assert(combos[i] == combo(strings_view(g.edges@[i].tags@)));
    assert(strings_view(g.edges@[i].tags@).len() == g.edges@[i].tags@.len());
}

// ---- badges -------------------------------------------------------------------------

/// A badge as a label and a colour.
pub open spec fn badge_view(b: Badge) -> (Seq<char>, Option<EdgeColour>) {
    (b.label@, b.colour)
}

pub open spec fn badges_view(v: Seq<Badge>) -> Seq<(Seq<char>, Option<EdgeColour>)> {
    v.map_values(|b: Badge| badge_view(b))
}

/// A badge's label: the edge's tags joined by `, `.
pub open spec fn label_of(e: ViewEdge) -> Seq<char> {
    join(strings_view(e.tags@), ", "@)
}

/// The badges the first `i` edges give node `v`: one per distinct label of
/// a tagged edge into it, in arrival order, in the colour of the edge that
/// brought it first.
pub open spec fn badges_at(g: ViewGraph, colours: Seq<Option<EdgeColour>>, v: int, i: int) -> Seq<(Seq<char>, Option<EdgeColour>)>
    decreases i,
{
    if i <= 0 {
        Seq::empty()
    } else {
        let prev = badges_at(g, colours, v, i - 1);
        let e = g.edges@[i - 1];
        if e.to.0 == v && e.tags@.len() > 0 && !(exists|k: int| 0 <= k < prev.len() && (#[trigger] prev[k]).0 == label_of(e)) {
            prev.push((label_of(e), colours[i - 1]))
        } else {
            prev
        }
    }
}

/// The badges of the first `n` nodes, for the nodes that have any.
pub open spec fn badges_upto(g: ViewGraph, colours: Seq<Option<EdgeColour>>, n: int) -> Seq<(NodeId, Seq<(Seq<char>, Option<EdgeColour>)>)>
    decreases n,
{
    if n <= 0 {
        Seq::empty()
    } else {
        let prev = badges_upto(g, colours, n - 1);
        let b = badges_at(g, colours, n - 1, g.edges@.len() as int);
        if b.len() > 0 {
            prev.push((NodeId((n - 1) as u32), b))
        } else {
            prev
        }
    }
}

/// Tag badges per node, in node order, for the nodes a tagged edge arrives
/// at: one per distinct combination arriving there, labelled with the
/// edge's tags joined by `, `, in the colour of the first edge carrying it.
pub fn badges_for(g: &ViewGraph, colours: &Vec<Option<EdgeColour>>) -> (out: Vec<(NodeId, Vec<Badge>)>)
    requires
        colours@.len() == g.edges@.len(),
        g.nodes@.len() <= u32::MAX,
    ensures
        out@.len() == badges_upto(*g, colours@, g.nodes@.len() as int).len(),
        forall|k: int| 0 <= k < out@.len() ==> {
            let (id, bs) = #[trigger] out@[k];
            (id, badges_view(bs@)) == badges_upto(*g, colours@, g.nodes@.len() as int)[k]
        },
{
    let sep = chars_of(", ");
    let n = g.nodes.len();
    let m = g.edges.len();
    let mut out: Vec<(NodeId, Vec<Badge>)> = Vec::new();
    let mut v: usize = 0;
    while v < n
        invariant
            v <= n,
            n == g.nodes@.len(),
            n <= u32::MAX,
            m == g.edges@.len(),
            colours@.len() == m,
            sep@ == ", "@,
            out@.len() == badges_upto(*g, colours@, v as int).len(),
            forall|k: int| 0 <= k < out@.len() ==> {
                let (id, bs) = #[trigger] out@[k];
                (id, badges_view(bs@)) == badges_upto(*g, colours@, v as int)[k]
            },
        decreases n - v,
    {
        let mut labels: Vec<Vec<char>> = Vec::new();
        let mut bs: Vec<Badge> = Vec::new();
        let mut i: usize = 0;
        while i < m
            invariant
                i <= m,
                m == g.edges@.len(),
                colours@.len() == m,
                sep@ == ", "@,
                labels@.len() == bs@.len(),
                forall|k: int| 0 <= k < labels@.len() ==> (#[trigger] labels@[k])@ == bs@[k].label@,
                badges_view(bs@) == badges_at(*g, colours@, v as int, i as int),
            decreases m - i,
        {
            let e = &g.edges[i];
            let ghost prev = badges_at(*g, colours@, v as int, i as int);
            if e.to.0 as usize == v && e.tags.len() > 0 {
                let ts = strings_chars(&e.tags);
                let label = join_chars(&ts, &sep);
                proof {
                    assert(ts@.map_values(|x: Vec<char>| x@) =~= strings_view(e.tags@));
                    assert(label@ == label_of(*e));
                }
                let mut found = false;
                let mut k: usize = 0;
                while k < labels.len()
                    invariant
                        k <= labels@.len(),
                        labels@.len() == bs@.len(),
                        forall|j: int| 0 <= j < labels@.len() ==> (#[trigger] labels@[j])@ == bs@[j].label@,
                        badges_view(bs@) == prev,
                        found <==> exists|j: int| 0 <= j < k && (#[trigger] prev[j]).0 == label@,
                    decreases labels.len() - k,
                {
                    if same(&labels[k], &label) {
                        found = true;
                    }
                    proof {
                        assert(prev[k as int].0 == labels@[k as int]@);
                        if !found {
                            assert forall|j: int| 0 <= j < k + 1 implies (#[trigger] prev[j]).0 != label@ by {
                                if j == k {
                                    assert(prev[j].0 == labels@[j]@);
                                }
                            }
                        }
                    }
                    k += 1;
                }
                if !found {
                    let b = Badge { label: string_of(&label), colour: colours[i] };
                    bs.push(b);
                    labels.push(label);
                    proof {
                        assert(badges_view(bs@) =~= prev.push((label_of(*e), colours@[i as int])));
                    }
                }
            }
            i += 1;
        }
        if bs.len() > 0 {
            out.push((NodeId(v as u32), bs));
            proof {
                assert(out@[out@.len() - 1].1@ == bs@);
            }
        }
        v += 1;
    }
    out
}

// ---- layout -------------------------------------------------------------------------

/// Lay the graph out. Deterministic for a given `(g, opts)`.
///
/// Every distinct card order the barycenter sweeps propose is drawn with the
/// centred placement and scored; the best is refined by swapping neighbouring
/// cards while the preview improves; then that order and the best sweeps are
/// built in full, placement search included, and the lowest full score wins.
///
/// Every route leaves its source's card on the middle row of its right side
/// and ends in the cell left of its target's card on that card's middle row,
/// with the arrowhead there; every turn is square.
pub fn layout(g: &ViewGraph, opts: LayoutOptions) -> (out: Layout)
    requires
        small(g),
        opts.bundling == Bundling::Spread,
        opts.card_h <= crate::layout::place::MAX_CARD_H,
    ensures
        out.routes@.len() == g.edges@.len(),
        forall|i: int| 0 <= i < g.edges@.len() ==> #[trigger] crate::layout::route::route_ok(&out, g, opts.card_w as int, i),
        forall|k: int| 0 <= k < out.cards@.len() ==> (#[trigger] out.cards@[k]).x == out.col_x@[out.cards@[k].col as int],
        forall|i: int| 0 <= i < g.edges@.len() ==> (#[trigger] out.routes@[i]).colour == colours_spec(*g)[i],
        exists|rk: Seq<usize>, bk: Seq<bool>|
            #[trigger] crate::layout::rank::rank_law(g, rk, bk) && crate::layout::rank::spans_cols(rk, out.col_x@.len() as int),
{
    // With one shared bus per card there is no other track rule to fall
    // back to: the drawing with shared buses is the only one.
    crate::layout::search::layout_with(g, opts, false)
}

} // verus!
