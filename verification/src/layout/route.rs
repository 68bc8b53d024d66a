//! Coordinates: card and pass rows per column, gap widths from track counts,
//! one polyline per edge, lanes for back edges.

use vstd::prelude::*;

use crate::layout::order::{LNode, Layered, cards, cards_of, cards_spec, cards_view, lnode_ok};
use crate::layout::place::{
    MAX_CARD_H, MAX_COL, MAX_GAP_ROWS, MAX_ROWS, SLOT_GAP, gaps_ok, heights_ok, rows_fit, shape_ok_v, tallest,
};
use crate::layout::rank::Ranked;
use crate::layout::tracks::{MAX_GAP_SPANS, Span, pack, straight};
use crate::layout::{
    Badge, CardPos, EdgeColour, EdgeId, GapPlan, Layout, LayoutOptions, MAX_EDGES, MAX_NODES, MIN_GAP, Route, Slot, Track, small,
};
use crate::view::{NodeId, ViewGraph};

verus! {

/// Rows any drawn point stays within.
pub const MAX_Y: i32 = 268435456;

/// Column and attach row per layered node, plus the card and slot lists.
pub struct Geometry {
    /// Column and attach row per layered node: nodes first, then an entry
    /// per edge for its pass slots.
    pub attach: Vec<Option<(usize, i32)>>,
    pub nodes: usize,
    pub cards: Vec<CardPos>,
    pub columns: Vec<Vec<Slot>>,
    pub cards_h: i32,
    /// Rows held open between two stacked cards, per column and row.
    pub reserved: Vec<Vec<bool>>,
    /// The held rows (`lo..=hi`) of the gap an edge's pass slot sits in, per
    /// column it passes: `(column, edge, lo, hi)`.
    pub slot: Vec<(usize, EdgeId, i32, i32)>,
}

/// The index of a layered node's entry.
pub open spec fn slot_of(nodes: int, n: LNode) -> int {
    match n {
        LNode::Real(id) => id.0 as int,
        LNode::Pass(e) => nodes + e.0 as int,
    }
}

/// A row inside the drawing's limit.
pub open spec fn row_ok(y: int) -> bool {
    0 <= y <= MAX_Y
}

impl Geometry {
    /// Entries for every node and edge of `g`; every placed row and card
    /// inside the limit; `cards_h` past every card.
    pub open spec fn wf_for(&self, g: &ViewGraph, cols: int) -> bool {
        &&& self.nodes == g.nodes@.len()
        &&& self.attach@.len() == g.nodes@.len() + g.edges@.len()
        &&& forall|i: int|
            0 <= i < self.attach@.len() ==> match #[trigger] self.attach@[i] {
                Some(p) => p.0 < cols && row_ok(p.1 as int) && p.1 <= self.cards_h,
                None => true,
            }
        &&& forall|k: int|
            0 <= k < self.cards@.len() ==> {
                let c = #[trigger] self.cards@[k];
                &&& c.col < cols
                &&& row_ok(c.y as int)
                &&& c.y + c.h <= self.cards_h
                &&& c.h <= MAX_CARD_H
            }
        &&& row_ok(self.cards_h as int)
        &&& self.columns@.len() == cols
        &&& self.reserved@.len() == cols
    }

    /// Where a layered node attaches, `(0, 0)` when it has no place.
    pub open spec fn at_spec(&self, n: LNode) -> (usize, i32) {
        let k = slot_of(self.nodes as int, n);
        if 0 <= k < self.attach@.len() && self.attach@[k] is Some {
            self.attach@[k]->0
        } else {
            (0usize, 0i32)
        }
    }

    /// Where a layered node attaches; every node is placed before it is asked for.
    pub fn at(&self, n: LNode) -> (p: (usize, i32))
        ensures
            p == self.at_spec(n),
            0 <= slot_of(self.nodes as int, n) < self.attach@.len() && self.attach@[slot_of(self.nodes as int, n)] is Some
                ==> Some(p) == self.attach@[slot_of(self.nodes as int, n)],
            !(0 <= slot_of(self.nodes as int, n) < self.attach@.len() && self.attach@[slot_of(self.nodes as int, n)] is Some)
                ==> p == (0usize, 0i32),
    {
        let len = self.attach.len();
        let k: usize = match n {
            LNode::Real(id) => id.0 as usize,
            LNode::Pass(e) => {
                if self.nodes >= len || e.0 as usize >= len - self.nodes {
                    return (0, 0);
                }
                self.nodes + e.0 as usize
            },
        };
        if k < self.attach.len() {
            match self.attach[k] {
                Some(p) => p,
                None => (0, 0),
            }
        } else {
            (0, 0)
        }
    }
}

/// The first card of node `v`.
pub open spec fn first_card(cards: Seq<CardPos>, v: int) -> Option<CardPos>
    decreases cards.len(),
{
    if cards.len() == 0 {
        None
    } else {
        match first_card(cards.drop_last(), v) {
            Some(k) => Some(k),
            None => if cards.last().node.0 == v { Some(cards.last()) } else { None },
        }
    }
}

/// Where a card attaches: its column and middle row.
pub open spec fn attach_of(k: Option<CardPos>) -> Option<(usize, i32)> {
    match k {
        Some(c) => Some((c.col, (c.y + (c.h as int) / 2) as i32)),
        None => None,
    }
}

/// Every node attaches at the middle row of its first card.
pub open spec fn cards_attached(geo: &Geometry) -> bool {
    forall|v: int| 0 <= v < geo.nodes ==> #[trigger] geo.attach@[v] == attach_of(first_card(geo.cards@, v))
}

/// What the geometry is built from: the layered graph of a small graph,
/// a row per card, gaps to match, a height per node.
pub open spec fn inputs_ok(g: &ViewGraph, l: &Layered, ys: Seq<Vec<i32>>, gaps: Seq<Vec<i32>>, heights: Seq<i32>) -> bool {
    &&& small(g)
    &&& l.wf_for(g)
    &&& l.columns@.len() <= MAX_NODES
    &&& forall|c: int| 0 <= c < l.columns@.len() ==> (#[trigger] l.columns@[c])@.len() <= MAX_COL
    &&& rows_fit(ys, l.columns@)
    &&& shape_ok_v(cards_spec(l.columns@), gaps)
    &&& heights_ok(heights)
    &&& heights.len() == g.nodes@.len()
}

fn slot_for(n: LNode) -> (s: Slot)
    ensures
        s == match n {
            LNode::Real(id) => Slot::Card(id),
            LNode::Pass(e) => Slot::Pass(e),
        },
{
    match n {
        LNode::Real(id) => Slot::Card(id),
        LNode::Pass(e) => Slot::Pass(e),
    }
}

/// Cards placed on their rows, each attached at its middle row; rows held
/// open for the pass slots between stacked cards; then every pass slot
/// given a row.
/// Card `cp` is one of its column's cards, on the row `ys` gives it and as
/// tall as its node's card.
pub open spec fn card_from_rows(columns: Seq<Vec<LNode>>, ys: Seq<Vec<i32>>, heights: Seq<i32>, cp: CardPos) -> bool {
    &&& cp.col < columns.len()
    &&& exists|k: int|
        0 <= k < ys[cp.col as int]@.len() && #[trigger] cards_of(columns[cp.col as int]@)[k] == cp.node && cp.y == ys[cp.col as int]@[k]
            && cp.h == heights[cp.node.0 as int]
}

pub fn geometry(g: &ViewGraph, l: &Layered, ys: &Vec<Vec<i32>>, gaps: &Vec<Vec<i32>>, heights: &Vec<i32>) -> (geo: Geometry)
    requires
        inputs_ok(g, l, ys@, gaps@, heights@),
    ensures
        geo.wf_for(g, l.columns@.len() as int),
        geo.cards_h <= MAX_ROWS + MAX_CARD_H + 3 * MAX_EDGES,
        passes_apart(g, l, &geo),
        cards_attached(&geo),
        forall|q: int| 0 <= q < geo.cards@.len() ==> #[trigger] card_from_rows(l.columns@, ys@, heights@, geo.cards@[q]),
{
    let n = g.nodes.len();
    let m = g.edges.len();
    let cols = l.columns.len();
    let cards_in = cards(&l.columns);
    proof {
        assert(cards_view(cards_in@).len() == cards_spec(l.columns@).len());
        assert forall|c: int| 0 <= c < cards_in@.len() implies (#[trigger] cards_in@[c])@ == cards_of(l.columns@[c]@) by {
            assert(cards_view(cards_in@)[c] == cards_spec(l.columns@)[c]);
        }
    }
    let mut height = tallest_of(&cards_in, gaps, heights, l);
    // Cards only: pass slots are placed afterwards.
    let mut c: usize = 0;
    while c < cols
        invariant
            c <= cols,
            cols == l.columns@.len(),
            cols == cards_in@.len(),
            inputs_ok(g, l, ys@, gaps@, heights@),
            forall|x: int| 0 <= x < cards_in@.len() ==> (#[trigger] cards_in@[x])@ == cards_of(l.columns@[x]@),
            0 <= height <= MAX_ROWS + MAX_CARD_H,
            forall|x: int, k: int|
                0 <= x < c && 0 <= k < ys@[x]@.len() ==> #[trigger] ys@[x]@[k] + heights@[cards_of(l.columns@[x]@)[k].0 as int] <= height,
        decreases cols - c,
    {
        let col = &cards_in[c];
        let mut k: usize = 0;
        while k < col.len()
            invariant
                k <= col@.len(),
                c < cols,
                cols == l.columns@.len(),
                col@ == cards_of(l.columns@[c as int]@),
                inputs_ok(g, l, ys@, gaps@, heights@),
                0 <= height <= MAX_ROWS + MAX_CARD_H,
                forall|x: int, k2: int|
                    0 <= x < c && 0 <= k2 < ys@[x]@.len() ==> #[trigger] ys@[x]@[k2] + heights@[cards_of(l.columns@[x]@)[k2].0 as int] <= height,
                forall|k2: int| 0 <= k2 < k ==> #[trigger] ys@[c as int]@[k2] + heights@[cards_of(l.columns@[c as int]@)[k2].0 as int] <= height,
            decreases col.len() - k,
        {
            let id = col[k].0 as usize;
            proof {
                lemma_card_ok(g, l, c as int, k as int);
            }
            let y = ys[c][k];
            let kh = heights[id];
            if y + kh > height {
                height = y + kh;
            }
            k += 1;
        }
        proof {
            assert(ys@[c as int]@.len() == cards_of(l.columns@[c as int]@).len());
        }
        c += 1;
    }
    let mut attach: Vec<Option<(usize, i32)>> = Vec::new();
    let total = n + m;
    let mut i: usize = 0;
    while i < total
        invariant
            i <= total,
            attach@.len() == i,
            forall|x: int| 0 <= x < i ==> (#[trigger] attach@[x]) is None,
        decreases total - i,
    {
        attach.push(None);
        i += 1;
    }
    let mut reserved: Vec<Vec<bool>> = Vec::new();
    let rows = height as usize + 1;
    let mut c: usize = 0;
    while c < cols
        invariant
            c <= cols,
            reserved@.len() == c,
            rows == height + 1,
            forall|x: int| 0 <= x < c ==> (#[trigger] reserved@[x])@.len() == rows,
        decreases cols - c,
    {
        let mut col: Vec<bool> = Vec::new();
        let mut r: usize = 0;
        while r < rows
            invariant
                r <= rows,
                col@.len() == r,
            decreases rows - r,
        {
            col.push(false);
            r += 1;
        }
        reserved.push(col);
        c += 1;
    }
    let mut cards_out: Vec<CardPos> = Vec::new();
    let mut columns_out: Vec<Vec<Slot>> = Vec::new();
    let mut slot: Vec<(usize, EdgeId, i32, i32)> = Vec::new();
    let mut c: usize = 0;
    while c < cols
        invariant
            c <= cols,
            cols == l.columns@.len(),
            inputs_ok(g, l, ys@, gaps@, heights@),
            n == g.nodes@.len(),
            m == g.edges@.len(),
            attach@.len() == n + m,
            forall|i: int|
                0 <= i < attach@.len() ==> match #[trigger] attach@[i] {
                    Some(p) => p.0 < cols && row_ok(p.1 as int) && p.1 <= height,
                    None => true,
                },
            forall|k: int|
                0 <= k < cards_out@.len() ==> {
                    let cp = #[trigger] cards_out@[k];
                    &&& cp.col < cols
                    &&& row_ok(cp.y as int)
                    &&& cp.y + cp.h <= height
                    &&& cp.h <= MAX_CARD_H
                },
            0 <= height <= MAX_ROWS + MAX_CARD_H,
            forall|x: int, k: int|
                0 <= x < cols && 0 <= k < ys@[x]@.len() ==> #[trigger] ys@[x]@[k] + heights@[cards_of(l.columns@[x]@)[k].0 as int] <= height,
            columns_out@.len() == c,
            forall|v: int| 0 <= v < n ==> #[trigger] attach@[v] == attach_of(first_card(cards_out@, v)),
            reserved@.len() == cols,
            forall|x: int| 0 <= x < cols ==> (#[trigger] reserved@[x])@.len() == height + 1,
            forall|q: int| 0 <= q < cards_out@.len() ==> #[trigger] card_from_rows(l.columns@, ys@, heights@, cards_out@[q]),
        decreases cols - c,
    {
        let col = &l.columns[c];
        let mut placed: usize = 0;
        let mut prev: Option<(i32, i32)> = None;
        let mut pending: Vec<EdgeId> = Vec::new();
        let mut slots: Vec<Slot> = Vec::new();
        let mut j: usize = 0;
        while j < col.len()
            invariant
                j <= col@.len(),
                c < cols,
                cols == l.columns@.len(),
                col == l.columns@[c as int],
                inputs_ok(g, l, ys@, gaps@, heights@),
                n == g.nodes@.len(),
                m == g.edges@.len(),
                attach@.len() == n + m,
                forall|i: int|
                    0 <= i < attach@.len() ==> match #[trigger] attach@[i] {
                        Some(p) => p.0 < cols && row_ok(p.1 as int) && p.1 <= height,
                        None => true,
                    },
                forall|k: int|
                    0 <= k < cards_out@.len() ==> {
                        let cp = #[trigger] cards_out@[k];
                        &&& cp.col < cols
                        &&& row_ok(cp.y as int)
                        &&& cp.y + cp.h <= height
                        &&& cp.h <= MAX_CARD_H
                    },
                0 <= height <= MAX_ROWS + MAX_CARD_H,
                forall|x: int, k: int|
                    0 <= x < cols && 0 <= k < ys@[x]@.len() ==> #[trigger] ys@[x]@[k] + heights@[cards_of(l.columns@[x]@)[k].0 as int] <= height,
                placed == cards_of(col@.take(j as int)).len(),
                pending@.len() <= j,
                placed <= j,
                col@.len() <= MAX_COL,
                prev matches Some(p) ==> 0 <= p.0 <= MAX_ROWS && 0 <= p.1 <= MAX_CARD_H && placed > 0,
                reserved@.len() == cols,
                forall|x: int| 0 <= x < cols ==> (#[trigger] reserved@[x])@.len() == height + 1,
                columns_out@.len() == c,
                forall|v: int| 0 <= v < n ==> #[trigger] attach@[v] == attach_of(first_card(cards_out@, v)),
                forall|q: int| 0 <= q < cards_out@.len() ==> #[trigger] card_from_rows(l.columns@, ys@, heights@, cards_out@[q]),
            decreases col.len() - j,
        {
            proof {
                assert(col@.take(j + 1).drop_last() =~= col@.take(j as int));
                lemma_cards_of_prefix(col@, j as int);
            }
            let node = col[j];
            slots.push(slot_for(node));
            match node {
                LNode::Pass(e) => {
                    pending.push(e);
                },
                LNode::Real(id) => {
                    proof {
                        assert(lnode_ok(g, col@[j as int]));
                        assert(cards_of(col@.take(j + 1)) == cards_of(col@.take(j as int)).push(id));
                        lemma_cards_of_prefix(col@, j + 1);
                        assert(cards_of(col@.take(j + 1))[placed as int] == cards_of(col@)[placed as int]);
                        assert(ys@[c as int]@.len() == cards_of(col@).len());
                    }
                    let y = ys[c][placed];
                    let card_h = heights[id.0 as usize];
                    if let Some((py, ph)) = prev {
                        proof {
                            assert(gaps@[c as int]@.len() == cards_of(col@).len() - 1);
                        }
                        let gap = gaps[c][placed - 1];
                        if gap > SLOT_GAP {
                            // The middle rows of the gap, past both margins.
                            let np = pending.len() as i32;
                            let lo = py + ph + 1 + (gap - 2 - np) / 2;
                            let hi = lo + np - 1;
                            let mut r = lo;
                            while r <= hi
                                invariant
                                    reserved@.len() == cols,
                                    forall|x: int| 0 <= x < cols ==> (#[trigger] reserved@[x])@.len() == height + 1,
                                    c < cols,
                                    hi <= MAX_Y,
                                    lo <= r <= hi + 1,
                                decreases hi - r + 1,
                            {
                                if r >= 0 && (r as usize) < reserved[c].len() {
                                    reserved[c].set(r as usize, true);
                                }
                                r += 1;
                            }
                            let mut q: usize = 0;
                            while q < pending.len()
                                invariant
                                    q <= pending@.len(),
                                decreases pending.len() - q,
                            {
                                slot.push((c, pending[q], lo, hi));
                                q += 1;
                            }
                        }
                    }
                    pending.clear();
                    prev = Some((y, card_h));
                    placed += 1;
                    let mid = y + card_h / 2;
                    let card = CardPos { node: id, col: c, x: 0, y, h: card_h as u16 };
                    let ghost before_cards = cards_out@;
                    let ghost a0 = attach@;
                    // A node has one card; its first is the one the edges attach to.
                    if attach[id.0 as usize].is_none() {
                        attach.set(id.0 as usize, Some((c, mid)));
                    }
                    cards_out.push(card);
                    proof {
                        assert(cards_out@.drop_last() =~= before_cards);
                        assert(card_h as u16 as int == card_h);
                        assert(cards_of(l.columns@[c as int]@)[placed - 1] == id);
                        assert(ys@[c as int]@[placed - 1] == y);
                        assert(placed - 1 < ys@[c as int]@.len());
                        assert(card.h == heights@[id.0 as int]);
                        assert(card.col < l.columns@.len());
                        assert(card_from_rows(l.columns@, ys@, heights@, card));
                        assert forall|q: int| 0 <= q < cards_out@.len() implies #[trigger] card_from_rows(l.columns@, ys@, heights@, cards_out@[q]) by {
                            if q < before_cards.len() {
                                assert(cards_out@[q] == before_cards[q]);
                            }
                        }
                        assert forall|v: int| 0 <= v < n implies #[trigger] attach@[v] == attach_of(first_card(cards_out@, v)) by {
                            assert(a0[v] == attach_of(first_card(before_cards, v)));
                            assert(first_card(cards_out@, v) == match first_card(before_cards, v) {
                                Some(k) => Some(k),
                                None => if card.node.0 == v { Some(card) } else { None },
                            });
                            if v != id.0 as int {
                                assert(attach@[v] == a0[v]);
                            }
                        }
                    }
                },
            }
            j += 1;
        }
        columns_out.push(slots);
        c += 1;
    }
    let mut geo = Geometry { attach, nodes: n, cards: cards_out, columns: columns_out, cards_h: height, reserved, slot };
    pass_rows(g, l, &mut geo);
    geo
}

proof fn lemma_cards_of_prefix(col: Seq<LNode>, j: int)
    requires
        0 <= j <= col.len(),
    ensures
        cards_of(col.take(j)).len() <= cards_of(col).len(),
        forall|k: int| 0 <= k < cards_of(col.take(j)).len() ==> #[trigger] cards_of(col.take(j))[k] == cards_of(col)[k],
    decreases col.len() - j,
{
    if j < col.len() {
        lemma_cards_of_prefix(col, j + 1);
        assert(col.take(j + 1).drop_last() =~= col.take(j));
        let a = cards_of(col.take(j));
        let b = cards_of(col.take(j + 1));
        assert forall|k: int| 0 <= k < a.len() implies #[trigger] a[k] == cards_of(col)[k] by {
            assert(b[k] == a[k]);
        }
    } else {
        assert(col.take(j) =~= col);
    }
}

/// Card `k` of column `c` names a node.
proof fn lemma_card_ok(g: &ViewGraph, l: &Layered, c: int, k: int)
    requires
        l.wf_for(g),
        0 <= c < l.columns@.len(),
        0 <= k < cards_of(l.columns@[c]@).len(),
    ensures
        cards_of(l.columns@[c]@)[k].0 < g.nodes@.len(),
{
    lemma_cards_of_ok(g, l.columns@[c]@);
}

proof fn lemma_cards_of_ok(g: &ViewGraph, col: Seq<LNode>)
    requires
        forall|j: int| 0 <= j < col.len() ==> lnode_ok(g, #[trigger] col[j]),
    ensures
        forall|k: int| 0 <= k < cards_of(col).len() ==> (#[trigger] cards_of(col)[k]).0 < g.nodes@.len(),
    decreases col.len(),
{
    if col.len() > 0 {
        lemma_cards_of_ok(g, col.drop_last());
        assert(lnode_ok(g, col[col.len() - 1]));
        let a = cards_of(col.drop_last());
        assert forall|k: int| 0 <= k < cards_of(col).len() implies (#[trigger] cards_of(col)[k]).0 < g.nodes@.len() by {
            if k < a.len() {
                assert(cards_of(col)[k] == a[k]);
            }
        }
    }
}

/// The tallest column of the cards.
fn tallest_of(cards_in: &Vec<Vec<NodeId>>, gaps: &Vec<Vec<i32>>, heights: &Vec<i32>, l: &Layered) -> (t: i32)
    requires
        cards_view(cards_in@) == cards_spec(l.columns@),
        shape_ok_v(cards_spec(l.columns@), gaps@),
        heights_ok(heights@),
    ensures
        0 <= t <= MAX_ROWS,
        t == crate::layout::place::tallest_spec(cards_in@, gaps@, heights@),
{
    proof {
        crate::layout::place::lemma_cards_exec_pub(l.columns@, cards_in@, gaps@);
    }
    tallest(cards_in, gaps, heights)
}

/// Two edges that may be drawn on one row: they meet at an end.
pub open spec fn one_line(g: &ViewGraph, a: int, b: int) -> bool {
    g.edges@[a].from == g.edges@[b].from || g.edges@[a].to == g.edges@[b].to
}

fn one_line_exec(g: &ViewGraph, a: EdgeId, b: EdgeId) -> (r: bool)
    ensures
        (a.0 as int) < g.edges@.len() && (b.0 as int) < g.edges@.len() ==> r == one_line(g, a.0 as int, b.0 as int),
{
    let (i, j) = (a.0 as usize, b.0 as usize);
    if i >= g.edges.len() || j >= g.edges.len() {
        return false;
    }
    let x = &g.edges[i];
    let y = &g.edges[j];
    x.from == y.from || x.to == y.to
}

/// The row an edge's pass slots want. Staying on the row it left its card on
/// keeps the line where the eye picked it up and puts its one turn at the far
/// end; only when the branches of a fan still share their exit row is the
/// early turn worth it, because then they have to separate before they can be
/// told apart.
pub open spec fn wanted_spec(outs: int, ins: int, src_row: int, dst_row: int) -> int {
    if outs >= 2 && ins == 1 { dst_row } else { src_row }
}

/// The pass row of pass entry `p`, where the geometry holds it.
pub open spec fn pass_row(geo: &Geometry, l: &Layered, p: int) -> int {
    match geo.attach@[geo.nodes + l.passes@[p].0.0] {
        Some(x) => x.1 as int,
        None => -1,
    }
}

/// Pass rows never put two unrelated edges on one row of a column.
pub open spec fn passes_apart(g: &ViewGraph, l: &Layered, geo: &Geometry) -> bool {
    forall|p: int, q: int, i: int, j: int|
        0 <= p < l.passes@.len() && 0 <= q < l.passes@.len() && p != q && 0 <= i < l.passes@[p].1@.len() && 0 <= j
            < l.passes@[q].1@.len() && (#[trigger] l.passes@[p].1@[i]) == (#[trigger] l.passes@[q].1@[j])
            && pass_row(geo, l, p) == pass_row(geo, l, q) ==> one_line(g, l.passes@[p].0.0 as int, l.passes@[q].0.0 as int)
}

/// Whether row `row` is free in every pass column of an edge: clear of card
/// margins, of other edges (of unrelated ones, with `share`) and of rows
/// held open for other edges.
fn free_row(
    g: &ViewGraph,
    e: EdgeId,
    pcols: &Vec<usize>,
    held: &Vec<Option<(i32, i32)>>,
    covered: &Vec<Vec<bool>>,
    taken: &Vec<Vec<Vec<EdgeId>>>,
    reserved: &Vec<Vec<bool>>,
    row: i32,
    share: bool,
) -> (r: bool)
    requires
        held@.len() == pcols@.len(),
        forall|k: int| 0 <= k < pcols@.len() ==> #[trigger] pcols@[k] < covered@.len(),
        covered@.len() == taken@.len(),
        covered@.len() == reserved@.len(),
        e.0 < g.edges@.len(),
        forall|c: int, y: int, x: int|
            0 <= c < taken@.len() && 0 <= y < taken@[c]@.len() && 0 <= x < taken@[c]@[y]@.len() ==> (#[trigger] taken@[c]@[y]@[x]).0
                < g.edges@.len(),
    ensures
        r && share ==> row >= 0 && forall|k: int, x: int|
            0 <= k < pcols@.len() && 0 <= row < taken@[pcols@[k] as int]@.len() && 0 <= x < taken@[pcols@[k] as int]@[row as int]@.len()
                ==> one_line(g, e.0 as int, (#[trigger] taken@[pcols@[k] as int]@[row as int]@[x]).0 as int),
        r ==> row >= 0,
        r && !share ==> forall|k: int|
            0 <= k < pcols@.len() && 0 <= row < taken@[#[trigger] pcols@[k] as int]@.len() ==> taken@[pcols@[k] as int]@[row as int]@.len() == 0,
        (row >= 0 && forall|k: int|
            0 <= k < pcols@.len() ==> row >= covered@[#[trigger] pcols@[k] as int]@.len() && row >= taken@[pcols@[k] as int]@.len()
                && row >= reserved@[pcols@[k] as int]@.len()) ==> r,
{
    if row < 0 {
        return false;
    }
    let at = row as usize;
    let mut k: usize = 0;
    while k < pcols.len()
        invariant
            k <= pcols@.len(),
            at == row,
            row >= 0,
            held@.len() == pcols@.len(),
            forall|k2: int| 0 <= k2 < pcols@.len() ==> #[trigger] pcols@[k2] < covered@.len(),
            covered@.len() == taken@.len(),
            covered@.len() == reserved@.len(),
            e.0 < g.edges@.len(),
            forall|c: int, y: int, x: int|
                0 <= c < taken@.len() && 0 <= y < taken@[c]@.len() && 0 <= x < taken@[c]@[y]@.len() ==> (#[trigger] taken@[c]@[y]@[x]).0
                    < g.edges@.len(),
            share ==> forall|k2: int, x: int|
                0 <= k2 < k && 0 <= row < taken@[pcols@[k2] as int]@.len() && 0 <= x < taken@[pcols@[k2] as int]@[row as int]@.len()
                    ==> one_line(g, e.0 as int, (#[trigger] taken@[pcols@[k2] as int]@[row as int]@[x]).0 as int),
            !share ==> forall|k2: int|
                0 <= k2 < k && 0 <= row < taken@[#[trigger] pcols@[k2] as int]@.len() ==> taken@[pcols@[k2] as int]@[row as int]@.len() == 0,
        decreases pcols.len() - k,
    {
        let col = pcols[k];
        if at < covered[col].len() && covered[col][at] {
            proof {
                if (row >= 0 && forall|k3: int|
                    0 <= k3 < pcols@.len() ==> row >= covered@[#[trigger] pcols@[k3] as int]@.len() && row >= taken@[pcols@[k3] as int]@.len()
                        && row >= reserved@[pcols@[k3] as int]@.len()) {
                    assert(row >= covered@[pcols@[k as int] as int]@.len());
                }
            }
            return false;
        }
        if at < taken[col].len() {
            let here = &taken[col][at];
            let mut x: usize = 0;
            while x < here.len()
                invariant
                    x <= here@.len(),
                    col < taken@.len(),
                    at < taken@[col as int]@.len(),
                    k < pcols@.len(),
                    col == pcols@[k as int],
                    at == row,
                    row >= 0,
                    !share ==> x == 0,
                    here@ == taken@[col as int]@[at as int]@,
                    e.0 < g.edges@.len(),
                    forall|c: int, y: int, x2: int|
                        0 <= c < taken@.len() && 0 <= y < taken@[c]@.len() && 0 <= x2 < taken@[c]@[y]@.len() ==> (#[trigger] taken@[c]@[y]@[x2]).0
                            < g.edges@.len(),
                    share ==> forall|x2: int| 0 <= x2 < x ==> one_line(g, e.0 as int, (#[trigger] here@[x2]).0 as int),
                decreases here.len() - x,
            {
                if !share || !one_line_exec(g, here[x], e) {
                    proof {
                        if (row >= 0 && forall|k3: int|
                            0 <= k3 < pcols@.len() ==> row >= covered@[#[trigger] pcols@[k3] as int]@.len() && row >= taken@[pcols@[k3] as int]@.len()
                                && row >= reserved@[pcols@[k3] as int]@.len()) {
                            assert(row >= taken@[pcols@[k as int] as int]@.len());
                        }
                    }
                    return false;
                }
                proof {
                    assert(taken@[col as int]@[at as int]@[x as int].0 < g.edges@.len());
                }
                x += 1;
            }
        }
        let reserved_here = at < reserved[col].len() && reserved[col][at];
        if reserved_here {
            let held_in = match held[k] {
                Some((lo, hi)) => lo <= row && row <= hi,
                None => false,
            };
            if !held_in {
                proof {
                    if (row >= 0 && forall|k3: int|
                        0 <= k3 < pcols@.len() ==> row >= covered@[#[trigger] pcols@[k3] as int]@.len() && row >= taken@[pcols@[k3] as int]@.len()
                            && row >= reserved@[pcols@[k3] as int]@.len()) {
                        assert(row >= reserved@[pcols@[k as int] as int]@.len());
                    }
                }
                return false;
            }
        }
        k += 1;
    }
    true
}

/// The first of `slot` from `i` on held open for edge `e` in column `c`.
pub open spec fn held_from(slot: Seq<(usize, EdgeId, i32, i32)>, c: usize, e: EdgeId, i: nat) -> Option<(i32, i32)>
    decreases slot.len() - i,
{
    if i >= slot.len() {
        None
    } else if slot[i as int].0 == c && slot[i as int].1.0 == e.0 {
        Some((slot[i as int].2, slot[i as int].3))
    } else {
        held_from(slot, c, e, i + 1)
    }
}

/// `(lo, hi)` held open for edge `e`'s slot in column `c`, if any.
fn held_for(slot: &Vec<(usize, EdgeId, i32, i32)>, c: usize, e: EdgeId) -> (r: Option<(i32, i32)>)
    ensures
        r == held_from(slot@, c, e, 0),
{
    let mut i: usize = 0;
    while i < slot.len()
        invariant
            i <= slot@.len(),
            held_from(slot@, c, e, 0) == held_from(slot@, c, e, i as nat),
        decreases slot.len() - i,
    {
        let (sc, se, lo, hi) = slot[i];
        if sc == c && se.0 == e.0 {
            return Some((lo, hi));
        }
        i += 1;
    }
    None
}

/// Rows between `lo` and `hi` cost nothing; past them, one per row.
pub open spec fn detour_spec(lo: int, hi: int, r: int) -> int {
    (if lo - r > 0 { lo - r } else { 0 }) + (if r - hi > 0 { r - hi } else { 0 })
}

/// `(a0, a1, a2, a3, a4) < (b0, b1, b2, b3, b4)`, `false` before `true`.
pub open spec fn key_lt_spec(a: (i32, bool, bool, i32, i32), b: (i32, bool, bool, i32, i32)) -> bool {
    if a.0 != b.0 {
        a.0 < b.0
    } else if a.1 != b.1 {
        !a.1
    } else if a.2 != b.2 {
        !a.2
    } else if a.3 != b.3 {
        a.3 < b.3
    } else {
        a.4 < b.4
    }
}

/// `(a0, a1, a2, a3, a4) < (b0, b1, b2, b3, b4)`.
fn key_lt(a: (i32, bool, bool, i32, i32), b: (i32, bool, bool, i32, i32)) -> (r: bool)
    ensures
        r == key_lt_spec(a, b),
{
    if a.0 != b.0 {
        return a.0 < b.0;
    }
    if a.1 != b.1 {
        return !a.1;
    }
    if a.2 != b.2 {
        return !a.2;
    }
    if a.3 != b.3 {
        return a.3 < b.3;
    }
    a.4 < b.4
}

/// The taken rows: every pair of edges on one row of a column is one line,
/// and every edge on a row names an edge of the graph.
pub open spec fn taken_ok(g: &ViewGraph, taken: Seq<Vec<Vec<EdgeId>>>) -> bool {
    &&& forall|c: int, y: int, x: int|
        0 <= c < taken.len() && 0 <= y < taken[c]@.len() && 0 <= x < taken[c]@[y]@.len() ==> (#[trigger] taken[c]@[y]@[x]).0
            < g.edges@.len()
    &&& forall|c: int, y: int, x: int, z: int|
        0 <= c < taken.len() && 0 <= y < taken[c]@.len() && 0 <= x < taken[c]@[y]@.len() && 0 <= z < taken[c]@[y]@.len()
            && x != z ==> one_line(g, (#[trigger] taken[c]@[y]@[x]).0 as int, (#[trigger] taken[c]@[y]@[z]).0 as int)
}

/// The row for one pass edge: the wanted row when it is free of everything
/// in every pass column; otherwise, over the rows down to two past the
/// cards, the free row (one shared only with related edges) that adds the
/// least detour, then a row of its own, then a row held open for it, then the
/// nearest the wanted row, then the highest.
fn choose_row(
    g: &ViewGraph,
    e: EdgeId,
    pcols: &Vec<usize>,
    held: &Vec<Option<(i32, i32)>>,
    covered: &Vec<Vec<bool>>,
    taken: &Vec<Vec<Vec<EdgeId>>>,
    reserved: &Vec<Vec<bool>>,
    want: i32,
    src_row: i32,
    dst_row: i32,
    cards_h: i32,
) -> (row: i32)
    requires
        held@.len() == pcols@.len(),
        forall|k: int| 0 <= k < pcols@.len() ==> #[trigger] pcols@[k] < covered@.len(),
        covered@.len() == taken@.len(),
        covered@.len() == reserved@.len(),
        e.0 < g.edges@.len(),
        taken_ok(g, taken@),
        forall|x: int| 0 <= x < covered@.len() ==> (#[trigger] covered@[x])@.len() <= cards_h + 1,
        forall|x: int| 0 <= x < covered@.len() ==> (#[trigger] reserved@[x])@.len() <= cards_h + 1,
        forall|x: int| 0 <= x < covered@.len() ==> (#[trigger] taken@[x])@.len() <= cards_h,
        0 <= want <= cards_h,
        0 <= src_row <= cards_h,
        0 <= dst_row <= cards_h,
        0 <= cards_h <= MAX_Y,
    ensures
        0 <= row <= cards_h + 2,
        forall|k: int, x: int|
            0 <= k < pcols@.len() && row < taken@[pcols@[k] as int]@.len() && 0 <= x < taken@[pcols@[k] as int]@[row as int]@.len()
                ==> one_line(g, e.0 as int, (#[trigger] taken@[pcols@[k] as int]@[row as int]@[x]).0 as int),
{
    if free_row(g, e, pcols, held, covered, taken, reserved, want, false) {
        return want;
    }
    let lo = if src_row < dst_row { src_row } else { dst_row };
    let hi = if src_row < dst_row { dst_row } else { src_row };
    let mut best: Option<((i32, bool, bool, i32, i32), i32)> = None;
    let last = cards_h + 2;
    let mut r: i32 = 0;
    while r <= last
        invariant
            0 <= r <= last + 1,
            last == cards_h + 2,
            0 <= cards_h <= MAX_Y,
            0 <= lo <= cards_h,
            0 <= hi <= cards_h,
            0 <= want <= cards_h,
            held@.len() == pcols@.len(),
            forall|k2: int| 0 <= k2 < pcols@.len() ==> #[trigger] pcols@[k2] < covered@.len(),
            covered@.len() == taken@.len(),
            covered@.len() == reserved@.len(),
            e.0 < g.edges@.len(),
            taken_ok(g, taken@),
            forall|x: int| 0 <= x < covered@.len() ==> (#[trigger] covered@[x])@.len() <= cards_h + 1,
            forall|x: int| 0 <= x < covered@.len() ==> (#[trigger] reserved@[x])@.len() <= cards_h + 1,
            forall|x: int| 0 <= x < covered@.len() ==> (#[trigger] taken@[x])@.len() <= cards_h,
            best matches Some(b) ==> 0 <= b.1 <= last && (forall|k2: int, x: int|
                0 <= k2 < pcols@.len() && b.1 < taken@[pcols@[k2] as int]@.len() && 0 <= x < taken@[pcols@[k2] as int]@[b.1 as int]@.len()
                    ==> one_line(g, e.0 as int, (#[trigger] taken@[pcols@[k2] as int]@[b.1 as int]@[x]).0 as int)),
            r > cards_h + 1 ==> best is Some,
        decreases last + 1 - r,
    {
        proof {
            if r == cards_h + 1 {
                assert forall|k2: int| 0 <= k2 < pcols@.len() implies r >= covered@[#[trigger] pcols@[k2] as int]@.len() && r >= taken@[pcols@[k2] as int]@.len()
                    && r >= reserved@[pcols@[k2] as int]@.len() by {}
            }
        }
        if free_row(g, e, pcols, held, covered, taken, reserved, r, true) {
            let d = (if lo - r > 0 { lo - r } else { 0 }) + (if r - hi > 0 { r - hi } else { 0 });
            let shared = !free_row(g, e, pcols, held, covered, taken, reserved, r, false);
            let mut is_held = false;
            let mut k: usize = 0;
            while k < held.len()
                invariant
                    k <= held@.len(),
                decreases held.len() - k,
            {
                if let Some((a, b)) = held[k] {
                    if a <= r && r <= b {
                        is_held = true;
                    }
                }
                k += 1;
            }
            let dist = if r >= want { r - want } else { want - r };
            let key = (d, shared, !is_held, dist, r);
            let better = match best {
                None => true,
                Some((bk, _)) => key_lt(key, bk),
            };
            if better {
                best = Some((key, r));
            }
        }
        r += 1;
    }
    match best {
        Some((_, r)) => r,
        None => want,
    }
}

/// Give every pass slot a row, one row per edge across all the columns it
/// passes so a long edge runs straight. The row wanted is `wanted`. It must
/// be free in every pass column, otherwise the free row nearest the wanted
/// one, a row held open for this edge's slot between two stacked cards
/// before any other. A row is free in a column when no card there covers it
/// or the row beside it, no pass of an unrelated edge (another source and
/// another target) in that column has it, and it is not held open for other
/// edges. Related edges may share a row: the shared run is their fork or
/// join.
pub fn pass_rows(g: &ViewGraph, l: &Layered, geo: &mut Geometry)
    requires
        small(g),
        l.wf_for(g),
        old(geo).wf_for(g, l.columns@.len() as int),
        old(geo).cards_h <= MAX_ROWS + MAX_CARD_H,
        forall|c: int| 0 <= c < old(geo).reserved@.len() ==> (#[trigger] old(geo).reserved@[c])@.len() == old(geo).cards_h + 1,
    ensures
        final(geo).wf_for(g, l.columns@.len() as int),
        final(geo).nodes == old(geo).nodes,
        final(geo).cards == old(geo).cards,
        final(geo).columns == old(geo).columns,
        final(geo).slot == old(geo).slot,
        final(geo).cards_h <= MAX_ROWS + MAX_CARD_H + 3 * l.passes@.len(),
        passes_apart(g, l, &*final(geo)),
        forall|v: int| 0 <= v < old(geo).nodes ==> #[trigger] final(geo).attach@[v] == old(geo).attach@[v],
{
    let cols = l.columns.len();
    let h0 = geo.cards_h;
    // Rows a card covers, margins included, per column and row.
    let mut covered: Vec<Vec<bool>> = Vec::new();
    let mut c: usize = 0;
    while c < cols
        invariant
            c <= cols,
            covered@.len() == c,
            forall|x: int| 0 <= x < c ==> (#[trigger] covered@[x])@.len() == h0 + 1,
            0 <= h0 <= MAX_ROWS + MAX_CARD_H,
        decreases cols - c,
    {
        let mut col: Vec<bool> = Vec::new();
        let mut r: i32 = 0;
        while r <= h0
            invariant
                0 <= r <= h0 + 1,
                col@.len() == r,
                0 <= h0 <= MAX_ROWS + MAX_CARD_H,
            decreases h0 + 1 - r,
        {
            col.push(false);
            r += 1;
        }
        covered.push(col);
        c += 1;
    }
    let mut k: usize = 0;
    while k < geo.cards.len()
        invariant
            k <= geo.cards@.len(),
            geo.wf_for(g, cols as int),
            cols == l.columns@.len(),
            covered@.len() == cols,
            forall|x: int| 0 <= x < cols ==> (#[trigger] covered@[x])@.len() == h0 + 1,
        decreases geo.cards.len() - k,
    {
        let card = geo.cards[k];
        let top = if card.y >= 1 { card.y - 1 } else { 0 };
        let bottom = card.y + card.h as i32;
        let mut r = top;
        while r <= bottom
            invariant
                top <= r <= bottom + 1,
                bottom <= MAX_Y + MAX_CARD_H,
                card.col < cols,
                covered@.len() == cols,
                forall|x: int| 0 <= x < cols ==> (#[trigger] covered@[x])@.len() == h0 + 1,
            decreases bottom + 1 - r,
        {
            if r >= 0 && (r as usize) < covered[card.col].len() {
                covered[card.col].set(r as usize, true);
            }
            r += 1;
        }
        k += 1;
    }
    // Edges on each pass row given out so far, per column and row.
    let mut taken: Vec<Vec<Vec<EdgeId>>> = Vec::new();
    let mut c: usize = 0;
    while c < cols
        invariant
            c <= cols,
            taken@.len() == c,
            forall|x: int| 0 <= x < c ==> (#[trigger] taken@[x])@.len() == 0,
        decreases cols - c,
    {
        taken.push(Vec::new());
        c += 1;
    }
    let nodes = geo.nodes;
    let mut attach = copy_attach(&geo.attach);
    let mut cards_h = geo.cards_h;
    let ghost rows_g: Seq<int> = Seq::empty();
    let mut p: usize = 0;
    while p < l.passes.len()
        invariant
            p <= l.passes@.len(),
            small(g),
            l.wf_for(g),
            cols == l.columns@.len(),
            nodes == g.nodes@.len(),
            attach@.len() == g.nodes@.len() + g.edges@.len(),
            forall|i: int|
                0 <= i < attach@.len() ==> match #[trigger] attach@[i] {
                    Some(x) => x.0 < cols && row_ok(x.1 as int) && x.1 <= cards_h,
                    None => true,
                },
            h0 <= cards_h,
            cards_h <= MAX_ROWS + MAX_CARD_H + 3 * p,
            0 <= h0 <= MAX_ROWS + MAX_CARD_H,
            covered@.len() == cols,
            forall|x: int| 0 <= x < cols ==> (#[trigger] covered@[x])@.len() == h0 + 1,
            geo.reserved@.len() == cols,
            forall|x: int| 0 <= x < cols ==> (#[trigger] geo.reserved@[x])@.len() == h0 + 1,
            taken@.len() == cols,
            forall|x: int| 0 <= x < cols ==> (#[trigger] taken@[x])@.len() <= cards_h,
            taken_ok(g, taken@),
            rows_g.len() == p,
            nodes == old(geo).nodes,
            forall|v: int| 0 <= v < nodes ==> #[trigger] attach@[v] == old(geo).attach@[v],
            forall|q: int| 0 <= q < p ==> 0 <= #[trigger] rows_g[q] < cards_h,
            forall|q: int| 0 <= q < p && l.passes@[q].1@.len() > 0 ==> #[trigger] attach@[nodes + l.passes@[q].0.0] == Some(
                (l.passes@[q].1@[l.passes@[q].1@.len() - 1], rows_g[q] as i32),
            ),
            forall|q: int, i: int|
                0 <= q < p && 0 <= i < l.passes@[q].1@.len() ==> rows_g[q] < taken@[(#[trigger] l.passes@[q].1@[i]) as int]@.len()
                    && taken@[l.passes@[q].1@[i] as int]@[rows_g[q]]@.contains(l.passes@[q].0),
        decreases l.passes.len() - p,
    {
        let e = l.passes[p].0;
        let pcols = &l.passes[p].1;
        let edge = &g.edges[e.0 as usize];
        let src_row = row_at(&attach, edge.from.0 as usize);
        let dst_row = row_at(&attach, edge.to.0 as usize);
        let outs = l.out_deg[edge.from.0 as usize];
        let ins = l.in_deg[edge.to.0 as usize];
        let want = if outs >= 2 && ins == 1 { dst_row } else { src_row };
        // The rows held open for this edge's slot, per pass column.
        let mut held: Vec<Option<(i32, i32)>> = Vec::new();
        let mut k: usize = 0;
        while k < pcols.len()
            invariant
                k <= pcols@.len(),
                held@.len() == k,
            decreases pcols.len() - k,
        {
            held.push(held_for(&geo.slot, pcols[k], e));
            k += 1;
        }
        let row = choose_row(g, e, pcols, &held, &covered, &taken, &geo.reserved, want, src_row, dst_row, cards_h);
        let ghost taken0 = taken@;
        proof {
            assert(p < MAX_EDGES);
        }
        let mut k: usize = 0;
        while k < pcols.len()
            invariant
                k <= pcols@.len(),
                0 <= row <= cards_h + 2,
                cards_h <= MAX_ROWS + MAX_CARD_H + 3 * MAX_EDGES,
                e.0 < g.edges@.len(),
                e == l.passes@[p as int].0,
                pcols == l.passes@[p as int].1,
                p < l.passes@.len(),
                l.wf_for(g),
                cols == l.columns@.len(),
                taken@.len() == cols,
                taken_ok(g, taken@),
                forall|x: int| 0 <= x < cols ==> (#[trigger] taken@[x])@.len() <= if row + 1 > cards_h { row + 1 } else { cards_h as int },
                forall|q: int| 0 <= q < p ==> 0 <= #[trigger] rows_g[q] < cards_h,
                forall|k2: int, x: int|
                    0 <= k2 < pcols@.len() && row < taken@[pcols@[k2] as int]@.len() && 0 <= x < taken@[pcols@[k2] as int]@[row as int]@.len()
                        ==> one_line(g, e.0 as int, (#[trigger] taken@[pcols@[k2] as int]@[row as int]@[x]).0 as int),
                forall|i: int| 0 <= i < k ==> row < taken@[(#[trigger] pcols@[i]) as int]@.len() && taken@[pcols@[i] as int]@[row as int]@.contains(e),
                forall|q: int, i: int|
                    0 <= q < p && 0 <= i < l.passes@[q].1@.len() ==> rows_g[q] < taken@[(#[trigger] l.passes@[q].1@[i]) as int]@.len()
                        && taken@[l.passes@[q].1@[i] as int]@[rows_g[q]]@.contains(l.passes@[q].0),
            decreases pcols.len() - k,
        {
            let col = pcols[k];
            proof {
                assert(l.passes@[p as int].1@[k as int] < l.columns@.len());
            }
            let at = row as usize;
            let ghost before = taken@;
            while taken[col].len() <= at
                invariant
                    col < taken@.len(),
                    taken@.len() == cols,
                    at <= cards_h + 2,
                    taken_ok(g, taken@),
                    forall|x: int| 0 <= x < cols ==> (#[trigger] taken@[x])@.len() <= if row + 1 > cards_h { row + 1 } else { cards_h as int },
                    row == at,
                    forall|x: int| 0 <= x < cols && x != col ==> #[trigger] taken@[x] == before[x],
                    taken@[col as int]@.len() >= before[col as int]@.len(),
                    forall|y: int| 0 <= y < before[col as int]@.len() ==> #[trigger] taken@[col as int]@[y] == before[col as int]@[y],
                    forall|y: int| before[col as int]@.len() <= y < taken@[col as int]@.len() ==> (#[trigger] taken@[col as int]@[y])@.len() == 0,
                decreases at + 1 - taken@[col as int]@.len(),
            {
                taken[col].push(Vec::new());
            }
            let ghost mid = taken@;
            taken[col][at].push(e);
            proof {
                assert(taken@[col as int]@[at as int]@ == mid[col as int]@[at as int]@.push(e));
                assert(grows(before, taken@)) by {
                    assert forall|c2: int| 0 <= c2 < before.len() implies (#[trigger] taken@[c2])@.len() >= before[c2]@.len() && forall|y: int, x: int|
                        0 <= y < before[c2]@.len() && 0 <= x < before[c2]@[y]@.len() ==> x < taken@[c2]@[y]@.len() && #[trigger] taken@[c2]@[y]@[x]
                            == before[c2]@[y]@[x] by {
                        if c2 == col {
                            assert forall|y: int, x: int| 0 <= y < before[c2]@.len() && 0 <= x < before[c2]@[y]@.len() implies x < taken@[c2]@[y]@.len() && #[trigger] taken@[c2]@[y]@[x]
                                == before[c2]@[y]@[x] by {
                                assert(mid[c2]@[y] == before[c2]@[y]);
                                if y != at {
                                    assert(taken@[c2]@[y] == mid[c2]@[y]);
                                }
                            }
                        } else {
                            assert(taken@[c2] == mid[c2]);
                            assert(mid[c2] == before[c2]);
                        }
                    }
                }
                // The row this edge joins holds only edges it is one line with.
                assert forall|x: int| 0 <= x < taken@[col as int]@[at as int]@.len() implies one_line(g, e.0 as int, (#[trigger] taken@[col as int]@[at as int]@[x]).0 as int) by {
                    if x < mid[col as int]@[at as int]@.len() {
                        assert(taken@[col as int]@[at as int]@[x] == mid[col as int]@[at as int]@[x]);
                        if at < before[col as int]@.len() {
                            assert(mid[col as int]@[at as int] == before[col as int]@[at as int]);
                            assert(pcols@[k as int] == col);
                        } else {
                            assert(mid[col as int]@[at as int]@.len() == 0);
                        }
                    }
                }
                assert(taken_ok(g, taken@)) by {
                    assert forall|c2: int, y: int, x: int|
                        0 <= c2 < taken@.len() && 0 <= y < taken@[c2]@.len() && 0 <= x < taken@[c2]@[y]@.len() implies (#[trigger] taken@[c2]@[y]@[x]).0
                            < g.edges@.len() by {
                        if c2 == col && y == at {
                            if x < mid[col as int]@[at as int]@.len() {
                                assert(taken@[c2]@[y]@[x] == mid[c2]@[y]@[x]);
                            }
                        } else {
                            assert(taken@[c2]@[y] == mid[c2]@[y]);
                        }
                    }
                    assert forall|c2: int, y: int, x: int, z: int|
                        0 <= c2 < taken@.len() && 0 <= y < taken@[c2]@.len() && 0 <= x < taken@[c2]@[y]@.len() && 0 <= z < taken@[c2]@[y]@.len()
                            && x != z implies one_line(g, (#[trigger] taken@[c2]@[y]@[x]).0 as int, (#[trigger] taken@[c2]@[y]@[z]).0 as int) by {
                        if c2 == col && y == at {
                            let n0 = mid[col as int]@[at as int]@.len();
                            if x < n0 && z < n0 {
                                assert(taken@[c2]@[y]@[x] == mid[c2]@[y]@[x]);
                                assert(taken@[c2]@[y]@[z] == mid[c2]@[y]@[z]);
                            } else if x < n0 {
                                assert(one_line(g, e.0 as int, taken@[c2]@[y]@[x].0 as int));
                            } else if z < n0 {
                                assert(one_line(g, e.0 as int, taken@[c2]@[y]@[z].0 as int));
                            }
                        } else {
                            assert(taken@[c2]@[y] == mid[c2]@[y]);
                        }
                    }
                }
                assert forall|k2: int, x: int|
                    0 <= k2 < pcols@.len() && row < taken@[pcols@[k2] as int]@.len() && 0 <= x < taken@[pcols@[k2] as int]@[row as int]@.len()
                        implies one_line(g, e.0 as int, (#[trigger] taken@[pcols@[k2] as int]@[row as int]@[x]).0 as int) by {
                    let c2 = pcols@[k2] as int;
                    if c2 != col {
                        assert(taken@[c2] == mid[c2]);
                        assert(mid[c2] == before[c2]);
                    }
                }
                assert forall|i: int| 0 <= i < k + 1 implies row < taken@[(#[trigger] pcols@[i]) as int]@.len() && taken@[pcols@[i] as int]@[row as int]@.contains(e) by {
                    if i == k {
                        let n0 = mid[col as int]@[at as int]@.len();
                        assert(taken@[col as int]@[at as int]@[n0 as int] == e);
                    } else {
                        lemma_grows_contains(before, taken@, pcols@[i] as int, row as int, e);
                    }
                }
                assert forall|q: int, i: int|
                    0 <= q < p && 0 <= i < l.passes@[q].1@.len() implies rows_g[q] < taken@[(#[trigger] l.passes@[q].1@[i]) as int]@.len()
                        && taken@[l.passes@[q].1@[i] as int]@[rows_g[q]]@.contains(l.passes@[q].0) by {
                    lemma_grows_contains(before, taken@, l.passes@[q].1@[i] as int, rows_g[q], l.passes@[q].0);
                }
            }
            k += 1;
        }
        if pcols.len() > 0 {
            attach.set(nodes + e.0 as usize, Some((pcols[pcols.len() - 1], row)));
        }
        if row + 1 > cards_h {
            cards_h = row + 1;
        }
        proof {
            rows_g = rows_g.push(row as int);
        }
        p += 1;
    }
    geo.attach = attach;
    geo.cards_h = cards_h;
}

/// Every row of `after` starts with what the same row of `before` held.
pub open spec fn grows(before: Seq<Vec<Vec<EdgeId>>>, after: Seq<Vec<Vec<EdgeId>>>) -> bool {
    &&& after.len() == before.len()
    &&& forall|c: int|
        0 <= c < before.len() ==> (#[trigger] after[c])@.len() >= before[c]@.len() && forall|y: int, x: int|
            0 <= y < before[c]@.len() && 0 <= x < before[c]@[y]@.len() ==> x < after[c]@[y]@.len() && #[trigger] after[c]@[y]@[x]
                == before[c]@[y]@[x]
}

proof fn lemma_grows_contains(before: Seq<Vec<Vec<EdgeId>>>, after: Seq<Vec<Vec<EdgeId>>>, c: int, y: int, e: EdgeId)
    requires
        grows(before, after),
        0 <= c < before.len(),
        0 <= y < before[c]@.len(),
        before[c]@[y]@.contains(e),
    ensures
        y < after[c]@.len(),
        after[c]@[y]@.contains(e),
{
    let x = choose|x: int| 0 <= x < before[c]@[y]@.len() && before[c]@[y]@[x] == e;
    assert(after[c]@[y]@[x] == before[c]@[y]@[x]);
}

fn copy_attach(v: &Vec<Option<(usize, i32)>>) -> (out: Vec<Option<(usize, i32)>>)
    ensures
        out@ == v@,
{
    let mut out: Vec<Option<(usize, i32)>> = Vec::new();
    let mut i: usize = 0;
    while i < v.len()
        invariant
            i <= v@.len(),
            out@ == v@.take(i as int),
        decreases v.len() - i,
    {
        out.push(v[i]);
        proof {
            assert(out@ =~= v@.take(i + 1));
        }
        i += 1;
    }
    proof {
        assert(v@.take(i as int) =~= v@);
    }
    out
}

/// The row the entry at `i` attaches on, `0` when none.
fn row_at(attach: &Vec<Option<(usize, i32)>>, i: usize) -> (r: i32)
    ensures
        i < attach@.len() && attach@[i as int] is Some ==> Some(r) == match attach@[i as int] {
            Some(x) => Some(x.1),
            None => None,
        },
        !(i < attach@.len() && attach@[i as int] is Some) ==> r == 0,
{
    if i < attach.len() {
        match attach[i] {
            Some((_, y)) => y,
            None => 0,
        }
    } else {
        0
    }
}

/// Pseudo node keys so back-edge verticals never share a track with forward
/// runs: a lane vertical passing through a join would read as part of it.
pub const LANE_OUT: u32 = 4294967294;
pub const LANE_IN: u32 = 4294967293;

/// Left margin when a back edge targets column 0.
pub const BACK_MARGIN: i32 = 3;

/// Most rows the cards and pass rows reach.
pub const MAX_CARDS_H: i32 = 134238208;

fn lt_source(a: (usize, u32), b: (usize, u32)) -> (r: bool)
    ensures
        r == (a.0 < b.0 || (a.0 == b.0 && a.1 < b.1)),
{
    a.0 < b.0 || (a.0 == b.0 && a.1 < b.1)
}

/// Some entry names source `v`.
pub open spec fn has_src(sources: Seq<(usize, u32)>, v: u32) -> bool {
    exists|i: int| 0 <= i < sources.len() && sources[i].1 == v
}

/// The lane of a back edge's source.
pub open spec fn lane_of(lane: Seq<(NodeId, i32)>, v: NodeId) -> Option<i32>
    decreases lane.len(),
{
    if lane.len() == 0 {
        None
    } else if lane.last().0 == v {
        Some(lane.last().1)
    } else {
        lane_of(lane.drop_last(), v)
    }
}

/// One lane row per back-edge source, below the cards; shortest hops
/// nearest the cards.
pub fn lanes(g: &ViewGraph, r: &Ranked, cards_h: i32) -> (lane: Vec<(NodeId, i32)>)
    requires
        small(g),
        r.wf_for(g),
        0 <= cards_h <= MAX_CARDS_H,
    ensures
        lane@.len() <= g.edges@.len(),
        forall|i: int| 0 <= i < lane@.len() ==> cards_h <= (#[trigger] lane@[i]).1 < cards_h + g.edges@.len(),
        forall|i: int, j: int| 0 <= i < j < lane@.len() ==> (#[trigger] lane@[i]).0 != (#[trigger] lane@[j]).0,
        forall|k: int| 0 <= k < g.edges@.len() && r.back@[k] ==> lane_of(lane@, (#[trigger] g.edges@[k]).from) is Some,
        forall|v: NodeId| #[trigger] lane_of(lane@, v) matches Some(y) ==> cards_h <= y < cards_h + g.edges@.len(),
{
    let mut sources: Vec<(usize, u32)> = Vec::new();
    let mut k: usize = 0;
    while k < g.edges.len()
        invariant
            k <= g.edges@.len(),
            small(g),
            r.wf_for(g),
            sources@.len() <= k,
            forall|x: int| 0 <= x < k && r.back@[x] ==> has_src(sources@, (#[trigger] g.edges@[x]).from.0),
        decreases g.edges.len() - k,
    {
        if r.back[k] {
            let e = &g.edges[k];
            let a = r.rank[e.from.0 as usize];
            let b = r.rank[e.to.0 as usize];
            let d = if a >= b { a - b } else { b - a };
            let x = (d, e.from.0);
            let mut pos: usize = sources.len();
            while pos > 0 && lt_source(x, sources[pos - 1])
                invariant
                    pos <= sources@.len(),
                decreases pos,
            {
                pos -= 1;
            }
            let ghost s0 = sources@;
            sources.insert(pos, x);
            proof {
                assert(sources@[pos as int].1 == g.edges@[k as int].from.0);
                assert forall|y: int| 0 <= y < k + 1 && r.back@[y] implies has_src(sources@, (#[trigger] g.edges@[y]).from.0) by {
                    if y < k {
                        assert(has_src(s0, g.edges@[y].from.0));
                        let i = choose|i: int| 0 <= i < s0.len() && s0[i].1 == g.edges@[y].from.0;
                        let i2 = if i < pos { i } else { i + 1 };
                        assert(sources@[i2] == s0[i]);
                    } else {
                        assert(sources@[pos as int].1 == g.edges@[y].from.0);
                    }
                }
            }
        }
        k += 1;
    }
    // Consecutive entries with one source go; what is left is numbered, a
    // later row for a source replacing an earlier one.
    let mut lane: Vec<(NodeId, i32)> = Vec::new();
    let mut i: usize = 0;
    let mut kept: usize = 0;
    let mut prev: Option<u32> = None;
    while i < sources.len()
        invariant
            i <= sources@.len(),
            sources@.len() <= g.edges@.len(),
            g.edges@.len() <= MAX_EDGES,
            0 <= cards_h <= MAX_CARDS_H,
            kept <= i,
            lane@.len() <= kept,
            forall|j: int| 0 <= j < lane@.len() ==> cards_h <= (#[trigger] lane@[j]).1 < cards_h + kept,
            forall|a: int, b: int| 0 <= a < b < lane@.len() ==> (#[trigger] lane@[a]).0 != (#[trigger] lane@[b]).0,
            forall|j: int| 0 <= j < i ==> lane_of(lane@, NodeId(#[trigger] sources@[j].1)) is Some,
            forall|v: NodeId| #[trigger] lane_of(lane@, v) matches Some(y) ==> cards_h <= y < cards_h + kept,
            i > 0 ==> prev == Some(sources@[i - 1].1),
            i == 0 ==> prev is None,
        decreases sources.len() - i,
    {
        let src = sources[i].1;
        let dup = match prev {
            Some(p) => p == src,
            None => false,
        };
        if !dup {
            let row = cards_h + kept as i32;
            let id = NodeId(src);
            let mut at: Option<usize> = None;
            let mut q: usize = 0;
            while q < lane.len()
                invariant
                    q <= lane@.len(),
                    at matches Some(x) ==> x < lane@.len() && lane@[x as int].0 == id,
                    at is None ==> forall|j: int| 0 <= j < q ==> (#[trigger] lane@[j]).0 != id,
                decreases lane.len() - q,
            {
                if lane[q].0 == id {
                    at = Some(q);
                }
                q += 1;
            }
            let ghost l0 = lane@;
            match at {
                Some(x) => {
                    lane.set(x, (id, row));
                },
                None => {
                    lane.push((id, row));
                },
            }
            proof {
                lemma_lane_update(l0, lane@, id, row, at);
                assert forall|j: int| 0 <= j < i + 1 implies lane_of(lane@, NodeId(#[trigger] sources@[j].1)) is Some by {
                    let v = NodeId(sources@[j].1);
                    if v != id {
                        assert(lane_of(lane@, v) == lane_of(l0, v));
                    }
                }
                assert forall|v: NodeId| #[trigger] lane_of(lane@, v) is Some implies cards_h <= lane_of(lane@, v)->0 < cards_h + kept + 1 by {
                    if v != id {
                        assert(lane_of(lane@, v) == lane_of(l0, v));
                    }
                }
                assert forall|j: int| 0 <= j < lane@.len() implies cards_h <= (#[trigger] lane@[j]).1 < cards_h + kept + 1 by {
                    if lane@[j].1 != row {
                        let k2 = choose|k2: int| 0 <= k2 < l0.len() && l0[k2] == lane@[j];
                    }
                }
            }
            kept += 1;
        } else {
            proof {
                assert(i > 0);
                assert(sources@[i as int].1 == sources@[i - 1].1);
                assert forall|j: int| 0 <= j < i + 1 implies lane_of(lane@, NodeId(#[trigger] sources@[j].1)) is Some by {
                    if j == i {
                        assert(lane_of(lane@, NodeId(sources@[i - 1].1)) is Some);
                    }
                }
            }
        }
        prev = Some(src);
        i += 1;
    }
    proof {
        assert forall|k: int| 0 <= k < g.edges@.len() && r.back@[k] implies lane_of(lane@, (#[trigger] g.edges@[k]).from) is Some by {
            assert(has_src(sources@, g.edges@[k].from.0));
            let j = choose|j: int| 0 <= j < sources@.len() && sources@[j].1 == g.edges@[k].from.0;
            assert(lane_of(lane@, NodeId(sources@[j].1)) is Some);
            assert(NodeId(sources@[j].1) == g.edges@[k].from);
        }
    }
    lane
}

proof fn lemma_lane_of_in(lane: Seq<(NodeId, i32)>, v: NodeId)
    ensures
        lane_of(lane, v) matches Some(y) ==> exists|i: int| 0 <= i < lane.len() && lane[i] == (v, y),
        lane_of(lane, v) is None ==> forall|i: int| 0 <= i < lane.len() ==> (#[trigger] lane[i]).0 != v,
    decreases lane.len(),
{
    if lane.len() > 0 {
        lemma_lane_of_in(lane.drop_last(), v);
        if lane.last().0 != v {
            if let Some(y) = lane_of(lane, v) {
                let i = choose|i: int| 0 <= i < lane.drop_last().len() && lane.drop_last()[i] == (v, y);
                assert(lane[i] == (v, y));
            } else {
                assert forall|i: int| 0 <= i < lane.len() implies (#[trigger] lane[i]).0 != v by {
                    if i < lane.len() - 1 {
                        assert(lane.drop_last()[i] == lane[i]);
                    }
                }
            }
        } else {
            assert(lane[lane.len() - 1] == (v, lane.last().1));
        }
    }
}

proof fn lemma_lane_of_distinct(lane: Seq<(NodeId, i32)>, i: int)
    requires
        0 <= i < lane.len(),
        forall|a: int, b: int| 0 <= a < b < lane.len() ==> (#[trigger] lane[a]).0 != (#[trigger] lane[b]).0,
    ensures
        lane_of(lane, lane[i].0) == Some(lane[i].1),
    decreases lane.len(),
{
    if i < lane.len() - 1 {
        lemma_lane_of_distinct(lane.drop_last(), i);
        assert(lane.drop_last()[i] == lane[i]);
    }
}

proof fn lemma_lane_update(l0: Seq<(NodeId, i32)>, l1: Seq<(NodeId, i32)>, id: NodeId, row: i32, at: Option<usize>)
    requires
        forall|a: int, b: int| 0 <= a < b < l0.len() ==> (#[trigger] l0[a]).0 != (#[trigger] l0[b]).0,
        match at {
            Some(x) => x < l0.len() && l0[x as int].0 == id && l1 == l0.update(x as int, (id, row)),
            None => (forall|j: int| 0 <= j < l0.len() ==> (#[trigger] l0[j]).0 != id) && l1 == l0.push((id, row)),
        },
    ensures
        forall|a: int, b: int| 0 <= a < b < l1.len() ==> (#[trigger] l1[a]).0 != (#[trigger] l1[b]).0,
        lane_of(l1, id) == Some(row),
        forall|v: NodeId| v != id ==> #[trigger] lane_of(l1, v) == lane_of(l0, v),
        l1.len() <= l0.len() + 1,
        forall|j: int| 0 <= j < l1.len() ==> (#[trigger] l1[j]).1 == row || exists|k: int| 0 <= k < l0.len() && l0[k] == l1[j],
{
    assert forall|a: int, b: int| 0 <= a < b < l1.len() implies (#[trigger] l1[a]).0 != (#[trigger] l1[b]).0 by {
        match at {
            Some(x) => {},
            None => {
                if b == l0.len() {
                    assert(l0[a].0 != id);
                }
            },
        }
    }
    let x = match at {
        Some(x) => x as int,
        None => l0.len() as int,
    };
    assert(l1[x] == (id, row));
    lemma_lane_of_distinct(l1, x);
    assert forall|v: NodeId| v != id implies #[trigger] lane_of(l1, v) == lane_of(l0, v) by {
        lemma_lane_of_in(l0, v);
        lemma_lane_of_in(l1, v);
        match lane_of(l0, v) {
            Some(y) => {
                let i = choose|i: int| 0 <= i < l0.len() && l0[i] == (v, y);
                assert(l1[i] == l0[i]);
                lemma_lane_of_distinct(l1, i);
            },
            None => {
                if let Some(y) = lane_of(l1, v) {
                    let i = choose|i: int| 0 <= i < l1.len() && l1[i] == (v, y);
                    assert(i != x);
                    assert(l0[i] == l1[i]);
                }
            },
        }
    }
}

/// `(gap, index into that gap's spans)`.
pub type SpanAt = (usize, usize);

/// Vertical runs per gap, and the (gap, index) of each run keyed by edge and role.
pub struct Spans {
    pub per_gap: Vec<Vec<Span>>,
    /// Forward segments in `Layered::segments` order.
    pub forward: Vec<SpanAt>,
    /// Back edges: (edge index, span leaving the source, span entering the target).
    pub back: Vec<(usize, Option<SpanAt>, Option<SpanAt>)>,
}

/// A track key of a layered node.
pub open spec fn key_spec(n: LNode) -> u32 {
    match n {
        LNode::Real(id) => id.0,
        LNode::Pass(e) => (0x80000000u32 | e.0) as u32,
    }
}

fn key(n: LNode) -> (k: u32)
    ensures
        k == key_spec(n),
{
    match n {
        LNode::Real(id) => id.0,
        LNode::Pass(e) => 0x80000000u32 | e.0,
    }
}

/// Where a run sits in its gap.
pub open spec fn at_ok(per_gap: Seq<Vec<Span>>, at: SpanAt) -> bool {
    at.0 < per_gap.len() && at.1 < per_gap[at.0 as int]@.len()
}

impl Spans {
    /// Every run inside the row limit with its top above its bottom; every
    /// reference to a run points at one.
    pub open spec fn wf(&self) -> bool {
        &&& forall|c: int| 0 <= c < self.per_gap@.len() ==> (#[trigger] self.per_gap@[c])@.len() <= MAX_GAP_SPANS
        &&& forall|c: int, i: int|
            0 <= c < self.per_gap@.len() && 0 <= i < self.per_gap@[c]@.len() ==> {
                let s = #[trigger] self.per_gap@[c]@[i];
                &&& 0 <= s.lo <= s.hi <= MAX_Y
            }
        &&& forall|i: int| 0 <= i < self.forward@.len() ==> at_ok(self.per_gap@, #[trigger] self.forward@[i])
        &&& forall|i: int|
            0 <= i < self.back@.len() ==> (match (#[trigger] self.back@[i]).1 {
                Some(a) => at_ok(self.per_gap@, a),
                None => true,
            }) && (match self.back@[i].2 {
                Some(a) => at_ok(self.per_gap@, a),
                None => true,
            })
    }
}

fn push_span(per_gap: &mut Vec<Vec<Span>>, gap: usize, s: Span) -> (at: SpanAt)
    requires
        gap < old(per_gap)@.len(),
        old(per_gap)@[gap as int]@.len() < MAX_GAP_SPANS,
    ensures
        at.0 == gap,
        at.1 == old(per_gap)@[gap as int]@.len(),
        final(per_gap)@.len() == old(per_gap)@.len(),
        final(per_gap)@[gap as int]@ == old(per_gap)@[gap as int]@.push(s),
        forall|c: int| 0 <= c < old(per_gap)@.len() && c != gap ==> #[trigger] final(per_gap)@[c] == old(per_gap)@[c],
{
    let n = per_gap[gap].len();
    per_gap[gap].push(s);
    (gap, n)
}

/// The vertical run of every forward segment in the gap it crosses, then a
/// run out of and into the lane of every back edge.
pub fn spans(
    g: &ViewGraph,
    r: &Ranked,
    l: &Layered,
    geo: &Geometry,
    lane: &Vec<(NodeId, i32)>,
    colour: &Vec<Option<EdgeColour>>,
) -> (sp: Spans)
    requires
        small(g),
        r.wf_for(g),
        l.wf_for(g),
        geo.wf_for(g, l.columns@.len() as int),
        colour@.len() == g.edges@.len(),
        forall|i: int| 0 <= i < lane@.len() ==> 0 <= (#[trigger] lane@[i]).1 <= MAX_Y,
    ensures
        sp.wf(),
        sp.forward@.len() == l.segments@.len(),
        sp.per_gap@.len() == if l.columns@.len() == 0 { 0 } else { l.columns@.len() - 1 },
{
    let cols = l.columns.len();
    let gaps = if cols == 0 { 0 } else { cols - 1 };
    let mut per_gap: Vec<Vec<Span>> = Vec::new();
    let mut c: usize = 0;
    while c < gaps
        invariant
            c <= gaps,
            per_gap@.len() == c,
            forall|x: int| 0 <= x < c ==> (#[trigger] per_gap@[x])@.len() == 0,
        decreases gaps - c,
    {
        per_gap.push(Vec::new());
        c += 1;
    }
    let mut forward: Vec<SpanAt> = Vec::new();
    let mut si: usize = 0;
    while si < l.segments.len()
        invariant
            si <= l.segments@.len(),
            small(g),
            l.wf_for(g),
            geo.wf_for(g, cols as int),
            cols == l.columns@.len(),
            gaps == if cols == 0 { 0 } else { cols - 1 },
            colour@.len() == g.edges@.len(),
            per_gap@.len() == gaps,
            forall|x: int| 0 <= x < gaps ==> (#[trigger] per_gap@[x])@.len() <= si,
            forall|x: int, i: int|
                0 <= x < per_gap@.len() && 0 <= i < per_gap@[x]@.len() ==> {
                    let s = #[trigger] per_gap@[x]@[i];
                    &&& 0 <= s.lo <= s.hi <= MAX_Y
                },
            forward@.len() == si,
            forall|i: int| 0 <= i < forward@.len() ==> at_ok(per_gap@, #[trigger] forward@[i]),
        decreases l.segments.len() - si,
    {
        let s = l.segments[si];
        let y0 = geo.at(s.from).1;
        let y1 = geo.at(s.to).1;
        proof {
            lemma_at_row(geo, g, cols as int, s.from);
            lemma_at_row(geo, g, cols as int, s.to);
            assert(si < MAX_GAP_SPANS) by {
                assert(l.segments@.len() <= crate::layout::order::MAX_SEGMENTS);
            }
        }
        let span = Span {
            edge: s.edge,
            lo: if y0 < y1 { y0 } else { y1 },
            hi: if y0 < y1 { y1 } else { y0 },
            y_in: y0,
            y_out: y1,
            src: key(s.from),
            dst: key(s.to),
            colour: colour[s.edge.0 as usize],
        };
        let ghost pg0 = per_gap@;
        let at = push_span(&mut per_gap, s.col, span);
        forward.push(at);
        proof {
            assert forall|i: int| 0 <= i < forward@.len() implies at_ok(per_gap@, #[trigger] forward@[i]) by {
                if i < si {
                    assert(at_ok(pg0, forward@[i]));
                }
            }
            assert forall|x: int, i: int|
                0 <= x < per_gap@.len() && 0 <= i < per_gap@[x]@.len() implies {
                    let s = #[trigger] per_gap@[x]@[i];
                    &&& 0 <= s.lo <= s.hi <= MAX_Y
                } by {
                if x == s.col && i == pg0[x]@.len() {
                } else {
                    assert(per_gap@[x]@[i] == pg0[x]@[i]);
                }
            }
        }
        si += 1;
    }
    let mut back: Vec<(usize, Option<SpanAt>, Option<SpanAt>)> = Vec::new();
    let mut ei: usize = 0;
    while ei < g.edges.len()
        invariant
            ei <= g.edges@.len(),
            small(g),
            r.wf_for(g),
            geo.wf_for(g, cols as int),
            cols == l.columns@.len(),
            gaps == if cols == 0 { 0 } else { cols - 1 },
            colour@.len() == g.edges@.len(),
            forall|i: int| 0 <= i < lane@.len() ==> 0 <= (#[trigger] lane@[i]).1 <= MAX_Y,
            per_gap@.len() == gaps,
            forall|x: int| 0 <= x < gaps ==> (#[trigger] per_gap@[x])@.len() <= l.segments@.len() + 2 * ei,
            l.segments@.len() <= crate::layout::order::MAX_SEGMENTS,
            forall|x: int, i: int|
                0 <= x < per_gap@.len() && 0 <= i < per_gap@[x]@.len() ==> {
                    let s = #[trigger] per_gap@[x]@[i];
                    &&& 0 <= s.lo <= s.hi <= MAX_Y
                },
            forall|i: int| 0 <= i < forward@.len() ==> at_ok(per_gap@, #[trigger] forward@[i]),
            forall|i: int|
                0 <= i < back@.len() ==> (match (#[trigger] back@[i]).1 {
                    Some(a) => at_ok(per_gap@, a),
                    None => true,
                }) && (match back@[i].2 {
                    Some(a) => at_ok(per_gap@, a),
                    None => true,
                }),
        decreases g.edges.len() - ei,
    {
        if r.back[ei] {
            let e = &g.edges[ei];
            let (cu, yu) = geo.at(LNode::Real(e.from));
            let (cv, yv) = geo.at(LNode::Real(e.to));
            let ly = lane_row(lane, e.from);
            proof {
                lemma_at_row(geo, g, cols as int, LNode::Real(e.from));
                lemma_at_row(geo, g, cols as int, LNode::Real(e.to));
            }
            let hi_u = if yu < ly { ly } else { yu };
            let lo_u = if yu < ly { yu } else { ly };
            let hi_v = if yv < ly { ly } else { yv };
            let lo_v = if yv < ly { yv } else { ly };
            let ghost pg0 = per_gap@;
            let out = if cu + 1 < cols {
                Some(push_span(&mut per_gap, cu, Span {
                    edge: EdgeId(ei as u32),
                    lo: lo_u,
                    hi: hi_u,
                    y_in: yu,
                    y_out: ly,
                    src: LANE_OUT,
                    dst: e.from.0,
                    colour: colour[ei],
                }))
            } else {
                None
            };
            let ghost pg1 = per_gap@;
            let inn = if cv >= 1 {
                Some(push_span(&mut per_gap, cv - 1, Span {
                    edge: EdgeId(ei as u32),
                    lo: lo_v,
                    hi: hi_v,
                    y_in: ly,
                    y_out: yv,
                    src: e.to.0,
                    dst: LANE_IN,
                    colour: colour[ei],
                }))
            } else {
                None
            };
            back.push((ei, out, inn));
            proof {
                assert forall|x: int, i: int|
                    0 <= x < per_gap@.len() && 0 <= i < per_gap@[x]@.len() implies {
                        let s = #[trigger] per_gap@[x]@[i];
                        &&& 0 <= s.lo <= s.hi <= MAX_Y
                    } by {
                    if i < pg1[x]@.len() {
                        assert(per_gap@[x]@[i] == pg1[x]@[i]);
                        if i < pg0[x]@.len() {
                            assert(pg1[x]@[i] == pg0[x]@[i]);
                        }
                    }
                }
                assert forall|i: int| 0 <= i < forward@.len() implies at_ok(per_gap@, #[trigger] forward@[i]) by {
                    assert(at_ok(pg0, forward@[i]));
                }
                assert forall|i: int|
                    0 <= i < back@.len() implies (match (#[trigger] back@[i]).1 {
                        Some(a) => at_ok(per_gap@, a),
                        None => true,
                    }) && (match back@[i].2 {
                        Some(a) => at_ok(per_gap@, a),
                        None => true,
                    }) by {
                    if i < back@.len() - 1 {
                        match back@[i].1 {
                            Some(a) => assert(at_ok(pg0, a)),
                            None => {},
                        }
                        match back@[i].2 {
                            Some(a) => assert(at_ok(pg0, a)),
                            None => {},
                        }
                    }
                }
            }
        }
        ei += 1;
    }
    proof {
        assert forall|c: int| 0 <= c < per_gap@.len() implies (#[trigger] per_gap@[c])@.len() <= MAX_GAP_SPANS by {}
    }
    Spans { per_gap, forward, back }
}

/// The row of a back edge's lane.
fn lane_row(lane: &Vec<(NodeId, i32)>, v: NodeId) -> (y: i32)
    requires
        forall|i: int| 0 <= i < lane@.len() ==> 0 <= (#[trigger] lane@[i]).1 <= MAX_Y,
    ensures
        0 <= y <= MAX_Y,
        lane_of(lane@, v) matches Some(x) ==> y == x,
{
    let mut i = lane.len();
    proof {
        assert(lane@.take(i as int) =~= lane@);
    }
    while i > 0
        invariant
            i <= lane@.len(),
            forall|j: int| 0 <= j < lane@.len() ==> 0 <= (#[trigger] lane@[j]).1 <= MAX_Y,
            lane_of(lane@, v) == lane_of(lane@.take(i as int), v),
        decreases i,
    {
        proof {
            assert(lane@.take(i as int).drop_last() =~= lane@.take(i - 1));
        }
        if lane[i - 1].0 == v {
            return lane[i - 1].1;
        }
        i -= 1;
    }
    0
}

/// A layered node's attach row is inside the drawing.
proof fn lemma_at_row(geo: &Geometry, g: &ViewGraph, cols: int, n: LNode)
    requires
        geo.wf_for(g, cols),
    ensures
        0 <= slot_of(geo.nodes as int, n) < geo.attach@.len() && geo.attach@[slot_of(geo.nodes as int, n)] is Some ==> match geo.attach@[slot_of(geo.nodes as int, n)] {
            Some(p) => p.0 < cols && row_ok(p.1 as int),
            None => true,
        },
{
}

/// Most columns across a drawing reaches.
pub const MAX_X: i32 = 268435456;

/// Where each column and gap sits across the drawing, and the track of each
/// run.
pub struct Columns {
    pub col_x: Vec<i32>,
    pub gaps: Vec<GapPlan>,
    /// Track index per span, per gap.
    pub assign: Vec<Vec<usize>>,
    pub width: i32,
}

/// Columns laid out left to right: a card's width each, a gap between each
/// pair as wide as its tracks and two more, never narrower than `MIN_GAP`;
/// the tracks centred in their gap.
pub fn columns(sp: &Spans, cols: usize, card_w: i32, margin: i32, by_colour: bool) -> (cx: Columns)
    requires
        sp.wf(),
        sp.per_gap@.len() == if cols == 0 { 0 } else { cols - 1 },
        cols <= MAX_NODES,
        0 <= card_w <= 65535,
        0 <= margin <= BACK_MARGIN,
    ensures
        cx.col_x@.len() == cols,
        cx.gaps@.len() == sp.per_gap@.len(),
        cx.assign@.len() == sp.per_gap@.len(),
        cols > 0 ==> cx.col_x@[0] == margin,
        forall|c: int| 0 <= c < cols ==> 0 <= #[trigger] cx.col_x@[c] <= MAX_X,
        forall|c: int| 0 <= c < cols ==> #[trigger] cx.col_x@[c] + card_w <= MAX_X,
        forall|c: int|
            0 <= c && c + 1 < cols ==> #[trigger] cx.col_x@[c + 1] == cx.col_x@[c] + card_w + cx.gaps@[c].width,
        forall|c: int| 0 <= c < cx.gaps@.len() ==> (#[trigger] cx.gaps@[c]).x0 == cx.col_x@[c] + card_w,
        forall|c: int| 0 <= c < cx.gaps@.len() ==> (#[trigger] cx.gaps@[c]).width >= MIN_GAP,
        forall|c: int| 0 <= c < cx.assign@.len() ==> (#[trigger] cx.assign@[c])@.len() == sp.per_gap@[c]@.len(),
        forall|c: int, i: int|
            0 <= c < cx.assign@.len() && 0 <= i < sp.per_gap@[c]@.len() && !straight(sp.per_gap@[c]@[i]) ==> #[trigger] cx.assign@[c]@[i]
                < cx.gaps@[c].tracks@.len(),
        forall|c: int, t: int|
            0 <= c < cx.gaps@.len() && 0 <= t < cx.gaps@[c].tracks@.len() ==> -MAX_X <= (#[trigger] cx.gaps@[c].tracks@[t]).x <= MAX_X,
        0 <= cx.width <= MAX_X,
{
    let mut col_x: Vec<i32> = Vec::new();
    let mut gaps: Vec<GapPlan> = Vec::new();
    let mut assign: Vec<Vec<usize>> = Vec::new();
    let mut width: i32 = margin;
    let mut c: usize = 0;
    while c < cols
        invariant
            c <= cols,
            cols <= MAX_NODES,
            sp.wf(),
            sp.per_gap@.len() == if cols == 0 { 0 } else { cols - 1 },
            0 <= card_w <= 65535,
            0 <= margin <= BACK_MARGIN,
            col_x@.len() == c,
            gaps@.len() == if c == 0 { 0 } else { c - 1 },
            assign@.len() == gaps@.len(),
            c > 0 ==> col_x@[0] == margin,
            c == 0 ==> width == margin,
            0 <= width <= margin + c * (65535 + 65535),
            forall|x: int| 0 <= x < c ==> 0 <= #[trigger] col_x@[x] <= MAX_X,
            forall|x: int| 0 <= x < c ==> #[trigger] col_x@[x] + card_w <= width,
            forall|x: int| 0 <= x && x + 1 < c ==> #[trigger] col_x@[x + 1] == col_x@[x] + card_w + gaps@[x].width,
            c > 0 ==> width == col_x@[c - 1] + card_w,
            forall|x: int| 0 <= x < gaps@.len() ==> (#[trigger] gaps@[x]).x0 == col_x@[x] + card_w,
            forall|x: int| 0 <= x < gaps@.len() ==> (#[trigger] gaps@[x]).width >= MIN_GAP,
            forall|x: int| 0 <= x < assign@.len() ==> (#[trigger] assign@[x])@.len() == sp.per_gap@[x]@.len(),
            forall|x: int, i: int|
                0 <= x < assign@.len() && 0 <= i < sp.per_gap@[x]@.len() && !straight(sp.per_gap@[x]@[i]) ==> #[trigger] assign@[x]@[i]
                    < gaps@[x].tracks@.len(),
            forall|x: int, t: int|
                0 <= x < gaps@.len() && 0 <= t < gaps@[x].tracks@.len() ==> -MAX_X <= (#[trigger] gaps@[x].tracks@[t]).x <= MAX_X,
        decreases cols - c,
    {
        proof {
            assert(margin + c * (65535 + 65535) + 65535 + 65535 <= 3 + MAX_NODES * (65535 + 65535)) by (nonlinear_arith)
                requires c < MAX_NODES, margin <= 3;
        }
        if c > 0 {
            // The gap between column c - 1 and column c.
            let spans = &sp.per_gap[c - 1];
            proof {
                assert forall|i: int| 0 <= i < spans@.len() implies (#[trigger] spans@[i]).hi < i32::MAX && spans@[i].lo <= spans@[i].hi by {
                    assert(sp.per_gap@[c - 1]@[i] == spans@[i]);
                }
            }
            let (a, n) = pack(spans, by_colour);
            let wide: u16 = if n > 65533 { 65535 } else { n as u16 + 2 };
            let gw: u16 = if wide < MIN_GAP { MIN_GAP } else { wide };
            let pad: i32 = (gw as i32 - 2 - n as i32) / 2;
            let x0 = width;
            let mut tracks: Vec<Track> = Vec::new();
            let mut t: usize = 0;
            while t < n
                invariant
                    t <= n,
                    n <= spans@.len(),
                    spans@.len() <= MAX_GAP_SPANS,
                    a@.len() == spans@.len(),
                    tracks@.len() == t,
                    0 <= x0 <= 3 + MAX_NODES * (65535 + 65535),
                    -3000000 <= pad <= 40000,
                    forall|u: int| 0 <= u < t ==> -MAX_X <= (#[trigger] tracks@[u]).x <= MAX_X,
                decreases n - t,
            {
                let mut edges: Vec<EdgeId> = Vec::new();
                let mut i: usize = 0;
                while i < spans.len()
                    invariant
                        i <= spans@.len(),
                        a@.len() == spans@.len(),
                    decreases spans.len() - i,
                {
                    if a[i] == t && spans[i].lo != spans[i].hi {
                        edges.push(spans[i].edge);
                    }
                    i += 1;
                }
                tracks.push(Track { x: x0 + 1 + pad + t as i32, edges });
                t += 1;
            }
            let ghost g0 = gaps@;
            gaps.push(GapPlan { x0, width: gw, tracks });
            assign.push(a);
            width = width + gw as i32;
            proof {
                assert forall|x: int, i: int|
                    0 <= x < assign@.len() && 0 <= i < sp.per_gap@[x]@.len() && !straight(sp.per_gap@[x]@[i]) implies #[trigger] assign@[x]@[i]
                        < gaps@[x].tracks@.len() by {
                    if x == c - 1 {
                        assert(sp.per_gap@[x]@[i] == spans@[i]);
                    }
                }
            }
        }
        col_x.push(width);
        width = width + card_w;
        proof {
            assert(margin + c * (65535 + 65535) + (65535 + 65535) == margin + (c + 1) * (65535 + 65535)) by (nonlinear_arith);
        }
        c += 1;
    }
    proof {
        assert(margin + c * (65535 + 65535) <= MAX_X) by (nonlinear_arith)
            requires c <= MAX_NODES, margin <= 3;
    }
    Columns { col_x, gaps, assign, width }
}

impl Columns {
    /// The x of the track a run was given, the gap's left edge when that
    /// track is missing, and 0 for a run that is not there.
    pub open spec fn track_x_spec(&self, at: SpanAt) -> i32 {
        if at.0 < self.gaps@.len() && at.0 < self.assign@.len() && at.1 < self.assign@[at.0 as int]@.len() {
            let t = self.assign@[at.0 as int]@[at.1 as int];
            if t < self.gaps@[at.0 as int].tracks@.len() {
                self.gaps@[at.0 as int].tracks@[t as int].x
            } else {
                self.gaps@[at.0 as int].x0
            }
        } else {
            0
        }
    }

    /// The x of the track a run was given, or the gap's left edge when there
    /// is none.
    pub fn track_x(&self, at: SpanAt) -> (x: i32)
        requires
            forall|c: int, t: int|
                0 <= c < self.gaps@.len() && 0 <= t < self.gaps@[c].tracks@.len() ==> -MAX_X <= (#[trigger] self.gaps@[c].tracks@[t]).x <= MAX_X,
            forall|c: int| 0 <= c < self.gaps@.len() ==> 0 <= (#[trigger] self.gaps@[c]).x0 <= MAX_X,
        ensures
            -MAX_X <= x <= MAX_X,
            x == self.track_x_spec(at),
    {
        if at.0 < self.gaps.len() && at.0 < self.assign.len() && at.1 < self.assign[at.0].len() {
            let t = self.assign[at.0][at.1];
            if t < self.gaps[at.0].tracks.len() {
                return self.gaps[at.0].tracks[t].x;
            }
            return self.gaps[at.0].x0;
        }
        0
    }
}

/// Consecutive points share a row or a column.
pub open spec fn orthogonal(pts: Seq<(i32, i32)>) -> bool {
    forall|i: int| 0 <= i && i + 1 < pts.len() ==> (#[trigger] pts[i]).0 == pts[i + 1].0 || pts[i].1 == pts[i + 1].1
}

/// Drop repeated points and the middle of three on one line.
#[verifier::spinoff_prover]
pub fn collapse(pts: &Vec<(i32, i32)>) -> (out: Vec<(i32, i32)>)
    ensures
        out@.len() <= pts@.len(),
        pts@.len() > 0 ==> out@.len() > 0 && out@[0] == pts@[0] && out@.last() == pts@.last(),
        orthogonal(pts@) ==> orthogonal(out@),
{
    let mut out: Vec<(i32, i32)> = Vec::new();
    let mut i: usize = 0;
    while i < pts.len()
        invariant
            i <= pts@.len(),
            out@.len() <= i,
            i > 0 ==> out@.len() > 0 && out@[0] == pts@[0] && out@.last() == pts@[i - 1],
            i == 0 ==> out@.len() == 0,
            orthogonal(pts@) ==> orthogonal(out@),
        decreases pts.len() - i,
    {
        let p = pts[i];
        let n = out.len();
        if n > 0 && out[n - 1].0 == p.0 && out[n - 1].1 == p.1 {
            i += 1;
            continue;
        }
        let ghost o = out@;
        if n >= 2 {
            let a = out[n - 2];
            let b = out[n - 1];
            if (a.0 == b.0 && b.0 == p.0) || (a.1 == b.1 && b.1 == p.1) {
                out.pop();
            }
        }
        out.push(p);
        proof {
            if orthogonal(pts@) {
                assert forall|k: int| 0 <= k && k + 1 < out@.len() implies (#[trigger] out@[k]).0 == out@[k + 1].0 || out@[k].1 == out@[k + 1].1 by {
                    if k + 2 < out@.len() {
                        assert(out@[k] == o[k] && out@[k + 1] == o[k + 1]);
                    } else if out@.len() == o.len() + 1 {
                        assert(out@[k] == o[k]);
                        assert(o[k] == pts@[i - 1]);
                        assert(pts@[i - 1].0 == pts@[i as int].0 || pts@[i - 1].1 == pts@[i as int].1);
                    } else {
                        assert(out@[k] == o[k]);
                    }
                }
            }
        }
        i += 1;
    }
    out
}

/// The polyline of a forward edge from its source card to its target card:
/// right out of the source, then per column hop along the row it travels on,
/// down or up its track where the row changes, and on through each pass
/// column on the pass row, into the left side of the target.
pub fn forward_route(
    geo: &Geometry,
    cx: &Columns,
    sp: &Spans,
    card_w: i32,
    from: NodeId,
    to: NodeId,
    e: EdgeId,
    a: usize,
    hops: usize,
    offset: usize,
) -> (pts: Vec<(i32, i32)>)
    requires
        hops >= 1,
        a + hops < cx.col_x@.len(),
        cx.col_x@.len() <= MAX_NODES,
        0 <= card_w <= 65535,
        forall|c: int| 0 <= c < cx.col_x@.len() ==> 0 <= #[trigger] cx.col_x@[c] <= MAX_X,
        forall|c: int| 0 <= c < geo.attach@.len() ==> match #[trigger] geo.attach@[c] {
            Some(p) => p.0 < cx.col_x@.len() && row_ok(p.1 as int),
            None => true,
        },
        forall|c: int, t: int|
            0 <= c < cx.gaps@.len() && 0 <= t < cx.gaps@[c].tracks@.len() ==> -MAX_X <= (#[trigger] cx.gaps@[c].tracks@[t]).x <= MAX_X,
        forall|c: int| 0 <= c < cx.gaps@.len() ==> 0 <= (#[trigger] cx.gaps@[c]).x0 <= MAX_X,
    ensures
        pts@.len() >= 2,
        pts@[0] == (
            (cx.col_x@[attach_or(geo.attach@, from.0 as int).0 as int] + card_w) as i32,
            attach_or(geo.attach@, from.0 as int).1,
        ),
        pts@.last() == (
            (cx.col_x@[attach_or(geo.attach@, to.0 as int).0 as int] - 1) as i32,
            attach_or(geo.attach@, to.0 as int).1,
        ),
        orthogonal(pts@),
{
    let (cf, yf) = geo.at(LNode::Real(from));
    let (ct, yt) = geo.at(LNode::Real(to));
    let yp = geo.at(LNode::Pass(e)).1;
    proof {
        assert(0 <= yp <= MAX_Y) by {
            let k = slot_of(geo.nodes as int, LNode::Pass(e));
            if 0 <= k < geo.attach@.len() && geo.attach@[k] is Some {
                assert(match geo.attach@[k] {
                    Some(p) => p.0 < cx.col_x@.len() && row_ok(p.1 as int),
                    None => true,
                });
            }
        }
    }
    let mut pts: Vec<(i32, i32)> = Vec::new();
    pts.push((cx.col_x[cf] + card_w, yf));
    let mut k: usize = 0;
    while k < hops
        invariant
            k <= hops,
            hops >= 1,
            a + hops < cx.col_x@.len(),
            0 <= card_w <= 65535,
            forall|c: int| 0 <= c < cx.col_x@.len() ==> 0 <= #[trigger] cx.col_x@[c] <= MAX_X,
            forall|c: int, t: int|
                0 <= c < cx.gaps@.len() && 0 <= t < cx.gaps@[c].tracks@.len() ==> -MAX_X <= (#[trigger] cx.gaps@[c].tracks@[t]).x <= MAX_X,
            forall|c: int| 0 <= c < cx.gaps@.len() ==> 0 <= (#[trigger] cx.gaps@[c]).x0 <= MAX_X,
            ct < cx.col_x@.len(),
            cf < cx.col_x@.len(),
            pts@.len() >= 1,
            k > 0 ==> pts@.len() >= 2,
            cx.col_x@.len() <= MAX_NODES,
            pts@[0] == ((cx.col_x@[cf as int] + card_w) as i32, yf),
            k < hops ==> pts@.last().1 == if k == 0 { yf } else { yp },
            k == hops ==> pts@.last() == ((cx.col_x@[ct as int] - 1) as i32, yt),
            orthogonal(pts@),
        decreases hops - k,
    {
        let c = a + k;
        let y0 = if k == 0 { yf } else { yp };
        let y1 = if k + 1 == hops { yt } else { yp };
        let x_end = if k + 1 == hops { cx.col_x[ct] - 1 } else { cx.col_x[c + 1] - 1 };
        let ghost p0 = pts@;
        if y0 == y1 {
            pts.push((x_end, y1));
        } else {
            let tx = if offset <= usize::MAX - k && offset + k < sp.forward.len() {
                cx.track_x(sp.forward[offset + k])
            } else {
                cx.col_x[c] + card_w
            };
            pts.push((tx, y0));
            pts.push((tx, y1));
            pts.push((x_end, y1));
        }
        if k + 1 < hops {
            pts.push((cx.col_x[c + 1] + card_w, y1));
        }
        proof {
            assert forall|i: int| 0 <= i && i + 1 < pts@.len() implies (#[trigger] pts@[i]).0 == pts@[i + 1].0 || pts@[i].1 == pts@[i + 1].1 by {
                if i + 1 < p0.len() {
                    assert(pts@[i] == p0[i] && pts@[i + 1] == p0[i + 1]);
                } else if i + 1 == p0.len() {
                    assert(pts@[i] == p0.last());
                }
            }
        }
        k += 1;
    }
    pts
}

/// The attach point of entry `i`, `(0, 0)` when none.
pub open spec fn attach_or(attach: Seq<Option<(usize, i32)>>, i: int) -> (usize, i32) {
    if 0 <= i < attach.len() && attach[i] is Some {
        attach[i]->0
    } else {
        (0usize, 0i32)
    }
}

/// The polyline of a back edge: out of the right side of its source, down
/// its track to the lane, back along the lane, up its track, and into the
/// left side of its target.
pub fn back_route(
    geo: &Geometry,
    cx: &Columns,
    card_w: i32,
    from: NodeId,
    to: NodeId,
    ly: i32,
    out: Option<SpanAt>,
    inn: Option<SpanAt>,
) -> (pts: Vec<(i32, i32)>)
    requires
        0 <= card_w <= 65535,
        0 <= ly <= MAX_Y,
        forall|c: int| 0 <= c < cx.col_x@.len() ==> 0 <= #[trigger] cx.col_x@[c] <= MAX_X,
        forall|c: int| 0 <= c < geo.attach@.len() ==> match #[trigger] geo.attach@[c] {
            Some(p) => p.0 < cx.col_x@.len() && row_ok(p.1 as int),
            None => true,
        },
        cx.col_x@.len() > 0,
        forall|c: int, t: int|
            0 <= c < cx.gaps@.len() && 0 <= t < cx.gaps@[c].tracks@.len() ==> -MAX_X <= (#[trigger] cx.gaps@[c].tracks@[t]).x <= MAX_X,
        forall|c: int| 0 <= c < cx.gaps@.len() ==> 0 <= (#[trigger] cx.gaps@[c]).x0 <= MAX_X,
    ensures
        pts@.len() == 6,
        pts@[0] == (
            (cx.col_x@[attach_or(geo.attach@, from.0 as int).0 as int] + card_w) as i32,
            attach_or(geo.attach@, from.0 as int).1,
        ),
        pts@.last() == (
            (cx.col_x@[attach_or(geo.attach@, to.0 as int).0 as int] - 1) as i32,
            attach_or(geo.attach@, to.0 as int).1,
        ),
        orthogonal(pts@),
{
    let (cu, yu) = geo.at(LNode::Real(from));
    let (cv, yv) = geo.at(LNode::Real(to));
    let x_out = cx.col_x[cu] + card_w;
    let xd = match out {
        Some(at) => cx.track_x(at),
        None => x_out + 1,
    };
    let xu = match inn {
        Some(at) => cx.track_x(at),
        None => BACK_MARGIN / 2,
    };
    let mut pts: Vec<(i32, i32)> = Vec::new();
    pts.push((x_out, yu));
    pts.push((xd, yu));
    pts.push((xd, ly));
    pts.push((xu, ly));
    pts.push((xu, yv));
    pts.push((cx.col_x[cv] - 1, yv));
    proof {
        assert forall|i: int| 0 <= i && i + 1 < pts@.len() implies (#[trigger] pts@[i]).0 == pts@[i + 1].0 || pts@[i].1 == pts@[i + 1].1 by {
            if i == 0 {
            } else if i == 1 {
            } else if i == 2 {
            } else if i == 3 {
            } else {
            }
        }
    }
    pts
}

/// The cards with each one's x set to its column's.
pub open spec fn placed_cards(cards: Seq<CardPos>, col_x: Seq<i32>) -> Seq<CardPos> {
    cards.map_values(|k: CardPos| CardPos { x: col_x[k.col as int], ..k })
}

proof fn lemma_first_card_placed(cards: Seq<CardPos>, col_x: Seq<i32>, v: int)
    ensures
        match first_card(cards, v) {
            Some(k) => first_card(placed_cards(cards, col_x), v) == Some(CardPos { x: col_x[k.col as int], ..k }),
            None => first_card(placed_cards(cards, col_x), v) is None,
        },
    decreases cards.len(),
{
    if cards.len() > 0 {
        lemma_first_card_placed(cards.drop_last(), col_x, v);
        assert(placed_cards(cards, col_x).drop_last() =~= placed_cards(cards.drop_last(), col_x));
    }
}

/// The endpoint law for one route: out of the right side of the source's
/// card on its middle row, into the cell left of the target's card on its
/// middle row, the arrowhead on the last point, every turn square.
pub open spec fn route_ok(layout: &Layout, g: &ViewGraph, card_w: int, i: int) -> bool {
    let r = layout.routes@[i];
    let e = g.edges@[i];
    &&& r.edge == EdgeId(i as u32)
    &&& r.polyline@.len() >= 1
    &&& r.head == r.polyline@.last()
    &&& orthogonal(r.polyline@)
    &&& (first_card(layout.cards@, e.from.0 as int) matches Some(cf) ==> r.polyline@[0] == (
        (cf.x + card_w) as i32,
        (cf.y + (cf.h as int) / 2) as i32,
    ))
    &&& (first_card(layout.cards@, e.to.0 as int) matches Some(ct) ==> r.polyline@.last() == (
        (ct.x - 1) as i32,
        (ct.y + (ct.h as int) / 2) as i32,
    ))
}

/// The drawing of one placement: geometry, lanes, runs and tracks, then a
/// polyline per edge, each collapsed to its turns.
pub fn build_with(
    g: &ViewGraph,
    r: &Ranked,
    l: &Layered,
    ys: &Vec<Vec<i32>>,
    gaps: &Vec<Vec<i32>>,
    heights: &Vec<i32>,
    colours: &Vec<Option<EdgeColour>>,
    badges: &Vec<(NodeId, Vec<Badge>)>,
    opts: LayoutOptions,
    by_colour: bool,
) -> (layout: Layout)
    requires
        inputs_ok(g, l, ys@, gaps@, heights@),
        r.wf_for(g),
        forall|v: int| 0 <= v < r.rank@.len() ==> #[trigger] r.rank@[v] < l.columns@.len(),
        colours@.len() == g.edges@.len(),
    ensures
        layout.routes@.len() == g.edges@.len(),
        layout.col_x@.len() == l.columns@.len(),
        layout.gaps@.len() == if l.columns@.len() == 0 { 0 } else { l.columns@.len() - 1 },
        forall|i: int| 0 <= i < g.edges@.len() ==> #[trigger] route_ok(&layout, g, opts.card_w as int, i),
        forall|i: int| 0 <= i < g.edges@.len() ==> (#[trigger] layout.routes@[i]).colour == colours@[i],
        forall|k: int| 0 <= k < layout.cards@.len() ==> (#[trigger] layout.cards@[k]).x == layout.col_x@[layout.cards@[k].col as int],
{
    let cols = l.columns.len();
    let card_w = opts.card_w as i32;
    let geo = geometry(g, l, ys, gaps, heights);
    let lane = lanes(g, r, geo.cards_h);
    let sp = spans(g, r, l, &geo, &lane, colours);
    let mut margin: i32 = 0;
    let mut ei: usize = 0;
    while ei < g.edges.len()
        invariant
            ei <= g.edges@.len(),
            small(g),
            r.wf_for(g),
            margin == 0 || margin == BACK_MARGIN,
        decreases g.edges.len() - ei,
    {
        if r.back[ei] && r.rank[g.edges[ei].to.0 as usize] == 0 {
            margin = BACK_MARGIN;
        }
        ei += 1;
    }
    let cx = columns(&sp, cols, card_w, margin, by_colour);
    let mut routes: Vec<Route> = Vec::new();
    let mut offset: usize = 0;
    let mut ei: usize = 0;
    while ei < g.edges.len()
        invariant
            ei <= g.edges@.len(),
            small(g),
            r.wf_for(g),
            l.wf_for(g),
            cols == l.columns@.len(),
            forall|v: int| 0 <= v < r.rank@.len() ==> #[trigger] r.rank@[v] < cols,
            geo.wf_for(g, cols as int),
            cards_attached(&geo),
            sp.wf(),
            colours@.len() == g.edges@.len(),
            card_w == opts.card_w as i32,
            cx.col_x@.len() == cols,
            forall|c: int| 0 <= c < cols ==> 0 <= #[trigger] cx.col_x@[c] <= MAX_X,
            forall|c: int| 0 <= c < cols ==> #[trigger] cx.col_x@[c] + card_w <= MAX_X,
            forall|c: int, t: int|
                0 <= c < cx.gaps@.len() && 0 <= t < cx.gaps@[c].tracks@.len() ==> -MAX_X <= (#[trigger] cx.gaps@[c].tracks@[t]).x <= MAX_X,
            forall|c: int| 0 <= c < cx.gaps@.len() ==> (#[trigger] cx.gaps@[c]).x0 == cx.col_x@[c] + card_w,
            cx.gaps@.len() == if cols == 0 { 0 } else { cols - 1 },
            forall|i: int| 0 <= i < lane@.len() ==> 0 <= (#[trigger] lane@[i]).1 <= MAX_Y,
            routes@.len() == ei,
            offset <= ei * MAX_NODES,
            forall|i: int| 0 <= i < ei ==> #[trigger] routes@[i].edge == EdgeId(i as u32),
            forall|i: int| 0 <= i < ei ==> (#[trigger] routes@[i]).colour == colours@[i],
            forall|i: int| 0 <= i < ei ==> (#[trigger] routes@[i]).polyline@.len() >= 1,
            forall|i: int| 0 <= i < ei ==> (#[trigger] routes@[i]).head == routes@[i].polyline@.last(),
            forall|i: int| 0 <= i < ei ==> orthogonal((#[trigger] routes@[i]).polyline@),
            forall|i: int| 0 <= i < ei ==> (#[trigger] routes@[i]).polyline@[0] == (
                (cx.col_x@[attach_or(geo.attach@, g.edges@[i].from.0 as int).0 as int] + card_w) as i32,
                attach_or(geo.attach@, g.edges@[i].from.0 as int).1,
            ),
            forall|i: int| 0 <= i < ei ==> (#[trigger] routes@[i]).polyline@.last() == (
                (cx.col_x@[attach_or(geo.attach@, g.edges@[i].to.0 as int).0 as int] - 1) as i32,
                attach_or(geo.attach@, g.edges@[i].to.0 as int).1,
            ),
        decreases g.edges.len() - ei,
    {
        let e = &g.edges[ei];
        proof {
            assert(g.nodes@.len() > 0);
            assert(r.rank@[e.from.0 as int] < cols);
            assert forall|c: int| 0 <= c < cx.gaps@.len() implies 0 <= (#[trigger] cx.gaps@[c]).x0 <= MAX_X by {
                assert(cx.col_x@[c] + card_w <= MAX_X);
            }
        }
        let pts = if r.back[ei] {
            let mut out: Option<SpanAt> = None;
            let mut inn: Option<SpanAt> = None;
            let mut q: usize = 0;
            while q < sp.back.len()
                invariant
                    q <= sp.back@.len(),
                decreases sp.back.len() - q,
            {
                if sp.back[q].0 == ei {
                    out = sp.back[q].1;
                    inn = sp.back[q].2;
                }
                q += 1;
            }
            let ly = lane_row(&lane, e.from);
            back_route(&geo, &cx, card_w, e.from, e.to, ly, out, inn)
        } else {
            let a = r.rank[e.from.0 as usize];
            let b = r.rank[e.to.0 as usize];
            let p = forward_route(&geo, &cx, &sp, card_w, e.from, e.to, EdgeId(ei as u32), a, b - a, offset);
            offset = offset + (b - a);
            p
        };
        let polyline = collapse(&pts);
        let head = polyline[polyline.len() - 1];
        routes.push(Route { edge: EdgeId(ei as u32), polyline, head, colour: colours[ei] });
        proof {
            assert(ei * MAX_NODES + MAX_NODES == (ei + 1) * MAX_NODES) by (nonlinear_arith);
        }
        ei += 1;
    }
    let mut cards: Vec<CardPos> = Vec::new();
    let mut k: usize = 0;
    while k < geo.cards.len()
        invariant
            k <= geo.cards@.len(),
            geo.wf_for(g, cols as int),
            cx.col_x@.len() == cols,
            cards@ == placed_cards(geo.cards@.take(k as int), cx.col_x@),
        decreases geo.cards.len() - k,
    {
        let card = geo.cards[k];
        cards.push(CardPos { x: cx.col_x[card.col], ..card });
        proof {
            assert(cards@ =~= placed_cards(geo.cards@.take(k + 1), cx.col_x@));
        }
        k += 1;
    }
    proof {
        assert(geo.cards@.take(k as int) =~= geo.cards@);
    }
    let lanes = lane.len() as u16;
    let width: u16 = if cx.width > 65535 { 65535 } else { cx.width as u16 };
    let tall: u16 = if geo.cards_h > 65535 { 65535 } else { geo.cards_h as u16 };
    let height: u16 = if tall as u32 + lanes as u32 > 65535 { 65535 } else { tall + lanes };
    let badges_copy = badges.clone();
    let ghost attach = geo.attach@;
    let ghost geo_cards = geo.cards@;
    let layout = Layout {
        columns: geo.columns,
        col_x: cx.col_x,
        cards,
        gaps: cx.gaps,
        routes,
        lanes,
        badges: badges_copy,
        width,
        height,
    };
    proof {
        assert forall|i: int| 0 <= i < g.edges@.len() implies #[trigger] route_ok(&layout, g, opts.card_w as int, i) by {
            let e = g.edges@[i];
            lemma_first_card_placed(geo_cards, layout.col_x@, e.from.0 as int);
            lemma_first_card_placed(geo_cards, layout.col_x@, e.to.0 as int);
            assert(attach[e.from.0 as int] == attach_of(first_card(geo_cards, e.from.0 as int)));
            assert(attach[e.to.0 as int] == attach_of(first_card(geo_cards, e.to.0 as int)));
        }
    }
    layout
}

} // verus!
