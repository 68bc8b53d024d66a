//! Drawing one column order: the centred placement and the median sweeps,
//! each drawn and scored, the best kept; columns shifted off their
//! neighbours' rows while that clears an overlap.

use vstd::prelude::*;

use crate::layout::order::{
    LNode, Layered, card_pairs, cards_of, cards_spec, cols_view, copy_columns, layer, lnode_ok, orderings, permutes,
};
use crate::layout::place::{
    Centre, MAX_CARD_H, MAX_COL, MAX_ROWS, SLOT_GAP, SLOT_RISE, copy_rows, gaps, gaps_spec, gaps_view, heights_ok, placements,
    plain_rows, rows_fit, shape_ok_v,
};
use crate::layout::rank::{Ranked, rank, rank_law, spans_cols};
use crate::layout::route::{build_with, inputs_ok, route_ok};
use crate::layout::score::{EdgeScore, MAX_COUNT, Score, score, scored, soft_spec};
use crate::layout::slots::reslot;
use crate::layout::refine::refine;
use crate::layout::{Badge, EdgeColour, GapPlan, Layout, LayoutOptions, MAX_EDGES, MAX_NODES, badges_for, colours, colours_spec, small};
use crate::view::{NodeId, ViewGraph};

verus! {

/// What every drawing of one graph shares: the graph, its ranks, the colour
/// per edge, the badges per node and the card size.
pub struct Ctx<'a> {
    pub g: &'a ViewGraph,
    pub ranked: &'a Ranked,
    pub colours: &'a Vec<Option<EdgeColour>>,
    pub badges: &'a Vec<(NodeId, Vec<Badge>)>,
    pub opts: LayoutOptions,
    /// Card height per node.
    pub heights: &'a Vec<i32>,
    /// Give each colour leaving a card its own track.
    pub by_colour: bool,
}

impl<'a> Ctx<'a> {
    pub open spec fn ok(&self) -> bool {
        &&& small(self.g)
        &&& self.ranked.wf_for(self.g)
        &&& heights_ok(self.heights@)
        &&& self.heights@.len() == self.g.nodes@.len()
        &&& self.colours@.len() == self.g.edges@.len()
    }

    /// A column order of this graph that can be drawn.
    pub open spec fn layered_ok(&self, l: &Layered) -> bool {
        &&& l.wf_for(self.g)
        &&& l.columns@.len() <= MAX_NODES
        &&& forall|c: int| 0 <= c < l.columns@.len() ==> (#[trigger] l.columns@[c])@.len() <= MAX_COL
        &&& forall|v: int| 0 <= v < self.ranked.rank@.len() ==> #[trigger] self.ranked.rank@[v] < l.columns@.len()
    }
}

/// A drawing and its score: every route obeys the endpoint law.
pub open spec fn drawn_ok(ctx: &Ctx, l: &Layout, s: &Score) -> bool {
    &&& l.routes@.len() == ctx.g.edges@.len()
    &&& s.edges@.len() == ctx.g.edges@.len()
    &&& l.gaps@.len() == if l.col_x@.len() == 0 { 0 } else { l.col_x@.len() - 1 }
    &&& forall|i: int| 0 <= i < ctx.g.edges@.len() ==> #[trigger] route_ok(l, ctx.g, ctx.opts.card_w as int, i)
    &&& forall|k: int| 0 <= k < l.cards@.len() ==> (#[trigger] l.cards@[k]).x == l.col_x@[l.cards@[k].col as int]
    &&& s.crossings <= MAX_EDGES * MAX_COUNT
    &&& s.height == l.height
    &&& scored(ctx.g, l, s)
    &&& forall|i: int| 0 <= i < ctx.g.edges@.len() ==> (#[trigger] l.routes@[i]).colour == ctx.colours@[i]
}

proof fn lemma_cards_of_len(col: Seq<LNode>)
    ensures
        cards_of(col).len() <= col.len(),
    decreases col.len(),
{
    if col.len() > 0 {
        lemma_cards_of_len(col.drop_last());
    }
}

/// The gaps of a drawable column order fit its cards.
pub proof fn lemma_gaps_shape(ctx: &Ctx, l: &Layered, gs: Seq<Vec<i32>>, slots: bool)
    requires
        ctx.layered_ok(l),
        gaps_view(gs) == gaps_spec(l.columns@, slots),
        gs.len() == l.columns@.len(),
        forall|c: int|
            0 <= c < gs.len() ==> (#[trigger] gs[c])@.len() == if cards_of(l.columns@[c]@).len() == 0 {
                0
            } else {
                cards_of(l.columns@[c]@).len() - 1
            },
        forall|c: int, k: int| 0 <= c < gs.len() && 0 <= k < gs[c]@.len() ==> 1 <= #[trigger] gs[c]@[k] <= crate::layout::place::MAX_GAP_ROWS,
    ensures
        shape_ok_v(cards_spec(l.columns@), gs),
{
    assert forall|c: int| 0 <= c < cards_spec(l.columns@).len() implies (#[trigger] cards_spec(l.columns@)[c]).len() <= MAX_COL by {
        lemma_cards_of_len(l.columns@[c]@);
    }
}

/// Draw and score one placement.
pub fn draw(ctx: &Ctx, l: &Layered, ys: &Vec<Vec<i32>>, gs: &Vec<Vec<i32>>) -> (r: (Layout, Score))
    requires
        ctx.ok(),
        ctx.layered_ok(l),
        rows_fit(ys@, l.columns@),
        shape_ok_v(cards_spec(l.columns@), gs@),
    ensures
        drawn_ok(ctx, &r.0, &r.1),
        r.0.col_x@.len() == l.columns@.len(),
{
    let layout = build_with(
        ctx.g,
        ctx.ranked,
        l,
        ys,
        gs,
        ctx.heights,
        ctx.colours,
        ctx.badges,
        ctx.opts,
        ctx.by_colour,
    );
    let s = score(ctx.g, &layout);
    (layout, s)
}

/// The centred placement alone, drawn and scored: a cheap stand-in for
/// `build` when comparing column orders, and its first candidate.
pub fn preview(ctx: &Ctx, l: &Layered) -> (r: (Layout, Score))
    requires
        ctx.ok(),
        ctx.layered_ok(l),
    ensures
        drawn_ok(ctx, &r.0, &r.1),
        r.0.col_x@.len() == l.columns@.len(),
{
    let gs = gaps(&l.columns, false);
    proof {
        lemma_gaps_shape(ctx, l, gs@, false);
    }
    let plain = plain_rows(l, &gs, ctx.heights);
    draw(ctx, l, &plain, &gs)
}

/// `a` comes before `b` on the vocabulary tier, lexicographically.
pub open spec fn vocab_lt(a: &Score, b: &Score) -> bool {
    a.bends_over_fwd < b.bends_over_fwd || (a.bends_over_fwd == b.bends_over_fwd && (a.bends_over_skip
        < b.bends_over_skip || (a.bends_over_skip == b.bends_over_skip && (a.bends_over_back < b.bends_over_back || (
    a.bends_over_back == b.bends_over_back && (a.junction_over < b.junction_over || (a.junction_over == b.junction_over
        && a.overlaps < b.overlaps)))))))
}

pub open spec fn vocab_eq(a: &Score, b: &Score) -> bool {
    a.bends_over_fwd == b.bends_over_fwd && a.bends_over_skip == b.bends_over_skip && a.bends_over_back
        == b.bends_over_back && a.junction_over == b.junction_over && a.overlaps == b.overlaps
}

fn vocab_less(a: &Score, b: &Score) -> (r: bool)
    ensures
        r == vocab_lt(a, b),
{
    if a.bends_over_fwd != b.bends_over_fwd {
        return a.bends_over_fwd < b.bends_over_fwd;
    }
    if a.bends_over_skip != b.bends_over_skip {
        return a.bends_over_skip < b.bends_over_skip;
    }
    if a.bends_over_back != b.bends_over_back {
        return a.bends_over_back < b.bends_over_back;
    }
    if a.junction_over != b.junction_over {
        return a.junction_over < b.junction_over;
    }
    a.overlaps < b.overlaps
}

/// What one column order is worth: the vocabulary tier, then the total,
/// then crossings; `a` before `b`.
pub open spec fn key_before(a: &Score, b: &Score) -> bool {
    vocab_lt(a, b) || (vocab_eq(a, b) && (a.total < b.total || (a.total == b.total && a.crossings < b.crossings)))
}

pub fn order_before(a: &Score, b: &Score) -> (r: bool)
    ensures
        r == key_before(a, b),
{
    if vocab_less(a, b) {
        return true;
    }
    if vocab_less(b, a) {
        return false;
    }
    a.total < b.total || (a.total == b.total && a.crossings < b.crossings)
}

/// `s` no worse than `base` on either tier.
pub open spec fn no_worse_spec(s: &Score, base: &Score) -> bool {
    &&& s.bends_over_fwd <= base.bends_over_fwd
    &&& s.bends_over_skip <= base.bends_over_skip
    &&& s.bends_over_back <= base.bends_over_back
    &&& s.junction_over <= base.junction_over
    &&& s.overlaps <= base.overlaps
    &&& soft_spec(s) <= soft_spec(base)
}

pub open spec fn soft_ok(s: &Score) -> bool {
    s.crossings <= MAX_EDGES * MAX_COUNT
}

fn no_worse(s: &Score, base: &Score) -> (r: bool)
    requires
        soft_ok(s),
        soft_ok(base),
    ensures
        r == no_worse_spec(s, base),
{
    s.bends_over_fwd <= base.bends_over_fwd && s.bends_over_skip <= base.bends_over_skip && s.bends_over_back
        <= base.bends_over_back && s.junction_over <= base.junction_over && s.overlaps <= base.overlaps
        && s.soft() <= base.soft()
}

/// The height a layout `height` rows tall may grow to for pass slots.
pub open spec fn slot_ceiling_spec(height: u16) -> int {
    if height as int + SLOT_RISE > u16::MAX { u16::MAX as int } else { height as int + SLOT_RISE }
}

/// The height a layout `height` rows tall may grow to for pass slots.
pub fn slot_ceiling(height: u16) -> (h: u16)
    ensures
        h == slot_ceiling_spec(height),
{
    if height > u16::MAX - 2 { u16::MAX } else { height + 2 }
}

/// The rule every placement loop accepts a candidate by: `s` lowers the
/// incumbent's total without rising on either tier past `tiers` (the
/// incumbent, or the layout a loop holds its tiers to) or in height past
/// `ceiling`.
pub open spec fn accept_spec(s: &Score, incumbent: &Score, tiers: &Score, ceiling: u16) -> bool {
    no_worse_spec(s, tiers) && s.total < incumbent.total && s.height <= ceiling
}

pub fn accept(s: &Score, incumbent: &Score, tiers: &Score, ceiling: u16) -> (r: bool)
    requires
        soft_ok(s),
        soft_ok(tiers),
    ensures
        r == accept_spec(s, incumbent, tiers, ceiling),
{
    no_worse(s, tiers) && s.total < incumbent.total && s.height <= ceiling
}

/// Sweeps `build` may draw beyond the centred placement, as
/// `BUILD_DRAW_EDGES` edges' worth: a raster costs in proportion to the
/// edges drawn.
pub const BUILD_DRAWS: usize = 4;
pub const BUILD_DRAW_EDGES: usize = 240;

/// Column shifts tried once one is known to clear an overlap, as
/// `SHIFT_DRAW_EDGES` edges' worth.
pub const SHIFT_DRAW_EDGES: usize = 240;

/// The scalar fields of a score, the per-edge facts cloned.
/// Equal counts, field by field, and equal per-edge facts.
pub open spec fn same_score(a: &Score, b: &Score) -> bool {
    &&& a.edges@ == b.edges@
    &&& a.bends_over_fwd == b.bends_over_fwd
    &&& a.bends_over_skip == b.bends_over_skip
    &&& a.bends_over_back == b.bends_over_back
    &&& a.junction_over == b.junction_over
    &&& a.overlaps == b.overlaps
    &&& a.crossings == b.crossings
    &&& a.asymmetry == b.asymmetry
    &&& a.detour == b.detour
    &&& a.mixed_cells == b.mixed_cells
    &&& a.gap_spread == b.gap_spread
    &&& a.scatter == b.scatter
    &&& a.height == b.height
    &&& a.width == b.width
    &&& a.total == b.total
}

fn copy_edge_score(e: &EdgeScore) -> (r: EdgeScore)
    ensures
        r == *e,
{
    EdgeScore {
        edge: e.edge,
        back: e.back,
        span: e.span,
        bends: e.bends,
        allowed: e.allowed,
        forks: e.forks,
        joins: e.joins,
        crossings: e.crossings,
        overlaps: e.overlaps,
        detour: e.detour,
    }
}

fn copy_score(s: &Score) -> (r: Score)
    ensures
        same_score(&r, s),
{
    let mut edges: Vec<EdgeScore> = Vec::new();
    let mut i: usize = 0;
    while i < s.edges.len()
        invariant
            i <= s.edges@.len(),
            edges@ == s.edges@.subrange(0, i as int),
        decreases s.edges@.len() - i,
    {
        edges.push(copy_edge_score(&s.edges[i]));
        i = i + 1;
        assert(edges@ =~= s.edges@.subrange(0, i as int));
    }
    assert(edges@ =~= s.edges@);
    Score {
        edges,
        bends_over_fwd: s.bends_over_fwd,
        bends_over_skip: s.bends_over_skip,
        bends_over_back: s.bends_over_back,
        junction_over: s.junction_over,
        overlaps: s.overlaps,
        crossings: s.crossings,
        asymmetry: s.asymmetry,
        detour: s.detour,
        mixed_cells: s.mixed_cells,
        gap_spread: s.gap_spread,
        scatter: s.scatter,
        height: s.height,
        width: s.width,
        total: s.total,
    }
}

/// The vocabulary tier of `a` no later than that of `b`.
pub open spec fn vocab_le(a: &Score, b: &Score) -> bool {
    !vocab_lt(b, a)
}

/// The vocabulary tier is a strict order: no worse on every count is no
/// later, and a tier below one no later than a third is below the third.
proof fn lemma_vocab_order(a: &Score, b: &Score, c: &Score)
    ensures
        no_worse_spec(a, b) ==> vocab_le(a, b),
        vocab_lt(a, b) && vocab_le(b, c) ==> vocab_lt(a, c),
        vocab_lt(a, b) ==> vocab_le(a, b),
        vocab_le(a, b) && vocab_le(b, c) ==> vocab_le(a, c),
{
}

/// `a` ranks before `b` among column shifts: by vocabulary, then total,
/// then height.
pub open spec fn shift_before(a: &Score, b: &Score) -> bool {
    vocab_lt(a, b) || (vocab_eq(a, b) && (a.total < b.total || (a.total == b.total && a.height < b.height)))
}

fn shift_less(a: &Score, b: &Score) -> (r: bool)
    ensures
        r == shift_before(a, b),
{
    if vocab_less(a, b) {
        return true;
    }
    if vocab_less(b, a) {
        return false;
    }
    a.total < b.total || (a.total == b.total && a.height < b.height)
}

/// Gap `i` spans the column of cells `x`.
pub open spec fn in_gap(gp: GapPlan, x: int) -> bool {
    gp.x0 <= x < gp.x0 + gp.width
}

/// The first gap from `i` on that holds `x`.
pub open spec fn gap_from(gaps: Seq<GapPlan>, x: int, i: nat) -> Option<usize>
    decreases gaps.len() - i,
{
    if i >= gaps.len() {
        None
    } else if in_gap(gaps[i as int], x) {
        Some(i as usize)
    } else {
        gap_from(gaps, x, i + 1)
    }
}

/// The gap whose columns of cells hold `x`, if any.
fn gap_at(l: &Layout, x: i32) -> (k: Option<usize>)
    ensures
        k matches Some(i) ==> i < l.gaps@.len(),
        k == gap_from(l.gaps@, x as int, 0),
{
    let mut i: usize = 0;
    while i < l.gaps.len()
        invariant
            i <= l.gaps@.len(),
            gap_from(l.gaps@, x as int, 0) == gap_from(l.gaps@, x as int, i as nat),
        decreases l.gaps.len() - i,
    {
        let gp = &l.gaps[i];
        if gp.x0 as i64 <= x as i64 && (x as i64) < gp.x0 as i64 + gp.width as i64 {
            return Some(i);
        }
        i += 1;
    }
    None
}

/// Route `ei` has a vertical run whose column of cells lies in gap `k`.
pub open spec fn vertical_in_gap(l: &Layout, ei: int, k: int) -> bool {
    let pl = l.routes@[ei].polyline@;
    exists|w: int| 1 <= w < pl.len() && pl[w - 1].0 == pl[w].0 && #[trigger] gap_from(l.gaps@, pl[w].0 as int, 0) == Some(k as usize)
}

/// How many of the first `m` edges overlap another and run vertically in gap `k`.
pub open spec fn gap_hits(l: &Layout, s: &Score, k: int, m: int) -> nat
    decreases m,
{
    if m <= 0 {
        0
    } else {
        gap_hits(l, s, k, m - 1) + if s.edges@[m - 1].overlaps > 0 && vertical_in_gap(l, m - 1, k) { 1nat } else { 0nat }
    }
}

/// Two or more overlapping edges run vertically in gap `k`.
pub open spec fn hot_gap(l: &Layout, s: &Score, k: int) -> bool {
    gap_hits(l, s, k, s.edges@.len() as int) >= 2
}

/// Column `c` is one an overlapping edge starts or ends in.
pub open spec fn end_column(ctx: &Ctx, s: &Score, c: int) -> bool {
    exists|ei: int|
        0 <= ei < s.edges@.len() && (#[trigger] s.edges@[ei]).overlaps > 0 && (ctx.ranked.rank@[ctx.g.edges@[ei].from.0 as int] == c
            || ctx.ranked.rank@[ctx.g.edges@[ei].to.0 as int] == c)
}

/// The columns `conflict_columns` gives: beside every hot gap, or, with none,
/// every column an overlapping edge starts or ends in.
pub open spec fn conflict_column(ctx: &Ctx, l: &Layout, s: &Score, c: int) -> bool {
    if exists|k: int| 0 <= k < l.gaps@.len() && #[trigger] hot_gap(l, s, k) {
        exists|k: int| 0 <= k < l.gaps@.len() && #[trigger] hot_gap(l, s, k) && (c == k || c == k + 1)
    } else {
        end_column(ctx, s, c)
    }
}

/// The columns beside every gap where two or more overlapping edges have a
/// vertical run; failing that, the columns the overlapping edges start or
/// end in. In ascending order, each once.
fn conflict_columns(ctx: &Ctx, l: &Layout, s: &Score) -> (out: Vec<usize>)
    requires
        ctx.ok(),
        drawn_ok(ctx, l, s),
        forall|v: int| 0 <= v < ctx.ranked.rank@.len() ==> #[trigger] ctx.ranked.rank@[v] < l.col_x@.len(),
    ensures
        forall|i: int| 0 <= i < out@.len() ==> #[trigger] out@[i] < l.col_x@.len(),
        forall|i: int, j: int| 0 <= i < j < out@.len() ==> out@[i] < out@[j],
        forall|c: int| 0 <= c < l.col_x@.len() ==> (out@.contains(c as usize) <==> conflict_column(ctx, l, s, c)),
{
    let cols = l.col_x.len();
    let ng = l.gaps.len();
    let mut per_gap: Vec<usize> = Vec::new();
    let mut k: usize = 0;
    while k < ng
        invariant
            k <= ng,
            per_gap@.len() == k,
            forall|x: int| 0 <= x < k ==> #[trigger] per_gap@[x] == 0,
        decreases ng - k,
    {
        per_gap.push(0);
        k += 1;
    }
    let mut ei: usize = 0;
    while ei < s.edges.len()
        invariant
            ei <= s.edges@.len(),
            s.edges@.len() == l.routes@.len(),
            s.edges@.len() <= MAX_EDGES,
            ng == l.gaps@.len(),
            per_gap@.len() == ng,
            forall|x: int| 0 <= x < ng ==> #[trigger] per_gap@[x] <= ei,
            forall|x: int| 0 <= x < ng ==> #[trigger] per_gap@[x] == gap_hits(l, s, x, ei as int),
        decreases s.edges.len() - ei,
    {
        if s.edges[ei].overlaps > 0 {
            let mut seen: Vec<bool> = Vec::new();
            let mut k: usize = 0;
            while k < ng
                invariant
                    k <= ng,
                    seen@.len() == k,
                    forall|x: int| 0 <= x < k ==> !(#[trigger] seen@[x]),
                decreases ng - k,
            {
                seen.push(false);
                k += 1;
            }
            let pl = &l.routes[ei].polyline;
            let mut w: usize = 1;
            while w < pl.len()
                invariant
                    1 <= w,
                    seen@.len() == ng,
                    ng == l.gaps@.len(),
                    ei < l.routes@.len(),
                    pl@ == l.routes@[ei as int].polyline@,
                    forall|x: int|
                        0 <= x < ng ==> (#[trigger] seen@[x] <==> exists|v: int|
                            1 <= v < w && v < pl@.len() && pl@[v - 1].0 == pl@[v].0 && #[trigger] gap_from(l.gaps@, pl@[v].0 as int, 0)
                                == Some(x as usize)),
                decreases pl.len() - w,
            {
                if pl[w - 1].0 == pl[w].0 {
                    if let Some(k) = gap_at(l, pl[w].0) {
                        seen.set(k, true);
                    }
                }
                proof {
                    assert forall|x: int| 0 <= x < ng implies (#[trigger] seen@[x] <==> exists|v: int|
                        1 <= v < w + 1 && v < pl@.len() && pl@[v - 1].0 == pl@[v].0 && #[trigger] gap_from(l.gaps@, pl@[v].0 as int, 0)
                            == Some(x as usize)) by {
                        if pl@[w - 1].0 == pl@[w as int].0 && gap_from(l.gaps@, pl@[w as int].0 as int, 0) == Some(x as usize) {
                            assert(seen@[x]);
                        }
                    }
                }
                w += 1;
            }
            proof {
                assert forall|x: int| 0 <= x < ng implies (#[trigger] seen@[x] <==> vertical_in_gap(l, ei as int, x)) by {
                    if seen@[x] {
                        let v = choose|v: int|
                            1 <= v < w && v < pl@.len() && pl@[v - 1].0 == pl@[v].0 && #[trigger] gap_from(l.gaps@, pl@[v].0 as int, 0)
                                == Some(x as usize);
                        assert(gap_from(l.gaps@, pl@[v].0 as int, 0) == Some(x as usize));
                    }
                    if vertical_in_gap(l, ei as int, x) {
                        let pl2 = l.routes@[ei as int].polyline@;
                        let v = choose|v: int|
                            1 <= v < pl2.len() && pl2[v - 1].0 == pl2[v].0 && #[trigger] gap_from(l.gaps@, pl2[v].0 as int, 0)
                                == Some(x as usize);
                        assert(gap_from(l.gaps@, pl@[v].0 as int, 0) == Some(x as usize));
                    }
                }
            }
            let mut k: usize = 0;
            while k < ng
                invariant
                    k <= ng,
                    seen@.len() == ng,
                    per_gap@.len() == ng,
                    ei < s.edges@.len(),
                    s.edges@.len() <= MAX_EDGES,
                    s.edges@[ei as int].overlaps > 0,
                    forall|x: int| 0 <= x < k ==> #[trigger] per_gap@[x] <= ei + 1,
                    forall|x: int| k <= x < ng ==> #[trigger] per_gap@[x] <= ei,
                    forall|x: int| 0 <= x < ng ==> (#[trigger] seen@[x] <==> vertical_in_gap(l, ei as int, x)),
                    forall|x: int| 0 <= x < k ==> #[trigger] per_gap@[x] == gap_hits(l, s, x, ei + 1),
                    forall|x: int| k <= x < ng ==> #[trigger] per_gap@[x] == gap_hits(l, s, x, ei as int),
                decreases ng - k,
            {
                if seen[k] {
                    assert(per_gap@[k as int] <= ei);
                    let n = per_gap[k] + 1;
                    per_gap.set(k, n);
                }
                assert(per_gap@[k as int] == gap_hits(l, s, k as int, ei + 1));
                k += 1;
            }
        } else {
            proof {
                assert forall|x: int| 0 <= x < ng implies #[trigger] per_gap@[x] == gap_hits(l, s, x, ei + 1) by {}
            }
        }
        ei += 1;
    }
    let mut mark: Vec<bool> = Vec::new();
    let mut c: usize = 0;
    while c < cols
        invariant
            c <= cols,
            mark@.len() == c,
            forall|x: int| 0 <= x < c ==> !(#[trigger] mark@[x]),
        decreases cols - c,
    {
        mark.push(false);
        c += 1;
    }
    let mut any = false;
    let mut k: usize = 0;
    while k < ng
        invariant
            k <= ng,
            ng < cols || ng == 0,
            ng == l.gaps@.len(),
            per_gap@.len() == ng,
            mark@.len() == cols,
            forall|x: int| 0 <= x < ng ==> #[trigger] per_gap@[x] == gap_hits(l, s, x, s.edges@.len() as int),
            any <==> exists|x: int| 0 <= x < k && #[trigger] hot_gap(l, s, x),
            forall|c: int|
                0 <= c < cols ==> (#[trigger] mark@[c] <==> exists|x: int| 0 <= x < k && #[trigger] hot_gap(l, s, x) && (c == x || c == x + 1)),
        decreases ng - k,
    {
        if per_gap[k] >= 2 {
            mark.set(k, true);
            mark.set(k + 1, true);
            any = true;
        }
        proof {
            assert(per_gap[k as int] >= 2 <==> hot_gap(l, s, k as int));
            assert forall|c: int| 0 <= c < cols implies (#[trigger] mark@[c] <==> exists|x: int|
                0 <= x < k + 1 && #[trigger] hot_gap(l, s, x) && (c == x || c == x + 1)) by {
                if hot_gap(l, s, k as int) && (c == k || c == k + 1) {
                    assert(mark@[c]);
                }
            }
            if hot_gap(l, s, k as int) {
                assert(exists|x: int| 0 <= x < k + 1 && #[trigger] hot_gap(l, s, x));
            }
        }
        k += 1;
    }
    let ghost hot_any = any;
    if !any {
        let mut ei: usize = 0;
        while ei < s.edges.len()
            invariant
                ei <= s.edges@.len(),
                s.edges@.len() == ctx.g.edges@.len(),
                ctx.ok(),
                mark@.len() == cols,
                forall|v: int| 0 <= v < ctx.ranked.rank@.len() ==> #[trigger] ctx.ranked.rank@[v] < cols,
                forall|c: int|
                    0 <= c < cols ==> (#[trigger] mark@[c] <==> exists|e: int|
                        0 <= e < ei && (#[trigger] s.edges@[e]).overlaps > 0 && (ctx.ranked.rank@[ctx.g.edges@[e].from.0 as int] == c
                            || ctx.ranked.rank@[ctx.g.edges@[e].to.0 as int] == c)),
            decreases s.edges.len() - ei,
        {
            if s.edges[ei].overlaps > 0 {
                let e = &ctx.g.edges[ei];
                mark.set(ctx.ranked.rank[e.from.0 as usize], true);
                mark.set(ctx.ranked.rank[e.to.0 as usize], true);
            }
            proof {
                assert forall|c: int| 0 <= c < cols implies (#[trigger] mark@[c] <==> exists|e: int|
                    0 <= e < ei + 1 && (#[trigger] s.edges@[e]).overlaps > 0 && (ctx.ranked.rank@[ctx.g.edges@[e].from.0 as int] == c
                        || ctx.ranked.rank@[ctx.g.edges@[e].to.0 as int] == c)) by {
                    if s.edges@[ei as int].overlaps > 0 && (ctx.ranked.rank@[ctx.g.edges@[ei as int].from.0 as int] == c
                        || ctx.ranked.rank@[ctx.g.edges@[ei as int].to.0 as int] == c) {
                        assert(mark@[c]);
                    }
                }
            }
            ei += 1;
        }
    }
    proof {
        assert forall|c: int| 0 <= c < cols implies (#[trigger] mark@[c] <==> conflict_column(ctx, l, s, c)) by {}
    }
    let mut out: Vec<usize> = Vec::new();
    let mut c: usize = 0;
    while c < cols
        invariant
            c <= cols,
            mark@.len() == cols,
            forall|i: int| 0 <= i < out@.len() ==> #[trigger] out@[i] < c,
            forall|i: int, j: int| 0 <= i < j < out@.len() ==> out@[i] < out@[j],
            forall|x: int| 0 <= x < cols ==> (out@.contains(x as usize) <==> x < c && #[trigger] mark@[x]),
            forall|x: int| 0 <= x < cols ==> (#[trigger] mark@[x] <==> conflict_column(ctx, l, s, x)),
            cols == l.col_x@.len(),
        decreases cols - c,
    {
        let ghost prev = out@;
        if mark[c] {
            out.push(c);
        }
        proof {
            assert forall|x: int| 0 <= x < cols implies (out@.contains(x as usize) <==> x < c + 1 && #[trigger] mark@[x]) by {
                if mark@[c as int] {
                    assert(out@ == prev.push(c));
                    if x == c {
                        assert(out@[out@.len() - 1] == x as usize);
                    }
                    if out@.contains(x as usize) {
                        let i = choose|i: int| 0 <= i < out@.len() && out@[i] == x as usize;
                        if i < prev.len() {
                            assert(prev[i] == x as usize);
                            assert(prev.contains(x as usize));
                        }
                    }
                    if prev.contains(x as usize) {
                        let i = choose|i: int| 0 <= i < prev.len() && prev[i] == x as usize;
                        assert(out@[i] == x as usize);
                    }
                } else {
                    assert(out@ == prev);
                    if out@.contains(x as usize) {
                        assert(x != c);
                    }
                }
            }
        }
        c += 1;
    }
    proof {
        assert forall|x: int| 0 <= x < l.col_x@.len() implies (out@.contains(x as usize) <==> conflict_column(ctx, l, s, x)) by {
            assert(mark@[x] <==> conflict_column(ctx, l, s, x));
        }
    }
    out
}

/// The rows `ys` with every card of column `c` moved `d` rows down, unless
/// that takes one above the top or past the row limit.
fn shifted(ys: &Vec<Vec<i32>>, c: usize, d: i32) -> (r: Option<Vec<Vec<i32>>>)
    requires
        c < ys@.len(),
        -MAX_ROWS <= d <= MAX_ROWS,
        forall|x: int, k: int| 0 <= x < ys@.len() && 0 <= k < ys@[x]@.len() ==> 0 <= #[trigger] ys@[x]@[k] <= MAX_ROWS,
    ensures
        r matches Some(out) ==> {
            &&& out@.len() == ys@.len()
            &&& forall|x: int| 0 <= x < ys@.len() ==> (#[trigger] out@[x])@.len() == ys@[x]@.len()
            &&& forall|x: int, k: int| 0 <= x < out@.len() && 0 <= k < out@[x]@.len() ==> 0 <= #[trigger] out@[x]@[k] <= MAX_ROWS
            &&& forall|k: int| 0 <= k < ys@[c as int]@.len() ==> #[trigger] out@[c as int]@[k] == ys@[c as int]@[k] + d
            &&& forall|x: int| 0 <= x < ys@.len() && x != c ==> (#[trigger] out@[x])@ == ys@[x]@
        },
        r is None <==> exists|k: int| 0 <= k < ys@[c as int]@.len() && {
            let y = #[trigger] ys@[c as int]@[k];
            y + d < 0 || y + d > MAX_ROWS
        },
{
    let col = &ys[c];
    let mut moved: Vec<i32> = Vec::new();
    let mut k: usize = 0;
    while k < col.len()
        invariant
            k <= col@.len(),
            col@ == ys@[c as int]@,
            -MAX_ROWS <= d <= MAX_ROWS,
            forall|j: int| 0 <= j < col@.len() ==> 0 <= #[trigger] col@[j] <= MAX_ROWS,
            moved@.len() == k,
            forall|j: int| 0 <= j < k ==> #[trigger] moved@[j] == col@[j] + d,
            forall|j: int| 0 <= j < k ==> 0 <= #[trigger] col@[j] + d <= MAX_ROWS,
        decreases col.len() - k,
    {
        let y = col[k] + d;
        if y < 0 || y > MAX_ROWS {
            return None;
        }
        moved.push(y);
        k += 1;
    }
    let mut out = copy_rows(ys);
    out.set(c, moved);
    Some(out)
}

/// The best placement for this column order. With `slots`, a pass slot is
/// held open between every pair of stacked cards the order puts one between.
/// `centred` is the order's `preview`, when the caller has it: the same
/// drawing as the first candidate, so it is not drawn twice.
///
/// The centred placement is the base; a median sweep replaces the incumbent
/// when it lowers the total and is no worse than the base on either tier;
/// then, while edges overlap, a whole column shifted by up to half a card
/// replaces it when that lowers the vocabulary tier. So the result's
/// vocabulary tier is never after the base's.
pub fn build(ctx: &Ctx, l: &Layered, slots: bool, centred: Option<(Layout, Score)>) -> (r: (Layout, Score))
    requires
        ctx.ok(),
        ctx.layered_ok(l),
        centred matches Some(c) ==> drawn_ok(ctx, &c.0, &c.1) && c.0.col_x@.len() == l.columns@.len(),
    ensures
        drawn_ok(ctx, &r.0, &r.1),
        r.0.col_x@.len() == l.columns@.len(),
        !slots && centred is Some ==> vocab_le(&r.1, &centred.unwrap().1),
{
    let g = ctx.g;
    let gs = gaps(&l.columns, slots);
    proof {
        lemma_gaps_shape(ctx, l, gs@, slots);
    }
    let card_h = ctx.opts.card_h as i32;
    let (plain, sweeps) = placements(g, l, &gs, ctx.heights, &vec![Centre::Median], 0);
    let m = if g.edges.len() == 0 { 1 } else { g.edges.len() };
    let mut draws = BUILD_DRAW_EDGES / m;
    if draws < 1 {
        draws = 1;
    }
    if draws > BUILD_DRAWS {
        draws = BUILD_DRAWS;
    }
    let (mut best, base) = match centred {
        Some(built) if !slots => built,
        _ => draw(ctx, l, &plain, &gs),
    };
    let ghost given = centred;
    let mut best_score = copy_score(&base);
    let mut best_ys = plain;
    let mut i: usize = 0;
    while i < sweeps.len() && i < draws
        invariant
            ctx.ok(),
            ctx.layered_ok(l),
            shape_ok_v(cards_spec(l.columns@), gs@),
            forall|x: int| 0 <= x < sweeps@.len() ==> rows_fit((#[trigger] sweeps@[x])@, l.columns@),
            rows_fit(best_ys@, l.columns@),
            drawn_ok(ctx, &best, &best_score),
            best.col_x@.len() == l.columns@.len(),
            soft_ok(&base),
            vocab_le(&best_score, &base),
            !slots && given is Some ==> base == given.unwrap().1,
        decreases sweeps.len() - i,
    {
        let ys = copy_rows(&sweeps[i]);
        proof {
            assert(rows_fit(ys@, l.columns@)) by {
                assert(rows_fit(sweeps@[i as int]@, l.columns@));
            }
        }
        let (layout, s) = draw(ctx, l, &ys, &gs);
        if accept(&s, &best_score, &base, u16::MAX) {
            proof {
                lemma_vocab_order(&s, &base, &base);
            }
            best = layout;
            best_score = s;
            best_ys = ys;
        }
        i += 1;
    }
    // Two cards on the rows of two in the next column, joined crosswise,
    // cannot be drawn: whichever track is left, its exit lands on the
    // other's corner. Shift a whole column off its neighbours' rows, up to
    // half a step, while that removes an overlap; the lowest total, then
    // the lowest layout, wins. Only the columns beside the gap the
    // overlapping edges meet in are tried: every score costs a raster.
    let half = (card_h + SLOT_GAP) / 2;
    let mut shifts = SHIFT_DRAW_EDGES / m;
    if shifts < 1 {
        shifts = 1;
    }
    let cols = l.columns.len();
    while best_score.overlaps > 0
        invariant
            ctx.ok(),
            ctx.layered_ok(l),
            cols == l.columns@.len(),
            shape_ok_v(cards_spec(l.columns@), gs@),
            rows_fit(best_ys@, l.columns@),
            drawn_ok(ctx, &best, &best_score),
            best.col_x@.len() == cols,
            0 <= half <= MAX_ROWS,
            vocab_le(&best_score, &base),
            !slots && given is Some ==> base == given.unwrap().1,
        decreases best_score.bends_over_fwd, best_score.bends_over_skip, best_score.bends_over_back,
            best_score.junction_over, best_score.overlaps,
    {
        let mut found: Option<(Vec<Vec<i32>>, Layout, Score)> = None;
        let columns = conflict_columns(ctx, &best, &best_score);
        let mut done = false;
        let mut d: i32 = 1;
        while d <= half && !done
            invariant
                ctx.ok(),
                ctx.layered_ok(l),
                cols == l.columns@.len(),
                shape_ok_v(cards_spec(l.columns@), gs@),
                rows_fit(best_ys@, l.columns@),
                0 <= half <= MAX_ROWS,
                1 <= d,
                forall|i: int| 0 <= i < columns@.len() ==> #[trigger] columns@[i] < cols,
                best.col_x@.len() == cols,
                found matches Some(f) ==> {
                    &&& rows_fit(f.0@, l.columns@)
                    &&& drawn_ok(ctx, &f.1, &f.2)
                    &&& f.1.col_x@.len() == cols
                    &&& vocab_lt(&f.2, &best_score)
                },
            decreases half - d + 1,
        {
            let mut side: usize = 0;
            while side < 2 && !done
                invariant
                    ctx.ok(),
                    ctx.layered_ok(l),
                    cols == l.columns@.len(),
                    shape_ok_v(cards_spec(l.columns@), gs@),
                    rows_fit(best_ys@, l.columns@),
                    1 <= d <= half <= MAX_ROWS,
                    forall|i: int| 0 <= i < columns@.len() ==> #[trigger] columns@[i] < cols,
                    best.col_x@.len() == cols,
                    found matches Some(f) ==> {
                        &&& rows_fit(f.0@, l.columns@)
                        &&& drawn_ok(ctx, &f.1, &f.2)
                        &&& f.1.col_x@.len() == cols
                        &&& vocab_lt(&f.2, &best_score)
                    },
                decreases 2 - side,
            {
                let dd = if side == 0 { d } else { -d };
                let mut q: usize = 0;
                while q < columns.len() && !done
                    invariant
                        ctx.ok(),
                        ctx.layered_ok(l),
                        cols == l.columns@.len(),
                        shape_ok_v(cards_spec(l.columns@), gs@),
                        rows_fit(best_ys@, l.columns@),
                        -MAX_ROWS <= dd <= MAX_ROWS,
                        forall|i: int| 0 <= i < columns@.len() ==> #[trigger] columns@[i] < cols,
                        best.col_x@.len() == cols,
                        found matches Some(f) ==> {
                            &&& rows_fit(f.0@, l.columns@)
                            &&& drawn_ok(ctx, &f.1, &f.2)
                            &&& f.1.col_x@.len() == cols
                            &&& vocab_lt(&f.2, &best_score)
                        },
                    decreases columns.len() - q,
                {
                    let c = columns[q];
                    if let Some(ys) = shifted(&best_ys, c, dd) {
                        let (layout, s) = draw(ctx, l, &ys, &gs);
                        let better = match &found {
                            None => true,
                            Some(f) => shift_less(&s, &f.2),
                        };
                        if vocab_less(&s, &best_score) && better {
                            found = Some((ys, layout, s));
                        }
                        if shifts > 0 {
                            shifts = shifts - 1;
                        }
                        if found.is_some() && shifts == 0 {
                            done = true;
                        }
                    }
                    q += 1;
                }
                side += 1;
            }
            d += 1;
        }
        match found {
            None => {
                break;
            },
            Some((ys, layout, s)) => {
                proof {
                    lemma_vocab_order(&s, &best_score, &base);
                }
                best_ys = ys;
                best = layout;
                best_score = s;
            },
        }
    }
    (best, best_score)
}

/// Whether the column order puts a pass slot between two stacked cards
/// anywhere, so that `build` with `slots` differs from without.
pub fn has_slots(columns: &Vec<Vec<LNode>>) -> (r: bool)
    requires
        forall|c: int| 0 <= c < columns@.len() ==> (#[trigger] columns@[c])@.len() <= MAX_COL,
    ensures
        r == (gaps_spec(columns@, true) != gaps_spec(columns@, false)),
{
    let a = gaps(columns, true);
    let b = gaps(columns, false);
    let mut c: usize = 0;
    while c < a.len()
        invariant
            c <= a@.len(),
            a@.len() == b@.len(),
            gaps_view(a@) == gaps_spec(columns@, true),
            gaps_view(b@) == gaps_spec(columns@, false),
            forall|x: int| 0 <= x < c ==> (#[trigger] a@[x])@ == b@[x]@,
        decreases a.len() - c,
    {
        let ga = &a[c];
        let gb = &b[c];
        if ga.len() != gb.len() {
            proof {
                assert(gaps_view(a@)[c as int] == ga@);
                assert(gaps_view(b@)[c as int] == gb@);
                assert(gaps_view(a@)[c as int] != gaps_view(b@)[c as int]);
            }
            return true;
        }
        let mut k: usize = 0;
        let mut diff = false;
        while k < ga.len() && !diff
            invariant
                k <= ga@.len(),
                ga@.len() == gb@.len(),
                diff ==> k > 0 && ga@[k - 1] != gb@[k - 1],
                !diff ==> forall|j: int| 0 <= j < k ==> ga@[j] == gb@[j],
            decreases ga.len() - k,
        {
            if ga[k] != gb[k] {
                diff = true;
            }
            k += 1;
        }
        if diff {
            proof {
                assert(gaps_view(a@)[c as int] == ga@);
                assert(gaps_view(b@)[c as int] == gb@);
                assert(gaps_view(a@)[c as int][k - 1] != gaps_view(b@)[c as int][k - 1]);
            }
            return true;
        }
        proof {
            assert(ga@ =~= gb@);
        }
        c += 1;
    }
    proof {
        assert(gaps_view(a@) =~= gaps_view(b@));
    }
    false
}

/// A preview, when there is one, drawn for an order of `cols` columns.
pub open spec fn pre_ok(ctx: &Ctx, cols: int, p: Option<(Layout, Score)>) -> bool {
    match p {
        Some(q) => drawn_ok(ctx, &q.0, &q.1) && q.0.col_x@.len() == cols,
        None => true,
    }
}

/// Column orders drawn in full, after ranking by the preview.
pub const FULL_BUILDS: usize = 2;

/// The adjacent-swap search previews every pair of neighbouring cards; past
/// this many segments a preview costs too much.
pub const SWAP_SEARCH_MAX_SEGMENTS: usize = 64;

/// Passes of the adjacent-swap search.
pub const SWAP_PASSES: usize = 2;

/// Columns of the same shape as `base`: as many, each as long, every slot
/// naming the graph's nodes and edges.
pub open spec fn fits(g: &ViewGraph, cols: Seq<Vec<LNode>>, base: Seq<Vec<LNode>>) -> bool {
    &&& cols.len() == base.len()
    &&& forall|c: int| 0 <= c < cols.len() ==> (#[trigger] cols[c])@.len() == base[c]@.len()
    &&& forall|c: int, j: int| 0 <= c < cols.len() && 0 <= j < cols[c]@.len() ==> lnode_ok(g, #[trigger] cols[c]@[j])
}

/// A permutation of each column of a drawable order fits it.
proof fn lemma_permutes_fits(ctx: &Ctx, l: &Layered, cols: Seq<Vec<LNode>>)
    requires
        ctx.layered_ok(l),
        permutes(cols, l.columns@),
    ensures
        fits(ctx.g, cols, l.columns@),
{
    broadcast use vstd::seq_lib::group_to_multiset_ensures;
    assert forall|c: int, j: int| 0 <= c < cols.len() && 0 <= j < cols[c]@.len() implies lnode_ok(ctx.g, #[trigger] cols[c]@[j]) by {
        let x = cols[c]@[j];
        assert(cols[c]@.contains(x));
        assert(cols[c]@.to_multiset().count(x) > 0);
        assert(l.columns@[c]@.to_multiset().count(x) > 0);
        assert(l.columns@[c]@.contains(x));
        let k = choose|k: int| 0 <= k < l.columns@[c]@.len() && l.columns@[c]@[k] == x;
        assert(lnode_ok(ctx.g, l.columns@[c]@[k]));
    }
}

/// Another order of the same shape, with everything else kept, is drawable.
proof fn lemma_fits_ok(ctx: &Ctx, a: &Layered, b: &Layered)
    requires
        ctx.layered_ok(a),
        fits(ctx.g, b.columns@, a.columns@),
        b.segments == a.segments,
        b.passes == a.passes,
        b.out_deg == a.out_deg,
        b.in_deg == a.in_deg,
    ensures
        ctx.layered_ok(b),
{
    assert forall|c: int| 0 <= c < b.columns@.len() implies (#[trigger] b.columns@[c])@.len() <= ctx.g.nodes@.len()
        + ctx.g.edges@.len() by {
        assert(b.columns@[c]@.len() == a.columns@[c]@.len());
    }
    assert forall|c: int| 0 <= c < b.columns@.len() implies (#[trigger] b.columns@[c])@.len() <= MAX_COL by {
        assert(b.columns@[c]@.len() == a.columns@[c]@.len());
    }
}

/// `col` with the slots at `a` and `b` exchanged.
fn swapped(col: &Vec<LNode>, a: usize, b: usize) -> (out: Vec<LNode>)
    requires
        a < col@.len(),
        b < col@.len(),
    ensures
        out@ == col@.update(a as int, col@[b as int]).update(b as int, col@[a as int]),
{
    let mut out = col.clone();
    proof {
        assert(out@ =~= col@);
    }
    let x = col[a];
    let y = col[b];
    out.set(a, y);
    out.set(b, x);
    out
}

/// Whether two column orders are the same.
fn same_columns(a: &Vec<Vec<LNode>>, b: &Vec<Vec<LNode>>) -> (r: bool)
    ensures
        r == (cols_view(a@) == cols_view(b@)),
{
    if a.len() != b.len() {
        proof {
            assert(cols_view(a@).len() != cols_view(b@).len());
        }
        return false;
    }
    let mut c: usize = 0;
    while c < a.len()
        invariant
            c <= a@.len(),
            a@.len() == b@.len(),
            forall|x: int| 0 <= x < c ==> (#[trigger] a@[x])@ == b@[x]@,
        decreases a.len() - c,
    {
        let ca = &a[c];
        let cb = &b[c];
        if ca.len() != cb.len() {
            proof {
                assert(cols_view(a@)[c as int] == ca@);
                assert(cols_view(b@)[c as int] == cb@);
            }
            return false;
        }
        let mut k: usize = 0;
        let mut diff = false;
        while k < ca.len() && !diff
            invariant
                k <= ca@.len(),
                ca@.len() == cb@.len(),
                diff ==> k > 0 && ca@[k - 1] != cb@[k - 1],
                !diff ==> forall|j: int| 0 <= j < k ==> ca@[j] == cb@[j],
            decreases ca.len() - k,
        {
            if ca[k] != cb[k] {
                diff = true;
            }
            k += 1;
        }
        if diff {
            proof {
                assert(cols_view(a@)[c as int] == ca@);
                assert(cols_view(b@)[c as int] == cb@);
                assert(cols_view(a@)[c as int][k - 1] != cols_view(b@)[c as int][k - 1]);
            }
            return false;
        }
        proof {
            assert(ca@ =~= cb@);
        }
        c += 1;
    }
    proof {
        assert(cols_view(a@) =~= cols_view(b@));
    }
    true
}

/// The indices of `scores` by `key_before`, ties to the lower index.
fn ranked_indices(scores: &Vec<Score>) -> (out: Vec<usize>)
    ensures
        out@.len() == scores@.len(),
        forall|i: int| 0 <= i < out@.len() ==> #[trigger] out@[i] < scores@.len(),
{
    let mut out: Vec<usize> = Vec::new();
    let mut i: usize = 0;
    while i < scores.len()
        invariant
            i <= scores@.len(),
            out@.len() == i,
            forall|k: int| 0 <= k < out@.len() ==> #[trigger] out@[k] < i,
        decreases scores.len() - i,
    {
        let mut pos: usize = out.len();
        while pos > 0 && order_before(&scores[i], &scores[out[pos - 1]])
            invariant
                pos <= out@.len(),
                out@.len() == i,
                i < scores@.len(),
                forall|k: int| 0 <= k < out@.len() ==> #[trigger] out@[k] < i,
            decreases pos,
        {
            pos -= 1;
        }
        out.insert(pos, i);
        i += 1;
    }
    out
}

/// The layout of `g` drawn with this track rule: every column order the
/// sweeps propose previewed, the best refined by swapping neighbouring
/// cards while the preview improves, the best few built in full, the
/// lowest full score polished.
pub fn layout_with(g: &ViewGraph, opts: LayoutOptions, by_colour: bool) -> (out: Layout)
    requires
        small(g),
        opts.card_h <= MAX_CARD_H,
    ensures
        out.routes@.len() == g.edges@.len(),
        forall|i: int| 0 <= i < g.edges@.len() ==> #[trigger] route_ok(&out, g, opts.card_w as int, i),
        forall|k: int| 0 <= k < out.cards@.len() ==> (#[trigger] out.cards@[k]).x == out.col_x@[out.cards@[k].col as int],
        forall|i: int| 0 <= i < g.edges@.len() ==> (#[trigger] out.routes@[i]).colour == colours_spec(*g)[i],
        exists|rk: Seq<usize>, bk: Seq<bool>| #[trigger] rank_law(g, rk, bk) && spans_cols(rk, out.col_x@.len() as int),
{
    let colour = colours(g);
    let ranked = rank(g);
    let badges = badges_for(g, &colour);
    let mut heights: Vec<i32> = Vec::new();
    let mut v: usize = 0;
    while v < g.nodes.len()
        invariant
            v <= g.nodes@.len(),
            heights@.len() == v,
            opts.card_h <= MAX_CARD_H,
            heights_ok(heights@),
        decreases g.nodes.len() - v,
    {
        heights.push(opts.card_h as i32);
        v += 1;
    }
    let ctx = Ctx { g, ranked: &ranked, colours: &colour, badges: &badges, opts, heights: &heights, by_colour };
    let mut layered = layer(g, &ranked);
    let ghost first = layered;
    assert(ctx.layered_ok(&layered));
    let orders = orderings(&mut layered);
    proof {
        assert(permutes(layered.columns@, first.columns@));
        lemma_permutes_fits(&ctx, &first, layered.columns@);
        lemma_fits_ok(&ctx, &first, &layered);
        assert forall|i: int| 0 <= i < orders@.len() implies fits(g, (#[trigger] orders@[i])@, first.columns@) by {
            lemma_permutes_fits(&ctx, &first, orders@[i]@);
        }
    }
    let swap_search = layered.segments.len() <= SWAP_SEARCH_MAX_SEGMENTS;
    // Candidates, each with its preview when one was drawn.
    let mut cands: Vec<(Vec<Vec<LNode>>, Option<(Layout, Score)>)> = Vec::new();
    if orders.len() == 1 && !swap_search {
        let cols = copy_columns(&orders[0]);
        cands.push((cols, None));
    } else {
        let mut previews: Vec<(Layout, Score)> = Vec::new();
        let mut scores: Vec<Score> = Vec::new();
        let mut i: usize = 0;
        while i < orders.len()
            invariant
                i <= orders@.len(),
                ctx.ok(),
                ctx.g == g,
                ctx.layered_ok(&first),
                fits(g, layered.columns@, first.columns@),
                layered.segments == first.segments,
                layered.passes == first.passes,
                layered.out_deg == first.out_deg,
                layered.in_deg == first.in_deg,
                forall|x: int| 0 <= x < orders@.len() ==> fits(g, (#[trigger] orders@[x])@, first.columns@),
                forall|x: int| 0 <= x < cands@.len() ==> fits(g, (#[trigger] cands@[x]).0@, first.columns@),
                forall|x: int| 0 <= x < cands@.len() ==> pre_ok(&ctx, first.columns@.len() as int, (#[trigger] cands@[x]).1),
previews@.len() == i,
                scores@.len() == i,
                forall|x: int| 0 <= x < i ==> drawn_ok(&ctx, &(#[trigger] previews@[x]).0, &previews@[x].1),
                forall|x: int| 0 <= x < i ==> (#[trigger] previews@[x]).0.col_x@.len() == first.columns@.len(),
            decreases orders.len() - i,
        {
            layered.columns = copy_columns(&orders[i]);
            proof {
                lemma_fits_ok(&ctx, &first, &layered);
            }
            let (pl, ps) = preview(&ctx, &layered);
            scores.push(copy_score(&ps));
            previews.push((pl, ps));
            i += 1;
        }
        let keyed = ranked_indices(&scores);
        let i0 = keyed[0];
        let i1: Option<usize> = if keyed.len() > 1 && FULL_BUILDS > 1 { Some(keyed[1]) } else { None };
        let mut p0: Option<(Layout, Score)> = None;
        let mut p1: Option<(Layout, Score)> = None;
        while previews.len() > 0
            invariant
                ctx.ok(),
                forall|x: int| 0 <= x < previews@.len() ==> drawn_ok(&ctx, &(#[trigger] previews@[x]).0, &previews@[x].1),
                forall|x: int| 0 <= x < previews@.len() ==> (#[trigger] previews@[x]).0.col_x@.len() == first.columns@.len(),
                pre_ok(&ctx, first.columns@.len() as int, p0),
                pre_ok(&ctx, first.columns@.len() as int, p1),
            decreases previews.len(),
        {
            let p = previews.pop().unwrap();
            let idx = previews.len();
            if idx == i0 {
                p0 = Some(p);
            } else if i1 == Some(idx) {
                p1 = Some(p);
            }
        }
        cands.push((copy_columns(&orders[i0]), p0));
        if let Some(j1) = i1 {
            cands.push((copy_columns(&orders[j1]), p1));
        }
        if swap_search {
            let mut best_key = copy_score(&scores[i0]);
            let mut cols = copy_columns(&orders[i0]);
            let mut last: Option<(Layout, Score)> = None;
            let mut pass: usize = 0;
            while pass < SWAP_PASSES
                invariant
                ctx.ok(),
                ctx.g == g,
                ctx.layered_ok(&first),
                fits(g, layered.columns@, first.columns@),
                layered.segments == first.segments,
                layered.passes == first.passes,
                layered.out_deg == first.out_deg,
                layered.in_deg == first.in_deg,
                forall|x: int| 0 <= x < orders@.len() ==> fits(g, (#[trigger] orders@[x])@, first.columns@),
                forall|x: int| 0 <= x < cands@.len() ==> fits(g, (#[trigger] cands@[x]).0@, first.columns@),
                forall|x: int| 0 <= x < cands@.len() ==> pre_ok(&ctx, first.columns@.len() as int, (#[trigger] cands@[x]).1),
fits(g, cols@, first.columns@),
                    pre_ok(&ctx, first.columns@.len() as int, last),
                decreases SWAP_PASSES - pass,
            {
                let pairs = card_pairs(&cols);
                let ghost snap = cols@;
                let mut improved = false;
                let mut q: usize = 0;
                while q < pairs.len()
                    invariant
                ctx.ok(),
                ctx.g == g,
                ctx.layered_ok(&first),
                fits(g, layered.columns@, first.columns@),
                layered.segments == first.segments,
                layered.passes == first.passes,
                layered.out_deg == first.out_deg,
                layered.in_deg == first.in_deg,
                forall|x: int| 0 <= x < orders@.len() ==> fits(g, (#[trigger] orders@[x])@, first.columns@),
                forall|x: int| 0 <= x < cands@.len() ==> fits(g, (#[trigger] cands@[x]).0@, first.columns@),
                forall|x: int| 0 <= x < cands@.len() ==> pre_ok(&ctx, first.columns@.len() as int, (#[trigger] cands@[x]).1),
fits(g, cols@, first.columns@),
                        fits(g, snap, first.columns@),
                        forall|x: int| 0 <= x < pairs@.len() ==> crate::layout::order::adjacent_cards(snap, (#[trigger] pairs@[x]).0 as int, pairs@[x].1 as int, pairs@[x].2 as int),
                        pre_ok(&ctx, first.columns@.len() as int, last),
                    decreases pairs.len() - q,
                {
                    let (c, a, b) = pairs[q];
                    proof {
                        assert(crate::layout::order::adjacent_cards(snap, c as int, a as int, b as int));
                    }
                    let ghost before = cols@;
                    let sw = swapped(&cols[c], a, b);
                    cols.set(c, sw);
                    proof {
                        assert(lnode_ok(g, before[c as int]@[a as int]));
                        assert(lnode_ok(g, before[c as int]@[b as int]));
                        assert forall|x: int, j: int| 0 <= x < cols@.len() && 0 <= j < cols@[x]@.len() implies lnode_ok(g, #[trigger] cols@[x]@[j]) by {
                            if x != c {
                                assert(cols@[x] == before[x]);
                            }
                        }
                    }
                    layered.columns = copy_columns(&cols);
                    proof {
                        lemma_fits_ok(&ctx, &first, &layered);
                    }
                    let (pl, ps) = preview(&ctx, &layered);
                    if order_before(&ps, &best_key) {
                        best_key = copy_score(&ps);
                        improved = true;
                        last = Some((pl, ps));
                    } else {
                        let ghost before = cols@;
                        let back = swapped(&cols[c], a, b);
                        cols.set(c, back);
                        proof {
                            assert(lnode_ok(g, before[c as int]@[a as int]));
                            assert(lnode_ok(g, before[c as int]@[b as int]));
                            assert forall|x: int, j: int| 0 <= x < cols@.len() && 0 <= j < cols@[x]@.len() implies lnode_ok(g, #[trigger] cols@[x]@[j]) by {
                                if x != c {
                                    assert(cols@[x] == before[x]);
                                }
                            }
                        }
                    }
                    q += 1;
                }
                if !improved {
                    break;
                }
                pass += 1;
            }
            let mut dup = false;
            let mut x: usize = 0;
            while x < cands.len()
                invariant
                    x <= cands@.len(),
                decreases cands.len() - x,
            {
                if same_columns(&cands[x].0, &cols) {
                    dup = true;
                }
                x += 1;
            }
            if !dup {
                cands.push((cols, last));
            }
        }
    }
    let mut best: Option<(Score, Layout, Vec<Vec<LNode>>)> = None;
    while cands.len() > 0
        invariant
                ctx.ok(),
                ctx.g == g,
                ctx.layered_ok(&first),
                fits(g, layered.columns@, first.columns@),
                layered.segments == first.segments,
                layered.passes == first.passes,
                layered.out_deg == first.out_deg,
                layered.in_deg == first.in_deg,
                forall|x: int| 0 <= x < orders@.len() ==> fits(g, (#[trigger] orders@[x])@, first.columns@),
                forall|x: int| 0 <= x < cands@.len() ==> fits(g, (#[trigger] cands@[x]).0@, first.columns@),
                forall|x: int| 0 <= x < cands@.len() ==> pre_ok(&ctx, first.columns@.len() as int, (#[trigger] cands@[x]).1),
            best matches Some(b) ==> drawn_ok(&ctx, &b.1, &b.0) && fits(g, b.2@, first.columns@) && b.1.col_x@.len()
                == first.columns@.len(),
            cands@.len() == 0 ==> best is Some,
        decreases cands.len(),
    {
        let (cols, pre) = cands.remove(0);
        layered.columns = cols;
        proof {
            lemma_fits_ok(&ctx, &first, &layered);
        }
        let (lay, s) = build(&ctx, &layered, false, pre);
        let better = match &best {
            None => true,
            Some(b) => order_before(&s, &b.0),
        };
        if better {
            best = Some((s, lay, copy_columns(&layered.columns)));
        }
    }
    let (s, lay, cols) = best.unwrap();
    let out = polish(&ctx, &mut layered, Ghost(first), s, lay, cols);
    proof {
        assert(rank_law(g, ranked.rank@, ranked.back@));
        assert(spans_cols(ranked.rank@, out.col_x@.len() as int));
    }
    out
}

/// The winner once more with pass slots held open between stacked cards:
/// where its order puts them, then where the drawn rows say they belong.
/// Kept when that lowers the total without
/// raising either tier, or the height past the slots' allowance.
fn polish(ctx: &Ctx, layered: &mut Layered, Ghost(first): Ghost<Layered>, s: Score, layout: Layout, cols: Vec<Vec<LNode>>) -> (out: Layout)
    requires
        ctx.ok(),
        ctx.layered_ok(&first),
        fits(ctx.g, cols@, first.columns@),
        old(layered).segments == first.segments,
        old(layered).passes == first.passes,
        old(layered).out_deg == first.out_deg,
        old(layered).in_deg == first.in_deg,
        drawn_ok(ctx, &layout, &s),
        layout.col_x@.len() == first.columns@.len(),
    ensures
        out.routes@.len() == ctx.g.edges@.len(),
        forall|i: int| 0 <= i < ctx.g.edges@.len() ==> #[trigger] route_ok(&out, ctx.g, ctx.opts.card_w as int, i),
        forall|k: int| 0 <= k < out.cards@.len() ==> (#[trigger] out.cards@[k]).x == out.col_x@[out.cards@[k].col as int],
        forall|i: int| 0 <= i < ctx.g.edges@.len() ==> (#[trigger] out.routes@[i]).colour == ctx.colours@[i],
        out.col_x@.len() == first.columns@.len(),
{
    layered.columns = copy_columns(&cols);
    proof {
        lemma_fits_ok(ctx, &first, layered);
    }
    let reslotted = reslot(ctx.g, layered, &layout);
    proof {
        assert(fits(ctx.g, reslotted@, first.columns@)) by {
            assert forall|c: int| 0 <= c < reslotted@.len() implies (#[trigger] reslotted@[c])@.len() == first.columns@[c]@.len() by {
                assert(reslotted@[c]@.len() == layered.columns@[c]@.len());
                assert(layered.columns@[c]@.len() == cols@[c]@.len());
            }
        }
    }
    let mut best_s = s;
    let mut best = layout;
    let mut best_cols = copy_columns(&cols);
    let mut best_slots = false;
    let candidates: Vec<Vec<Vec<LNode>>> = vec![cols, reslotted];
    let mut tried: Vec<Vec<Vec<LNode>>> = Vec::new();
    let mut i: usize = 0;
    while i < candidates.len()
        invariant
            ctx.ok(),
            ctx.layered_ok(&first),
            forall|x: int| 0 <= x < candidates@.len() ==> fits(ctx.g, (#[trigger] candidates@[x])@, first.columns@),
            layered.segments == first.segments,
            layered.passes == first.passes,
            layered.out_deg == first.out_deg,
            layered.in_deg == first.in_deg,
            drawn_ok(ctx, &best, &best_s),
            best.col_x@.len() == first.columns@.len(),
            fits(ctx.g, best_cols@, first.columns@),
        decreases candidates.len() - i,
    {
        let cand = &candidates[i];
        let mut seen = false;
        let mut x: usize = 0;
        while x < tried.len()
            invariant
                x <= tried@.len(),
            decreases tried.len() - x,
        {
            if same_columns(&tried[x], cand) {
                seen = true;
            }
            x += 1;
        }
        proof {
            assert(fits(ctx.g, cand@, first.columns@));
            assert forall|c: int| 0 <= c < cand@.len() implies (#[trigger] cand@[c])@.len() <= MAX_COL by {
                assert(cand@[c]@.len() == first.columns@[c]@.len());
            }
        }
        if !seen && has_slots(cand) {
            tried.push(copy_columns(cand));
            layered.columns = copy_columns(cand);
            proof {
                lemma_fits_ok(ctx, &first, layered);
            }
            let (slotted, s2) = build(ctx, layered, true, None);
            if accept(&s2, &best_s, &best_s, slot_ceiling(best_s.height)) {
                best_s = s2;
                best = slotted;
                best_cols = copy_columns(cand);
                best_slots = true;
            }
        }
        i += 1;
    }
    layered.columns = best_cols;
    proof {
        lemma_fits_ok(ctx, &first, layered);
    }
    // Then the winner with each fan centred on its extremes.
    refine(ctx, layered, best_slots, best, best_s).0
}

} // verus!
