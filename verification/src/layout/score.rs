//! Numbers for what the eye judges: how many bends an edge has, where edges
//! share cells and whether that reads as a fork, a join, a crossing or an
//! accident, and how symmetric fan-outs and fan-ins are. Computed from the
//! layout alone by rasterising routes the way the painter does, so a test can
//! guard the drawing without a terminal.

use vstd::prelude::*;

use crate::layout::route::first_card;
use crate::layout::{CardPos, EdgeColour, EdgeId, GapPlan, Layout, MAX_EDGES, Route};
use crate::text::{push_all, push_str};
use crate::view::{NodeId, ViewGraph, dec, dec_wide, push_number, right, signed};

verus! {

/// Per-edge facts.
#[derive(Debug, Clone, PartialEq, Eq)]
pub struct EdgeScore {
    pub edge: EdgeId,
    pub back: bool,
    /// Columns crossed: 1 for neighbours, more for a skip.
    pub span: usize,
    /// Interior polyline points: 0 straight, 1 an L, 2 a Z or S.
    pub bends: usize,
    /// Bends this edge may have: 2 between neighbours, 4 for a skip (a Z at
    /// each end with a straight run across the columns it passes), 4 for a
    /// back edge.
    pub allowed: usize,
    /// Distinct runs of cells shared with another edge from the same source.
    pub forks: usize,
    /// Distinct runs of cells shared with another edge into the same target.
    pub joins: usize,
    /// Cells where this edge and an unrelated one pass straight through each other.
    pub crossings: usize,
    /// Cells shared with an unrelated edge that are not a clean crossing.
    pub overlaps: usize,
    /// Vertical cells travelled beyond the row difference (forward edges).
    pub detour: i32,
}

/// The layout's score. Lower is better everywhere; `total` is the weighted sum
/// the loop optimises, the rest are what a reader looks at.
#[derive(Debug, Clone, PartialEq, Eq)]
pub struct Score {
    pub edges: Vec<EdgeScore>,
    /// Forward edges between neighbouring columns with more than two bends.
    pub bends_over_fwd: usize,
    /// Skip edges with more than four bends.
    pub bends_over_skip: usize,
    /// Back edges with more than four bends.
    pub bends_over_back: usize,
    /// Edges with more than one fork run or more than one join run.
    pub junction_over: usize,
    pub overlaps: usize,
    pub crossings: usize,
    /// Σ over fan-outs and fan-ins of |rows above − rows below| the bus row.
    pub asymmetry: i32,
    pub detour: i32,
    /// Cells where two colours meet and the painter has to pick one.
    pub mixed_cells: usize,
    /// Widest gap minus narrowest gap.
    pub gap_spread: u16,
    /// Blank rows left between the runs that cross a column, summed over the
    /// columns. Zero when every set of parallel runs is one solid ribbon.
    pub scatter: usize,
    pub height: u16,
    pub width: u16,
    pub total: i64,
}

impl Score {
    /// The vocabulary tier: what must reach zero and stay there.
    pub fn vocabulary(&self) -> (v: [usize; 5])
        ensures
            v@ == seq![self.bends_over_fwd, self.bends_over_skip, self.bends_over_back, self.junction_over, self.overlaps],
    {
        let v = [self.bends_over_fwd, self.bends_over_skip, self.bends_over_back, self.junction_over, self.overlaps];
        assert(v@ =~= seq![self.bends_over_fwd, self.bends_over_skip, self.bends_over_back, self.junction_over, self.overlaps]);
        v
    }

    /// The soft tier: crossings, asymmetry and detour, pushed down, never
    /// locked. A crossing count past `i64` counts as a quarter of its range.
    pub fn soft(&self) -> (s: i64)
        requires
            self.crossings > i64::MAX || (self.crossings + self.asymmetry <= i64::MAX && self.crossings
                + self.asymmetry + self.detour <= i64::MAX),
        ensures
            s == soft_spec(self),
    {
        let c: i64 = if self.crossings as u64 > i64::MAX as u64 { i64::MAX / 4 } else { self.crossings as i64 };
        c + self.asymmetry as i64 + self.detour as i64
    }
}

pub open spec fn soft_spec(s: &Score) -> int {
    (if s.crossings > i64::MAX { i64::MAX / 4 } else { s.crossings as int }) + s.asymmetry + s.detour
}

pub const L: u8 = 1;
pub const R: u8 = 2;
pub const U: u8 = 4;
pub const D: u8 = 8;

/// Most a per-edge counter of shared cells counts to.
pub const MAX_COUNT: usize = 1048576;

/// `a` before `b`: by column, then row, then edge.
pub open spec fn cell_le(a: (i32, i32, u32, u8), b: (i32, i32, u32, u8)) -> bool {
    a.0 < b.0 || (a.0 == b.0 && (a.1 < b.1 || (a.1 == b.1 && (a.2 < b.2 || (a.2 == b.2 && a.3 <= b.3)))))
}

/// `slice::sort_unstable` on the raster entries: std documents that it sorts
/// ascending, by the tuples' lexicographic order, and keeps the elements.
#[verifier::external_body]
fn sort_cells(v: &mut Vec<(i32, i32, u32, u8)>)
    ensures
        final(v)@.to_multiset() == old(v)@.to_multiset(),
        final(v)@.len() == old(v)@.len(),
        forall|i: int, j: int| 0 <= i <= j < final(v)@.len() ==> cell_le(#[trigger] final(v)@[i], #[trigger] final(v)@[j]),
{
    v.sort_unstable();
}

/// Window `w` of `pts` passes cell `(x, y)`: along its row when both ends
/// share one, else down the column of its first end.
pub open spec fn on_window(pts: Seq<(i32, i32)>, w: int, x: int, y: int) -> bool {
    &&& 0 <= w
    &&& w + 1 < pts.len()
    &&& if pts[w].1 == pts[w + 1].1 {
        let (a, b) = if pts[w].0 < pts[w + 1].0 { (pts[w].0, pts[w + 1].0) } else { (pts[w + 1].0, pts[w].0) };
        y == pts[w].1 && a <= x <= b
    } else {
        let (a, b) = if pts[w].1 < pts[w + 1].1 { (pts[w].1, pts[w + 1].1) } else { (pts[w + 1].1, pts[w].1) };
        x == pts[w].0 && a <= y <= b
    }
}

/// Route `e` passes cell `(x, y)`.
pub open spec fn on_route(routes: Seq<Route>, e: int, x: int, y: int) -> bool {
    exists|w: int| #[trigger] on_window(routes[e].polyline@, w, x, y)
}

/// The sides of cell `(x, y)` window `w` of `pts` leaves by: left and
/// right along a row, up and down along a column, none past its ends.
pub open spec fn wbits(pts: Seq<(i32, i32)>, w: int, x: int, y: int) -> u8 {
    if pts[w].1 == pts[w + 1].1 {
        let (a, b) = if pts[w].0 < pts[w + 1].0 { (pts[w].0, pts[w + 1].0) } else { (pts[w + 1].0, pts[w].0) };
        (if x > a { L } else { 0u8 }) | (if x < b { R } else { 0u8 })
    } else {
        let (a, b) = if pts[w].1 < pts[w + 1].1 { (pts[w].1, pts[w + 1].1) } else { (pts[w + 1].1, pts[w].1) };
        (if y > a { U } else { 0u8 }) | (if y < b { D } else { 0u8 })
    }
}

/// The sides of cell `(x, y)` the first `n` windows of `pts` leave by.
pub open spec fn bits_upto(pts: Seq<(i32, i32)>, n: int, x: int, y: int) -> u8
    decreases n,
{
    if n <= 0 {
        0u8
    } else {
        bits_upto(pts, n - 1, x, y) | (if on_window(pts, n - 1, x, y) { wbits(pts, n - 1, x, y) } else { 0u8 })
    }
}

/// The sides of cell `(x, y)` route `e` leaves by, over all its windows.
pub open spec fn cell_bits(routes: Seq<Route>, e: int, x: int, y: int) -> u8 {
    let pts = routes[e].polyline@;
    bits_upto(pts, pts.len() - 1, x, y)
}

/// The sides route `r` leaves cell `(x, y)` by.
fn bits_of(r: &Route, x: i32, y: i32) -> (bits: u8)
    ensures
        bits == bits_upto(r.polyline@, r.polyline@.len() - 1, x as int, y as int),
{
    let pts = &r.polyline;
    let mut bits: u8 = 0;
    let mut w: usize = 0;
    while w < pts.len() && w + 1 < pts.len()
        invariant
            pts@ == r.polyline@,
            w <= pts@.len(),
            pts@.len() > 0 ==> w < pts@.len(),
            bits == bits_upto(pts@, w as int, x as int, y as int),
        decreases pts.len() - w,
    {
        let (x0, y0) = pts[w];
        let (x1, y1) = pts[w + 1];
        let wb: u8 = if y0 == y1 {
            let (a, b) = if x0 < x1 { (x0, x1) } else { (x1, x0) };
            if y == y0 && a <= x && x <= b {
                (if x > a { L } else { 0 }) | (if x < b { R } else { 0 })
            } else {
                0
            }
        } else {
            let (a, b) = if y0 < y1 { (y0, y1) } else { (y1, y0) };
            if x == x0 && a <= y && y <= b {
                (if y > a { U } else { 0 }) | (if y < b { D } else { 0 })
            } else {
                0
            }
        };
        proof {
            assert(wb == (if on_window(pts@, w as int, x as int, y as int) { wbits(pts@, w as int, x as int, y as int) } else { 0u8 }));
        }
        bits = bits | wb;
        w += 1;
    }
    proof {
        if pts@.len() == 0 {
            assert(bits_upto(pts@, -1, x as int, y as int) == 0u8);
        }
    }
    bits
}

/// The cell and edge of a raster entry.
pub open spec fn key_of(c: (i32, i32, u32, u8)) -> (i32, i32, u32) {
    (c.0, c.1, c.2)
}

/// Some entry of `s` is for edge `e` in cell `(x, y)`.
pub open spec fn has_key(s: Seq<(i32, i32, u32, u8)>, x: int, y: int, e: int) -> bool {
    exists|k: int| 0 <= k < s.len() && #[trigger] s[k].0 == x && s[k].1 == y && s[k].2 == e
}

/// `a` before `b` by cell, then edge.
pub open spec fn key_lt(a: (i32, i32, u32, u8), b: (i32, i32, u32, u8)) -> bool {
    a.0 < b.0 || (a.0 == b.0 && (a.1 < b.1 || (a.1 == b.1 && a.2 < b.2)))
}

/// Every cell an edge passes, with the sides of it the edge leaves by.
fn raster(routes: &Vec<Route>) -> (cells: Vec<(i32, i32, u32, u8)>)
    requires
        routes@.len() <= MAX_EDGES,
    ensures
        forall|i: int| 0 <= i < cells@.len() ==> (#[trigger] cells@[i]).2 < routes@.len(),
        forall|i: int| 0 <= i < cells@.len() ==> on_route(routes@, (#[trigger] cells@[i]).2 as int, cells@[i].0 as int, cells@[i].1 as int),
        forall|e: int, w: int, x: int, y: int|
            0 <= e < routes@.len() && #[trigger] on_window(routes@[e].polyline@, w, x, y) ==> has_key(cells@, x, y, e),
        forall|i: int, j: int| 0 <= i < j < cells@.len() ==> key_lt(cells@[i], cells@[j]),
        forall|i: int|
            0 <= i < cells@.len() ==> (#[trigger] cells@[i]).3 == cell_bits(routes@, cells@[i].2 as int, cells@[i].0 as int, cells@[i].1 as int),
{
    let mut raw: Vec<(i32, i32, u32, u8)> = Vec::new();
    let mut ei: usize = 0;
    while ei < routes.len()
        invariant
            ei <= routes@.len(),
            routes@.len() <= MAX_EDGES,
            forall|i: int| 0 <= i < raw@.len() ==> (#[trigger] raw@[i]).2 < ei,
            forall|i: int| 0 <= i < raw@.len() ==> on_route(routes@, (#[trigger] raw@[i]).2 as int, raw@[i].0 as int, raw@[i].1 as int),
            forall|e: int, w: int, x: int, y: int| 0 <= e < ei && #[trigger] on_window(routes@[e].polyline@, w, x, y) ==> has_key(raw@, x, y, e),
        decreases routes.len() - ei,
    {
        let pts = &routes[ei].polyline;
        let mut w: usize = 0;
        while w < pts.len() && w + 1 < pts.len()
            invariant
                w <= pts@.len(),
                ei < routes@.len(),
                routes@.len() <= MAX_EDGES,
                pts@ == routes@[ei as int].polyline@,
                forall|i: int| 0 <= i < raw@.len() ==> (#[trigger] raw@[i]).2 < ei + 1,
                forall|i: int| 0 <= i < raw@.len() ==> on_route(routes@, (#[trigger] raw@[i]).2 as int, raw@[i].0 as int, raw@[i].1 as int),
                forall|e: int, v: int, x: int, y: int| 0 <= e < ei && #[trigger] on_window(routes@[e].polyline@, v, x, y) ==> has_key(raw@, x, y, e),
                forall|v: int, x: int, y: int| 0 <= v < w && #[trigger] on_window(pts@, v, x, y) ==> has_key(raw@, x, y, ei as int),
            decreases pts.len() - w,
        {
            let (x0, y0) = pts[w];
            let (x1, y1) = pts[w + 1];
            if y0 == y1 {
                let (a, b) = if x0 < x1 { (x0, x1) } else { (x1, x0) };
                let mut x = a;
                loop
                    invariant_except_break
                        forall|xx: int| a <= xx < x ==> has_key(raw@, xx, y0 as int, ei as int),
                    invariant
                        a <= x <= b,
                        ei < routes@.len(),
                        routes@.len() <= MAX_EDGES,
                        w + 1 < pts@.len(),
                        pts@ == routes@[ei as int].polyline@,
                        pts@[w as int] == (x0, y0),
                        pts@[w + 1] == (x1, y1),
                        y0 == y1,
                        a == (if x0 < x1 { x0 } else { x1 }),
                        b == (if x0 < x1 { x1 } else { x0 }),
                        forall|i: int| 0 <= i < raw@.len() ==> (#[trigger] raw@[i]).2 < ei + 1,
                        forall|i: int| 0 <= i < raw@.len() ==> on_route(routes@, (#[trigger] raw@[i]).2 as int, raw@[i].0 as int, raw@[i].1 as int),
                        forall|e: int, v: int, xx: int, y: int| 0 <= e < ei && #[trigger] on_window(routes@[e].polyline@, v, xx, y) ==> has_key(raw@, xx, y, e),
                        forall|v: int, xx: int, y: int| 0 <= v < w && #[trigger] on_window(pts@, v, xx, y) ==> has_key(raw@, xx, y, ei as int),
                    ensures
                        forall|xx: int| a <= xx <= b ==> has_key(raw@, xx, y0 as int, ei as int),
                        forall|i: int| 0 <= i < raw@.len() ==> (#[trigger] raw@[i]).2 < ei + 1,
                        forall|i: int| 0 <= i < raw@.len() ==> on_route(routes@, (#[trigger] raw@[i]).2 as int, raw@[i].0 as int, raw@[i].1 as int),
                        forall|e: int, v: int, xx: int, y: int| 0 <= e < ei && #[trigger] on_window(routes@[e].polyline@, v, xx, y) ==> has_key(raw@, xx, y, e),
                        forall|v: int, xx: int, y: int| 0 <= v < w && #[trigger] on_window(pts@, v, xx, y) ==> has_key(raw@, xx, y, ei as int),
                    decreases b - x,
                {
                    let bits: u8 = (if x > a { L } else { 0 }) | (if x < b { R } else { 0 });
                    let ghost r0 = raw@;
                    raw.push((x, y0, ei as u32, bits));
                    proof {
                        lemma_has_key_push(r0, (x, y0, ei as u32, bits));
                        assert(on_window(routes@[ei as int].polyline@, w as int, x as int, y0 as int));
                        assert forall|xx: int| a <= xx <= x implies has_key(raw@, xx, y0 as int, ei as int) by {
                            if xx < x {
                                assert(has_key(r0, xx, y0 as int, ei as int));
                            }
                        }
                    }
                    if x == b {
                        break;
                    }
                    x += 1;
                }
            } else {
                let (a, b) = if y0 < y1 { (y0, y1) } else { (y1, y0) };
                let mut y = a;
                loop
                    invariant_except_break
                        forall|yy: int| a <= yy < y ==> has_key(raw@, x0 as int, yy, ei as int),
                    invariant
                        a <= y <= b,
                        ei < routes@.len(),
                        routes@.len() <= MAX_EDGES,
                        w + 1 < pts@.len(),
                        pts@ == routes@[ei as int].polyline@,
                        pts@[w as int] == (x0, y0),
                        pts@[w + 1] == (x1, y1),
                        y0 != y1,
                        a == (if y0 < y1 { y0 } else { y1 }),
                        b == (if y0 < y1 { y1 } else { y0 }),
                        forall|i: int| 0 <= i < raw@.len() ==> (#[trigger] raw@[i]).2 < ei + 1,
                        forall|i: int| 0 <= i < raw@.len() ==> on_route(routes@, (#[trigger] raw@[i]).2 as int, raw@[i].0 as int, raw@[i].1 as int),
                        forall|e: int, v: int, xx: int, yy: int| 0 <= e < ei && #[trigger] on_window(routes@[e].polyline@, v, xx, yy) ==> has_key(raw@, xx, yy, e),
                        forall|v: int, xx: int, yy: int| 0 <= v < w && #[trigger] on_window(pts@, v, xx, yy) ==> has_key(raw@, xx, yy, ei as int),
                    ensures
                        forall|yy: int| a <= yy <= b ==> has_key(raw@, x0 as int, yy, ei as int),
                        forall|i: int| 0 <= i < raw@.len() ==> (#[trigger] raw@[i]).2 < ei + 1,
                        forall|i: int| 0 <= i < raw@.len() ==> on_route(routes@, (#[trigger] raw@[i]).2 as int, raw@[i].0 as int, raw@[i].1 as int),
                        forall|e: int, v: int, xx: int, yy: int| 0 <= e < ei && #[trigger] on_window(routes@[e].polyline@, v, xx, yy) ==> has_key(raw@, xx, yy, e),
                        forall|v: int, xx: int, yy: int| 0 <= v < w && #[trigger] on_window(pts@, v, xx, yy) ==> has_key(raw@, xx, yy, ei as int),
                    decreases b - y,
                {
                    let bits: u8 = (if y > a { U } else { 0 }) | (if y < b { D } else { 0 });
                    let ghost r0 = raw@;
                    raw.push((x0, y, ei as u32, bits));
                    proof {
                        lemma_has_key_push(r0, (x0, y, ei as u32, bits));
                        assert(on_window(routes@[ei as int].polyline@, w as int, x0 as int, y as int));
                        assert forall|yy: int| a <= yy <= y implies has_key(raw@, x0 as int, yy, ei as int) by {
                            if yy < y {
                                assert(has_key(r0, x0 as int, yy, ei as int));
                            }
                        }
                    }
                    if y == b {
                        break;
                    }
                    y += 1;
                }
            }
            proof {
                assert forall|v: int, xx: int, yy: int| 0 <= v < w + 1 && #[trigger] on_window(pts@, v, xx, yy) implies has_key(raw@, xx, yy, ei as int) by {
                    if v == w {
                        if y0 == y1 {
                            assert(yy == y0);
                        } else {
                            assert(xx == x0);
                        }
                    }
                }
            }
            w += 1;
        }
        proof {
            assert forall|e: int, v: int, x: int, y: int| 0 <= e < ei + 1 && #[trigger] on_window(routes@[e].polyline@, v, x, y) implies has_key(raw@, x, y, e) by {
                if e == ei {
                    assert(on_window(pts@, v, x, y));
                }
            }
        }
        ei += 1;
    }
    let ghost before = raw@;
    sort_cells(&mut raw);
    proof {
        assert forall|i: int| 0 <= i < raw@.len() implies (#[trigger] raw@[i]).2 < routes@.len() && on_route(
            routes@,
            raw@[i].2 as int,
            raw@[i].0 as int,
            raw@[i].1 as int,
        ) by {
            vstd::seq_lib::to_multiset_contains(raw@, raw@[i]);
            vstd::seq_lib::to_multiset_contains(before, raw@[i]);
            assert(raw@.contains(raw@[i]));
            let k = choose|k: int| 0 <= k < before.len() && before[k] == raw@[i];
        }
        assert forall|x: int, y: int, e: int| has_key(before, x, y, e) implies has_key(raw@, x, y, e) by {
            let k = choose|k: int| 0 <= k < before.len() && #[trigger] before[k].0 == x && before[k].1 == y && before[k].2 == e;
            vstd::seq_lib::to_multiset_contains(before, before[k]);
            assert(before.contains(before[k]));
            vstd::seq_lib::to_multiset_contains(raw@, before[k]);
            let j = choose|j: int| 0 <= j < raw@.len() && raw@[j] == before[k];
            assert(raw@[j].0 == x && raw@[j].1 == y && raw@[j].2 == e);
        }
    }
    // One entry per edge and cell: the sides it leaves by, together.
    let mut cells: Vec<(i32, i32, u32, u8)> = Vec::new();
    let mut i: usize = 0;
    while i < raw.len()
        invariant
            i <= raw@.len(),
            forall|k: int| 0 <= k < raw@.len() ==> (#[trigger] raw@[k]).2 < routes@.len(),
            forall|k: int| 0 <= k < raw@.len() ==> on_route(routes@, (#[trigger] raw@[k]).2 as int, raw@[k].0 as int, raw@[k].1 as int),
            forall|p: int, q: int| 0 <= p <= q < raw@.len() ==> cell_le(#[trigger] raw@[p], #[trigger] raw@[q]),
            forall|k: int| 0 <= k < cells@.len() ==> (#[trigger] cells@[k]).2 < routes@.len(),
            forall|k: int| 0 <= k < cells@.len() ==> on_route(routes@, (#[trigger] cells@[k]).2 as int, cells@[k].0 as int, cells@[k].1 as int),
            forall|k: int| 0 <= k < i ==> has_key(cells@, (#[trigger] raw@[k]).0 as int, raw@[k].1 as int, raw@[k].2 as int),
            forall|p: int, q: int| 0 <= p < q < cells@.len() ==> key_lt(cells@[p], cells@[q]),
            i > 0 ==> cells@.len() > 0 && key_of(cells@.last()) == key_of(raw@[i - 1]),
            i == 0 ==> cells@.len() == 0,
        decreases raw.len() - i,
    {
        let c = raw[i];
        let n = cells.len();
        let ghost c0 = cells@;
        if n > 0 && cells[n - 1].0 == c.0 && cells[n - 1].1 == c.1 && cells[n - 1].2 == c.2 {
            let last = cells[n - 1];
            cells.set(n - 1, (last.0, last.1, last.2, last.3 | c.3));
            proof {
                assert forall|x: int, y: int, e: int| has_key(c0, x, y, e) implies has_key(cells@, x, y, e) by {
                    let k = choose|k: int| 0 <= k < c0.len() && #[trigger] c0[k].0 == x && c0[k].1 == y && c0[k].2 == e;
                    assert(cells@[k].0 == x && cells@[k].1 == y && cells@[k].2 == e);
                }
                assert(cells@[n - 1].0 == c.0 && cells@[n - 1].1 == c.1 && cells@[n - 1].2 == c.2);
                assert(has_key(cells@, c.0 as int, c.1 as int, c.2 as int));
                assert forall|p: int, q: int| 0 <= p < q < cells@.len() implies key_lt(cells@[p], cells@[q]) by {
                    assert(key_lt(c0[p], c0[q]));
                }
            }
        } else {
            cells.push(c);
            proof {
                lemma_has_key_push(c0, c);
                if n > 0 {
                    assert(cell_le(raw@[i - 1], raw@[i as int]));
                    assert(key_lt(c0[n - 1], c));
                }
                assert forall|p: int, q: int| 0 <= p < q < cells@.len() implies key_lt(cells@[p], cells@[q]) by {
                    if q == n {
                        if p < n - 1 {
                            assert(key_lt(c0[p], c0[n - 1]));
                        }
                    } else {
                        assert(key_lt(c0[p], c0[q]));
                    }
                }
            }
        }
        i += 1;
    }
    proof {
        assert forall|e: int, w: int, x: int, y: int|
            0 <= e < routes@.len() && #[trigger] on_window(routes@[e].polyline@, w, x, y) implies has_key(cells@, x, y, e) by {
            assert(has_key(before, x, y, e));
            assert(has_key(raw@, x, y, e));
            let k = choose|k: int| 0 <= k < raw@.len() && #[trigger] raw@[k].0 == x && raw@[k].1 == y && raw@[k].2 == e;
            assert(has_key(cells@, raw@[k].0 as int, raw@[k].1 as int, raw@[k].2 as int));
        }
    }
    // Each entry's sides, from every window of its route through the cell.
    let mut out: Vec<(i32, i32, u32, u8)> = Vec::new();
    let mut i: usize = 0;
    while i < cells.len()
        invariant
            i <= cells@.len(),
            out@.len() == i,
            forall|k: int| 0 <= k < cells@.len() ==> (#[trigger] cells@[k]).2 < routes@.len(),
            forall|k: int|
                0 <= k < i ==> (#[trigger] out@[k]).0 == cells@[k].0 && out@[k].1 == cells@[k].1 && out@[k].2 == cells@[k].2
                    && out@[k].3 == cell_bits(routes@, cells@[k].2 as int, cells@[k].0 as int, cells@[k].1 as int),
        decreases cells.len() - i,
    {
        let c = cells[i];
        let bits = bits_of(&routes[c.2 as usize], c.0, c.1);
        out.push((c.0, c.1, c.2, bits));
        i += 1;
    }
    proof {
        assert forall|x: int, y: int, e: int| has_key(cells@, x, y, e) implies has_key(out@, x, y, e) by {
            let k = choose|k: int| 0 <= k < cells@.len() && #[trigger] cells@[k].0 == x && cells@[k].1 == y && cells@[k].2 == e;
            assert(out@[k].0 == x && out@[k].1 == y && out@[k].2 == e);
        }
        assert forall|p: int, q: int| 0 <= p < q < out@.len() implies key_lt(out@[p], out@[q]) by {
            assert(key_lt(cells@[p], cells@[q]));
        }
        assert forall|k: int| 0 <= k < out@.len() implies on_route(routes@, (#[trigger] out@[k]).2 as int, out@[k].0 as int, out@[k].1 as int) by {
            assert(on_route(routes@, cells@[k].2 as int, cells@[k].0 as int, cells@[k].1 as int));
        }
    }
    out
}

proof fn lemma_has_key_push(s: Seq<(i32, i32, u32, u8)>, c: (i32, i32, u32, u8))
    ensures
        forall|x: int, y: int, e: int| has_key(s, x, y, e) ==> has_key(s.push(c), x, y, e),
        has_key(s.push(c), c.0 as int, c.1 as int, c.2 as int),
{
    assert forall|x: int, y: int, e: int| has_key(s, x, y, e) implies has_key(s.push(c), x, y, e) by {
        let k = choose|k: int| 0 <= k < s.len() && #[trigger] s[k].0 == x && s[k].1 == y && s[k].2 == e;
        assert(s.push(c)[k] == s[k]);
    }
    assert(s.push(c)[s.len() as int] == c);
}

/// A cell run straight across, left to right.
fn straight_h(bits: u8) -> (r: bool)
    ensures
        r == (bits == 3),
{
    assert(L | R == 3u8) by (bit_vector);
    bits == L | R
}

/// A cell run straight through, top to bottom.
fn straight_v(bits: u8) -> (r: bool)
    ensures
        r == (bits == 12),
{
    assert(U | D == 12u8) by (bit_vector);
    bits == U | D
}

/// `s` holds `p`.
fn holds(s: &Vec<(i32, i32)>, p: (i32, i32)) -> (r: bool)
    ensures
        r == s@.contains(p),
{
    let mut i: usize = 0;
    while i < s.len()
        invariant
            i <= s@.len(),
            forall|k: int| 0 <= k < i ==> s@[k] != p,
        decreases s.len() - i,
    {
        if s[i].0 == p.0 && s[i].1 == p.1 {
            return true;
        }
        i += 1;
    }
    false
}

fn add_cell(s: &mut Vec<(i32, i32)>, p: (i32, i32))
    ensures
        final(s)@.contains(p),
        forall|q: (i32, i32)| old(s)@.contains(q) ==> final(s)@.contains(q),
        final(s)@.len() <= old(s)@.len() + 1,
{
    if !holds(s, p) {
        s.push(p);
        proof {
            assert(s@[s@.len() - 1] == p);
            assert forall|q: (i32, i32)| old(s)@.contains(q) implies s@.contains(q) by {
                let k = choose|k: int| 0 <= k < old(s)@.len() && old(s)@[k] == q;
                assert(s@[k] == q);
            }
        }
    }
}

/// Number of 4-connected components in a set of cells.
pub fn components(cells: &Vec<(i32, i32)>) -> (n: usize)
    ensures
        n <= cells@.len(),
        cells@.len() > 0 ==> n >= 1,
{
    let len = cells.len();
    let mut seen: Vec<bool> = Vec::new();
    let mut i: usize = 0;
    while i < len
        invariant
            i <= len,
            seen@.len() == i,
            forall|k: int| 0 <= k < i ==> !(#[trigger] seen@[k]),
        decreases len - i,
    {
        seen.push(false);
        i += 1;
    }
    let mut n: usize = 0;
    let mut start: usize = 0;
    let ghost mut marked: nat = 0;
    while start < len
        invariant
            start <= len,
            len == cells@.len(),
            seen@.len() == len,
            n <= start,
            start > 0 ==> n >= 1,
            n == 0 ==> forall|k: int| 0 <= k < len ==> !(#[trigger] seen@[k]),
        decreases len - start,
    {
        if !seen[start] {
            n += 1;
            seen.set(start, true);
            let mut stack: Vec<usize> = Vec::new();
            stack.push(start);
            let mut budget: usize = len;
            while stack.len() > 0 && budget > 0
                invariant
                    seen@.len() == len,
                    len == cells@.len(),
                    forall|k: int| 0 <= k < stack@.len() ==> #[trigger] stack@[k] < len,
                decreases budget,
            {
                budget -= 1;
                let top = stack.len() - 1;
                let at = stack[top];
                stack.pop();
                let (x, y) = cells[at];
                let mut j: usize = 0;
                while j < len
                    invariant
                        j <= len,
                        seen@.len() == len,
                        len == cells@.len(),
                        forall|k: int| 0 <= k < stack@.len() ==> #[trigger] stack@[k] < len,
                    decreases len - j,
                {
                    let (a, b) = cells[j];
                    let adjacent = (a as i64 == x as i64 + 1 && b == y) || (a as i64 == x as i64 - 1 && b == y) || (a == x
                        && b as i64 == y as i64 + 1) || (a == x && b as i64 == y as i64 - 1);
                    if adjacent && !seen[j] {
                        seen.set(j, true);
                        stack.push(j);
                    }
                    j += 1;
                }
            }
        }
        start += 1;
    }
    n
}

/// Whether an edge is drawn backwards, and how many columns it crosses.
pub open spec fn span_spec(l: &Layout, g: &ViewGraph, i: int) -> (bool, int) {
    let e = g.edges@[i];
    match (first_card(l.cards@, e.from.0 as int), first_card(l.cards@, e.to.0 as int)) {
        (Some(f), Some(t)) => (
            t.col <= f.col,
            if t.col as int - f.col as int > 1 { t.col as int - f.col as int } else if f.col as int - t.col as int
                > 1 { f.col as int - t.col as int } else { 1 },
        ),
        _ => (false, 1),
    }
}

pub open spec fn over_fwd(e: EdgeScore) -> bool {
    !e.back && e.span == 1 && e.bends > e.allowed
}

pub open spec fn over_skip(e: EdgeScore) -> bool {
    !e.back && e.span > 1 && e.bends > e.allowed
}

pub open spec fn over_back(e: EdgeScore) -> bool {
    e.back && e.bends > e.allowed
}

pub open spec fn over_junction(e: EdgeScore) -> bool {
    e.forks > 1 || e.joins > 1
}

/// How many of `es` meet `p`.
pub open spec fn count(es: Seq<EdgeScore>, p: spec_fn(EdgeScore) -> bool) -> nat
    decreases es.len(),
{
    if es.len() == 0 {
        0
    } else {
        count(es.drop_last(), p) + if p(es.last()) { 1nat } else { 0nat }
    }
}

pub open spec fn sum_overlaps(es: Seq<EdgeScore>) -> nat
    decreases es.len(),
{
    if es.len() == 0 { 0 } else { sum_overlaps(es.drop_last()) + es.last().overlaps as nat }
}

pub open spec fn sum_crossings(es: Seq<EdgeScore>) -> nat
    decreases es.len(),
{
    if es.len() == 0 { 0 } else { sum_crossings(es.drop_last()) + es.last().crossings as nat }
}

pub open spec fn sum_detour(es: Seq<EdgeScore>) -> int
    decreases es.len(),
{
    if es.len() == 0 { 0 } else { sum_detour(es.drop_last()) + es.last().detour }
}

/// The sum of the counters.
pub open spec fn usum(s: Seq<usize>) -> int
    decreases s.len(),
{
    if s.len() == 0 { 0 } else { usum(s.drop_last()) + s.last() }
}

/// Every counter below its cap, so each pair of edges was counted on both.
pub open spec fn unsaturated(s: Seq<usize>) -> bool {
    forall|k: int| 0 <= k < s.len() ==> #[trigger] s[k] < MAX_COUNT
}

/// Every per-edge count below its cap.
pub open spec fn edges_unsaturated(es: Seq<EdgeScore>) -> bool {
    forall|k: int| 0 <= k < es.len() ==> (#[trigger] es[k]).crossings < MAX_COUNT && es[k].overlaps < MAX_COUNT
}

proof fn lemma_usum_update(s: Seq<usize>, i: int, x: usize)
    requires
        0 <= i < s.len(),
    ensures
        usum(s.update(i, x)) == usum(s) - s[i] + x,
    decreases s.len(),
{
    let t = s.update(i, x);
    if i < s.len() - 1 {
        lemma_usum_update(s.drop_last(), i, x);
        assert(t.drop_last() =~= s.drop_last().update(i, x));
    } else {
        assert(t.drop_last() =~= s.drop_last());
    }
}

proof fn lemma_sums_match(es: Seq<EdgeScore>, cs: Seq<usize>, os: Seq<usize>)
    requires
        es.len() == cs.len(),
        es.len() == os.len(),
        forall|k: int| 0 <= k < es.len() ==> (#[trigger] es[k]).crossings == cs[k] && es[k].overlaps == os[k],
    ensures
        sum_crossings(es) == usum(cs),
        sum_overlaps(es) == usum(os),
    decreases es.len(),
{
    if es.len() > 0 {
        lemma_sums_match(es.drop_last(), cs.drop_last(), os.drop_last());
    }
}

/// Counting one more pair on two different edges keeps the sum even while
/// no counter reaches its cap.
proof fn lemma_pair_parity(s: Seq<usize>, a: int, b: int, xa: usize, xb: usize)
    requires
        0 <= a < s.len(),
        0 <= b < s.len(),
        a != b,
        s[a] <= MAX_COUNT,
        s[b] <= MAX_COUNT,
        xa == if s[a] < MAX_COUNT { s[a] + 1 } else { s[a] as int },
        xb == if s.update(a, xa)[b] < MAX_COUNT { s.update(a, xa)[b] + 1 } else { s.update(a, xa)[b] as int },
        unsaturated(s) ==> usum(s) % 2 == 0,
    ensures
        unsaturated(s.update(a, xa).update(b, xb)) ==> usum(s.update(a, xa).update(b, xb)) % 2 == 0,
{
    let s1 = s.update(a, xa);
    let s2 = s1.update(b, xb);
    lemma_usum_update(s, a, xa);
    lemma_usum_update(s1, b, xb);
    if unsaturated(s2) {
        assert(s2[a] < MAX_COUNT);
        assert(s2[b] < MAX_COUNT);
        assert forall|k: int| 0 <= k < s.len() implies #[trigger] s[k] < MAX_COUNT by {
            if k != a && k != b {
                assert(s2[k] == s[k]);
            }
        }
    }
}

/// Two routes of different colours pass cell `(x, y)`.
pub open spec fn mixed_at(routes: Seq<Route>, x: int, y: int) -> bool {
    exists|e1: int, e2: int|
        0 <= e1 < routes.len() && 0 <= e2 < routes.len() && #[trigger] on_route(routes, e1, x, y) && #[trigger] on_route(
            routes,
            e2,
            x,
            y,
        ) && routes[e1].colour != routes[e2].colour
}

/// The cells where two colours meet.
pub open spec fn mixed_set(routes: Seq<Route>) -> Set<(int, int)> {
    Set::new(|p: (int, int)| mixed_at(routes, p.0, p.1))
}

/// Cell of `a` before the cell of `b`, by column then row.
pub open spec fn pos_lt(a: (i32, i32, u32, u8), b: (i32, i32, u32, u8)) -> bool {
    a.0 < b.0 || (a.0 == b.0 && a.1 < b.1)
}

/// Every entry for the cell starting at `start` sits in `start..end`.
proof fn lemma_group(cells: Seq<(i32, i32, u32, u8)>, start: int, end: int, q: int)
    requires
        0 <= start < end <= cells.len(),
        forall|i: int, j: int| 0 <= i < j < cells.len() ==> key_lt(cells[i], cells[j]),
        forall|r: int| start <= r < end ==> (#[trigger] cells[r]).0 == cells[start].0 && cells[r].1 == cells[start].1,
        forall|r: int| 0 <= r < start ==> pos_lt(#[trigger] cells[r], cells[start]),
        end == cells.len() || cells[end].0 != cells[start].0 || cells[end].1 != cells[start].1,
        0 <= q < cells.len(),
        cells[q].0 == cells[start].0,
        cells[q].1 == cells[start].1,
    ensures
        start <= q < end,
{
    if q >= end {
        assert(key_lt(cells[end - 1], cells[end]));
        if q > end {
            assert(key_lt(cells[end], cells[q]));
        }
    }
}

/// Some of the first `n` entries is in cell `p`.
pub open spec fn seen_cell(cells: Seq<(i32, i32, u32, u8)>, n: int, p: (int, int)) -> bool {
    exists|q: int| 0 <= q < n && (#[trigger] cells[q]).0 == p.0 && cells[q].1 == p.1
}

/// Route `e` and another route `t.2` both pass cell `(t.0, t.1)`.
pub open spec fn shares(routes: Seq<Route>, e: int, t: (int, int, int)) -> bool {
    &&& 0 <= t.2 < routes.len()
    &&& t.2 != e
    &&& on_route(routes, e, t.0, t.1)
    &&& on_route(routes, t.2, t.0, t.1)
}

/// In cell `(t.0, t.1)` one of routes `e` and `t.2` runs straight across and
/// the other straight down: a clean crossing.
pub open spec fn crosses(routes: Seq<Route>, e: int, t: (int, int, int)) -> bool {
    let a = cell_bits(routes, e, t.0, t.1);
    let b = cell_bits(routes, t.2, t.0, t.1);
    (a == 3 && b == 12) || (a == 12 && b == 3)
}

/// Edges with neither source nor target in common.
pub open spec fn unrelated(g: &ViewGraph, e: int, f: int) -> bool {
    g.edges@[e].from != g.edges@[f].from && g.edges@[e].to != g.edges@[f].to
}

/// The cells, each with the other route, where route `e` crosses another.
pub open spec fn crossing_set(routes: Seq<Route>, e: int) -> Set<(int, int, int)> {
    Set::new(|t: (int, int, int)| shares(routes, e, t) && crosses(routes, e, t))
}

/// The cells, each with the other route, where route `e` shares a cell with
/// the route of an unrelated edge without crossing it cleanly.
pub open spec fn overlap_set(g: &ViewGraph, routes: Seq<Route>, e: int) -> Set<(int, int, int)> {
    Set::new(|t: (int, int, int)| shares(routes, e, t) && !crosses(routes, e, t) && unrelated(g, e, t.2))
}

/// Edge `e`'s crossing and overlap counts are its sets' sizes, capped.
pub open spec fn per_edge_exact(g: &ViewGraph, l: &Layout, es: EdgeScore, e: int) -> bool {
    &&& crossing_set(l.routes@, e).finite()
    &&& overlap_set(g, l.routes@, e).finite()
    &&& es.crossings == capped(crossing_set(l.routes@, e).len())
    &&& es.overlaps == capped(overlap_set(g, l.routes@, e).len())
}

/// Sharing a cell is mutual: route `e` crosses, or overlaps, route `f` in
/// a cell exactly when `f` crosses, or overlaps, `e` there.
pub proof fn lemma_shared_cells_mutual(g: &ViewGraph, routes: Seq<Route>, e: int, f: int, x: int, y: int)
    requires
        0 <= e < routes.len(),
        0 <= f < routes.len(),
    ensures
        crossing_set(routes, e).contains((x, y, f)) == crossing_set(routes, f).contains((x, y, e)),
        overlap_set(g, routes, e).contains((x, y, f)) == overlap_set(g, routes, f).contains((x, y, e)),
{
}

/// A count stopped at `MAX_COUNT`.
pub open spec fn capped(n: nat) -> int {
    if n < MAX_COUNT { n as int } else { MAX_COUNT as int }
}

/// The members of `c` in the first `n` entries' cells.
#[verifier::opaque]
pub open spec fn part(c: Set<(int, int, int)>, cells: Seq<(i32, i32, u32, u8)>, n: int) -> Set<(int, int, int)> {
    Set::new(|t: (int, int, int)| c.contains(t) && seen_cell(cells, n, (t.0, t.1)))
}

/// The entry of the cell `start..end` for route `f`.
pub open spec fn gidx(cells: Seq<(i32, i32, u32, u8)>, start: int, end: int, f: int) -> int {
    choose|q: int| start <= q < end && cells[q].2 == f
}

/// The pair of entries `i`, `j` comes before `(a, b)` in the order the pairs
/// of a cell are visited.
pub open spec fn pair_done(a: int, b: int, i: int, j: int) -> bool {
    (i < j && (i < a || (i == a && j < b))) || (j < i && (j < a || (j == a && i < b)))
}

/// The members of `c` (the set of route `e`) in earlier cells, and in the
/// cell at `start` those whose pair of entries was visited before `(a, b)`.
#[verifier::opaque]
pub open spec fn done_set(
    c: Set<(int, int, int)>,
    cells: Seq<(i32, i32, u32, u8)>,
    start: int,
    end: int,
    a: int,
    b: int,
    e: int,
) -> Set<(int, int, int)> {
    Set::new(
        |t: (int, int, int)|
            c.contains(t) && (seen_cell(cells, start, (t.0, t.1)) || (t.0 == cells[start].0 && t.1 == cells[start].1
                && pair_done(a, b, gidx(cells, start, end, e), gidx(cells, start, end, t.2)))),
    )
}

/// The entries `start..end` are the whole of one cell, in a raster of
/// `routes` that is sorted, sound and complete.
pub open spec fn group_ok(cells: Seq<(i32, i32, u32, u8)>, routes: Seq<Route>, start: int, end: int) -> bool {
    &&& 0 <= start < end <= cells.len()
    &&& forall|i: int, j: int| 0 <= i < j < cells.len() ==> key_lt(cells[i], cells[j])
    &&& forall|r: int| start <= r < end ==> (#[trigger] cells[r]).0 == cells[start].0 && cells[r].1 == cells[start].1
    &&& forall|r: int| 0 <= r < start ==> pos_lt(#[trigger] cells[r], cells[start])
    &&& end == cells.len() || cells[end].0 != cells[start].0 || cells[end].1 != cells[start].1
    &&& forall|i: int| 0 <= i < cells.len() ==> (#[trigger] cells[i]).2 < routes.len()
    &&& forall|i: int| 0 <= i < cells.len() ==> on_route(routes, (#[trigger] cells[i]).2 as int, cells[i].0 as int, cells[i].1 as int)
    &&& forall|f: int, w: int, x: int, y: int|
        0 <= f < routes.len() && #[trigger] on_window(routes[f].polyline@, w, x, y) ==> has_key(cells, x, y, f)
}

/// A route through the cell has exactly one entry in it.
proof fn lemma_in_group(cells: Seq<(i32, i32, u32, u8)>, routes: Seq<Route>, start: int, end: int, f: int)
    requires
        group_ok(cells, routes, start, end),
        0 <= f < routes.len(),
        on_route(routes, f, cells[start].0 as int, cells[start].1 as int),
    ensures
        start <= gidx(cells, start, end, f) < end,
        cells[gidx(cells, start, end, f)].2 == f,
        forall|q: int| start <= q < end && #[trigger] cells[q].2 == f ==> q == gidx(cells, start, end, f),
{
    let x = cells[start].0 as int;
    let y = cells[start].1 as int;
    let w = choose|w: int| #[trigger] on_window(routes[f].polyline@, w, x, y);
    assert(has_key(cells, x, y, f));
    let q = choose|q: int| 0 <= q < cells.len() && #[trigger] cells[q].0 == x && cells[q].1 == y && cells[q].2 == f;
    lemma_group(cells, start, end, q);
    let g = gidx(cells, start, end, f);
    assert forall|q2: int| start <= q2 < end && #[trigger] cells[q2].2 == f implies q2 == g by {
        if q2 < g {
            assert(key_lt(cells[q2], cells[g]));
        } else if g < q2 {
            assert(key_lt(cells[g], cells[q2]));
        }
    }
}

/// Before any pair of the cell is visited, the set holds the earlier cells.
proof fn lemma_done_entry(
    c: Set<(int, int, int)>,
    cells: Seq<(i32, i32, u32, u8)>,
    routes: Seq<Route>,
    start: int,
    end: int,
    e: int,
)
    requires
        group_ok(cells, routes, start, end),
        0 <= e < routes.len(),
        forall|t: (int, int, int)| #[trigger] c.contains(t) ==> shares(routes, e, t),
    ensures
        done_set(c, cells, start, end, start, start + 1, e) == part(c, cells, start),
{
    reveal(done_set);
    reveal(part);
    assert forall|t: (int, int, int)| #[trigger] done_set(c, cells, start, end, start, start + 1, e).contains(t) == part(
        c,
        cells,
        start,
    ).contains(t) by {
        if c.contains(t) && t.0 == cells[start].0 && t.1 == cells[start].1 {
            lemma_in_group(cells, routes, start, end, e);
            lemma_in_group(cells, routes, start, end, t.2);
        }
    }
    assert(done_set(c, cells, start, end, start, start + 1, e) =~= part(c, cells, start));
}

/// The pairs of entry `a` done are the pairs before entry `a + 1`.
proof fn lemma_done_row(
    c: Set<(int, int, int)>,
    cells: Seq<(i32, i32, u32, u8)>,
    routes: Seq<Route>,
    start: int,
    end: int,
    a: int,
    e: int,
)
    requires
        group_ok(cells, routes, start, end),
        start <= a < end,
        0 <= e < routes.len(),
        forall|t: (int, int, int)| #[trigger] c.contains(t) ==> shares(routes, e, t),
    ensures
        done_set(c, cells, start, end, a, end, e) == done_set(c, cells, start, end, a + 1, a + 2, e),
{
    reveal(done_set);
    reveal(part);
    assert forall|t: (int, int, int)| #[trigger] done_set(c, cells, start, end, a, end, e).contains(t) == done_set(
        c,
        cells,
        start,
        end,
        a + 1,
        a + 2,
        e,
    ).contains(t) by {
        if c.contains(t) && t.0 == cells[start].0 && t.1 == cells[start].1 {
            lemma_in_group(cells, routes, start, end, e);
            lemma_in_group(cells, routes, start, end, t.2);
        }
    }
    assert(done_set(c, cells, start, end, a, end, e) =~= done_set(c, cells, start, end, a + 1, a + 2, e));
}

/// After every pair of the cell, the set holds the cells up to its end.
proof fn lemma_done_exit(
    c: Set<(int, int, int)>,
    cells: Seq<(i32, i32, u32, u8)>,
    routes: Seq<Route>,
    start: int,
    end: int,
    e: int,
)
    requires
        group_ok(cells, routes, start, end),
        0 <= e < routes.len(),
        forall|t: (int, int, int)| #[trigger] c.contains(t) ==> shares(routes, e, t),
    ensures
        done_set(c, cells, start, end, end, end + 1, e) == part(c, cells, end),
        end - start < 2 ==> done_set(c, cells, start, end, start, start + 1, e) == part(c, cells, end),
{
    reveal(done_set);
    reveal(part);
    let p0 = (cells[start].0 as int, cells[start].1 as int);
    assert forall|p: (int, int)| #[trigger] seen_cell(cells, end, p) <==> seen_cell(cells, start, p) || p == p0 by {
        if seen_cell(cells, end, p) {
            let q = choose|q: int| 0 <= q < end && (#[trigger] cells[q]).0 == p.0 && cells[q].1 == p.1;
            if q >= start {
                assert(p == p0);
            }
        }
        if p == p0 {
            assert(cells[start].0 == p.0 && cells[start].1 == p.1);
        }
        if seen_cell(cells, start, p) {
            let q = choose|q: int| 0 <= q < start && (#[trigger] cells[q]).0 == p.0 && cells[q].1 == p.1;
            assert(cells[q].0 == p.0);
        }
    }
    assert forall|t: (int, int, int)| #[trigger] done_set(c, cells, start, end, end, end + 1, e).contains(t) == part(
        c,
        cells,
        end,
    ).contains(t) by {
        assert(seen_cell(cells, end, (t.0, t.1)) <==> seen_cell(cells, start, (t.0, t.1)) || (t.0, t.1) == p0);
        if c.contains(t) && t.0 == cells[start].0 && t.1 == cells[start].1 {
            lemma_in_group(cells, routes, start, end, e);
            lemma_in_group(cells, routes, start, end, t.2);
        }
    }
    assert(done_set(c, cells, start, end, end, end + 1, e) =~= part(c, cells, end));
    if end - start < 2 {
        assert forall|t: (int, int, int)| #[trigger] done_set(c, cells, start, end, start, start + 1, e).contains(t) == part(
            c,
            cells,
            end,
        ).contains(t) by {
            assert(seen_cell(cells, end, (t.0, t.1)) <==> seen_cell(cells, start, (t.0, t.1)) || (t.0, t.1) == p0);
            if c.contains(t) && t.0 == cells[start].0 && t.1 == cells[start].1 {
                lemma_in_group(cells, routes, start, end, e);
                lemma_in_group(cells, routes, start, end, t.2);
                assert(gidx(cells, start, end, e) == start);
                assert(gidx(cells, start, end, t.2) == start);
            }
        }
        assert(done_set(c, cells, start, end, start, start + 1, e) =~= part(c, cells, end));
    }
}

/// Visiting the pair `(a, b)` adds to the set of route `e` at most the one
/// member it is about, which was not in it before.
proof fn lemma_done_step(
    c: Set<(int, int, int)>,
    cells: Seq<(i32, i32, u32, u8)>,
    routes: Seq<Route>,
    start: int,
    end: int,
    a: int,
    b: int,
    e: int,
)
    requires
        group_ok(cells, routes, start, end),
        start <= a < b < end,
        0 <= e < routes.len(),
        forall|t: (int, int, int)| #[trigger] c.contains(t) ==> shares(routes, e, t),
    ensures
        ({
            let p = (cells[start].0 as int, cells[start].1 as int);
            let ea = cells[a].2 as int;
            let eb = cells[b].2 as int;
            let old_s = done_set(c, cells, start, end, a, b, e);
            let new_s = done_set(c, cells, start, end, a, b + 1, e);
            &&& e == ea && c.contains((p.0, p.1, eb)) ==> new_s == old_s.insert((p.0, p.1, eb)) && !old_s.contains(
                (p.0, p.1, eb),
            )
            &&& e == eb && c.contains((p.0, p.1, ea)) ==> new_s == old_s.insert((p.0, p.1, ea)) && !old_s.contains(
                (p.0, p.1, ea),
            )
            &&& !(e == ea && c.contains((p.0, p.1, eb))) && !(e == eb && c.contains((p.0, p.1, ea))) ==> new_s == old_s
        }),
{
    reveal(done_set);
    reveal(part);
    let p = (cells[start].0 as int, cells[start].1 as int);
    let ea = cells[a].2 as int;
    let eb = cells[b].2 as int;
    assert(key_lt(cells[a], cells[b]));
    assert(cells[a].0 == cells[start].0 && cells[a].1 == cells[start].1);
    assert(cells[b].0 == cells[start].0 && cells[b].1 == cells[start].1);
    assert(!seen_cell(cells, start, p)) by {
        if seen_cell(cells, start, p) {
            let q = choose|q: int| 0 <= q < start && (#[trigger] cells[q]).0 == p.0 && cells[q].1 == p.1;
            assert(pos_lt(cells[q], cells[start]));
        }
    }
    let old_s = done_set(c, cells, start, end, a, b, e);
    let new_s = done_set(c, cells, start, end, a, b + 1, e);
    assert(on_route(routes, ea, p.0, p.1));
    assert(on_route(routes, eb, p.0, p.1));
    lemma_in_group(cells, routes, start, end, ea);
    lemma_in_group(cells, routes, start, end, eb);
    assert(gidx(cells, start, end, ea) == a);
    assert(gidx(cells, start, end, eb) == b);
    assert forall|t: (int, int, int)| #[trigger] new_s.contains(t) == (old_s.contains(t) || (c.contains(t) && t.0 == p.0
        && t.1 == p.1 && ((e == ea && t.2 == eb) || (e == eb && t.2 == ea)))) by {
        if c.contains(t) && t.0 == p.0 && t.1 == p.1 {
            lemma_in_group(cells, routes, start, end, e);
            lemma_in_group(cells, routes, start, end, t.2);
            let i = gidx(cells, start, end, e);
            let j = gidx(cells, start, end, t.2);
            if (i == a && j == b) {
                assert(t.2 == eb && e == ea);
            }
            if (i == b && j == a) {
                assert(t.2 == ea && e == eb);
            }
            if e == ea && t.2 == eb {
                assert(i == a && j == b);
            }
            if e == eb && t.2 == ea {
                assert(i == b && j == a);
            }
        }
    }
    if e == ea && c.contains((p.0, p.1, eb)) {
        assert(new_s =~= old_s.insert((p.0, p.1, eb)));
        assert(!old_s.contains((p.0, p.1, eb)));
    } else if e == eb && c.contains((p.0, p.1, ea)) {
        assert(new_s =~= old_s.insert((p.0, p.1, ea)));
        assert(!old_s.contains((p.0, p.1, ea)));
    } else {
        assert(new_s =~= old_s);
    }
}

/// Every set of `sets` holds only cells route `e` shares with another.
pub open spec fn sets_share(sets: spec_fn(int) -> Set<(int, int, int)>, routes: Seq<Route>) -> bool {
    forall|e: int, t: (int, int, int)| 0 <= e < routes.len() && #[trigger] sets(e).contains(t) ==> shares(routes, e, t)
}

/// Each counter is its route's set over the earlier cells, capped.
pub open spec fn part_ok(
    sets: spec_fn(int) -> Set<(int, int, int)>,
    cells: Seq<(i32, i32, u32, u8)>,
    n: int,
    counts: Seq<usize>,
) -> bool {
    forall|e: int| 0 <= e < counts.len() ==> #[trigger] part_at(sets, cells, n, counts, e)
}

/// Counter `e` is its route's set over the earlier cells, capped.
pub open spec fn part_at(
    sets: spec_fn(int) -> Set<(int, int, int)>,
    cells: Seq<(i32, i32, u32, u8)>,
    n: int,
    counts: Seq<usize>,
    e: int,
) -> bool {
    part(sets(e), cells, n).finite() && counts[e] == capped(part(sets(e), cells, n).len())
}

/// Each counter is its route's set over the pairs visited so far, capped.
pub open spec fn counts_ok(
    sets: spec_fn(int) -> Set<(int, int, int)>,
    cells: Seq<(i32, i32, u32, u8)>,
    start: int,
    end: int,
    a: int,
    b: int,
    counts: Seq<usize>,
) -> bool {
    forall|e: int| 0 <= e < counts.len() ==> #[trigger] count_at(sets, cells, start, end, a, b, counts, e)
}

/// Counter `e` is its route's set over the pairs visited so far, capped.
pub open spec fn count_at(
    sets: spec_fn(int) -> Set<(int, int, int)>,
    cells: Seq<(i32, i32, u32, u8)>,
    start: int,
    end: int,
    a: int,
    b: int,
    counts: Seq<usize>,
    e: int,
) -> bool {
    done_set(sets(e), cells, start, end, a, b, e).finite() && counts[e] == capped(done_set(sets(e), cells, start, end, a, b, e).len())
}

/// The counters of routes `ea` and `eb` counted one more when `hit`.
pub open spec fn bumped(before: Seq<usize>, after: Seq<usize>, ea: int, eb: int, hit: bool) -> bool {
    &&& after.len() == before.len()
    &&& forall|e: int| 0 <= e < before.len() ==> #[trigger] bump_at(before, after, ea, eb, hit, e)
}

/// Counter `e` after the pair `ea`, `eb` is counted when `hit`.
pub open spec fn bump_at(before: Seq<usize>, after: Seq<usize>, ea: int, eb: int, hit: bool, e: int) -> bool {
    after[e] == if hit && (e == ea || e == eb) {
        if before[e] < MAX_COUNT { before[e] + 1 } else { before[e] as int }
    } else {
        before[e] as int
    }
}

proof fn lemma_bumped_same(s: Seq<usize>, ea: int, eb: int)
    ensures
        bumped(s, s, ea, eb, false),
{
    assert forall|e: int| 0 <= e < s.len() implies #[trigger] bump_at(s, s, ea, eb, false, e) by {}
}

proof fn lemma_bumped_pair(s: Seq<usize>, ea: int, eb: int, xa: usize, xb: usize)
    requires
        0 <= ea < s.len(),
        0 <= eb < s.len(),
        ea != eb,
        xa == if s[ea] < MAX_COUNT { s[ea] + 1 } else { s[ea] as int },
        xb == if s[eb] < MAX_COUNT { s[eb] + 1 } else { s[eb] as int },
    ensures
        bumped(s, s.update(ea, xa).update(eb, xb), ea, eb, true),
{
    let t = s.update(ea, xa).update(eb, xb);
    assert forall|e: int| 0 <= e < s.len() implies #[trigger] bump_at(s, t, ea, eb, true, e) by {}
}

proof fn lemma_counts_entry(
    sets: spec_fn(int) -> Set<(int, int, int)>,
    cells: Seq<(i32, i32, u32, u8)>,
    routes: Seq<Route>,
    start: int,
    end: int,
    counts: Seq<usize>,
)
    requires
        group_ok(cells, routes, start, end),
        sets_share(sets, routes),
        counts.len() == routes.len(),
        part_ok(sets, cells, start, counts),
    ensures
        counts_ok(sets, cells, start, end, start, start + 1, counts),
{
    assert forall|e: int| 0 <= e < counts.len() implies #[trigger] count_at(sets, cells, start, end, start, start + 1, counts, e) by {
        lemma_done_entry(sets(e), cells, routes, start, end, e);
        assert(part_at(sets, cells, start, counts, e));
    }
}

proof fn lemma_counts_row(
    sets: spec_fn(int) -> Set<(int, int, int)>,
    cells: Seq<(i32, i32, u32, u8)>,
    routes: Seq<Route>,
    start: int,
    end: int,
    a: int,
    counts: Seq<usize>,
)
    requires
        group_ok(cells, routes, start, end),
        start <= a < end,
        sets_share(sets, routes),
        counts.len() == routes.len(),
        counts_ok(sets, cells, start, end, a, end, counts),
    ensures
        counts_ok(sets, cells, start, end, a + 1, a + 2, counts),
{
    assert forall|e: int| 0 <= e < counts.len() implies #[trigger] count_at(sets, cells, start, end, a + 1, a + 2, counts, e) by {
        lemma_done_row(sets(e), cells, routes, start, end, a, e);
        assert(count_at(sets, cells, start, end, a, end, counts, e));
    }
}

proof fn lemma_counts_exit(
    sets: spec_fn(int) -> Set<(int, int, int)>,
    cells: Seq<(i32, i32, u32, u8)>,
    routes: Seq<Route>,
    start: int,
    end: int,
    counts: Seq<usize>,
)
    requires
        group_ok(cells, routes, start, end),
        sets_share(sets, routes),
        counts.len() == routes.len(),
        counts_ok(sets, cells, start, end, end, end + 1, counts) || (end - start < 2 && part_ok(sets, cells, start, counts)),
    ensures
        part_ok(sets, cells, end, counts),
{
    assert forall|e: int| 0 <= e < counts.len() implies #[trigger] part_at(sets, cells, end, counts, e) by {
        lemma_done_exit(sets(e), cells, routes, start, end, e);
        if counts_ok(sets, cells, start, end, end, end + 1, counts) {
            assert(count_at(sets, cells, start, end, end, end + 1, counts, e));
        } else {
            lemma_done_entry(sets(e), cells, routes, start, end, e);
            assert(part_at(sets, cells, start, counts, e));
        }
    }
}

proof fn lemma_counts_step(
    sets: spec_fn(int) -> Set<(int, int, int)>,
    cells: Seq<(i32, i32, u32, u8)>,
    routes: Seq<Route>,
    start: int,
    end: int,
    a: int,
    b: int,
    before: Seq<usize>,
    after: Seq<usize>,
    hit: bool,
)
    requires
        group_ok(cells, routes, start, end),
        start <= a < b < end,
        sets_share(sets, routes),
        before.len() == routes.len(),
        counts_ok(sets, cells, start, end, a, b, before),
        sets(cells[a].2 as int).contains((cells[start].0 as int, cells[start].1 as int, cells[b].2 as int)) == hit,
        sets(cells[b].2 as int).contains((cells[start].0 as int, cells[start].1 as int, cells[a].2 as int)) == hit,
        bumped(before, after, cells[a].2 as int, cells[b].2 as int, hit),
    ensures
        counts_ok(sets, cells, start, end, a, b + 1, after),
{
    let ea = cells[a].2 as int;
    let eb = cells[b].2 as int;
    assert(key_lt(cells[a], cells[b]));
    assert(cells[a].0 == cells[start].0 && cells[a].1 == cells[start].1);
    assert(cells[b].0 == cells[start].0 && cells[b].1 == cells[start].1);
    assert(ea != eb);
    assert forall|e: int| 0 <= e < after.len() implies #[trigger] count_at(sets, cells, start, end, a, b + 1, after, e) by {
        assert(forall|t: (int, int, int)| #[trigger] sets(e).contains(t) ==> shares(routes, e, t));
        lemma_done_step(sets(e), cells, routes, start, end, a, b, e);
        assert(count_at(sets, cells, start, end, a, b, before, e));
        assert(bump_at(before, after, ea, eb, hit, e));
    }
}

/// Counter `e` is its route's whole set, capped.
pub open spec fn whole_at(sets: spec_fn(int) -> Set<(int, int, int)>, counts: Seq<usize>, e: int) -> bool {
    sets(e).finite() && counts[e] == capped(sets(e).len())
}

/// Over every cell, the counters are the whole sets, capped.
proof fn lemma_counts_all(
    sets: spec_fn(int) -> Set<(int, int, int)>,
    cells: Seq<(i32, i32, u32, u8)>,
    routes: Seq<Route>,
    counts: Seq<usize>,
)
    requires
        sets_share(sets, routes),
        counts.len() == routes.len(),
        part_ok(sets, cells, cells.len() as int, counts),
        forall|f: int, w: int, x: int, y: int|
            0 <= f < routes.len() && #[trigger] on_window(routes[f].polyline@, w, x, y) ==> has_key(cells, x, y, f),
    ensures
        forall|e: int| 0 <= e < counts.len() ==> #[trigger] whole_at(sets, counts, e),
{
    reveal(done_set);
    reveal(part);
    assert forall|e: int| 0 <= e < counts.len() implies #[trigger] whole_at(sets, counts, e) by {
        assert(part_at(sets, cells, cells.len() as int, counts, e));
        assert forall|t: (int, int, int)| #[trigger] sets(e).contains(t) implies seen_cell(cells, cells.len() as int, (t.0, t.1)) by {
            assert(shares(routes, e, t));
            let w = choose|w: int| #[trigger] on_window(routes[e].polyline@, w, t.0, t.1);
            assert(has_key(cells, t.0, t.1, e));
            let q = choose|q: int| 0 <= q < cells.len() && #[trigger] cells[q].0 == t.0 && cells[q].1 == t.1 && cells[q].2 == e;
            assert(cells[q].0 == t.0 && cells[q].1 == t.1);
        }
        assert(part(sets(e), cells, cells.len() as int) =~= sets(e));
    }
}

/// Before any cell, every counter at zero is its empty set.
proof fn lemma_counts_zero(sets: spec_fn(int) -> Set<(int, int, int)>, cells: Seq<(i32, i32, u32, u8)>, counts: Seq<usize>)
    requires
        forall|e: int| 0 <= e < counts.len() ==> #[trigger] counts[e] == 0,
    ensures
        part_ok(sets, cells, 0, counts),
{
    reveal(done_set);
    reveal(part);
    assert forall|e: int| 0 <= e < counts.len() implies #[trigger] part_at(sets, cells, 0, counts, e) by {
        assert(part(sets(e), cells, 0) =~= Set::<(int, int, int)>::empty());
    }
}

/// `x` pressed into `i32`.
pub open spec fn clamp32(x: int) -> int {
    if x > i32::MAX { i32::MAX as int } else if x < i32::MIN { i32::MIN as int } else { x }
}

fn clamp_i32(x: i64) -> (r: i32)
    ensures
        r == clamp32(x as int),
{
    if x > i32::MAX as i64 {
        i32::MAX
    } else if x < i32::MIN as i64 {
        i32::MIN
    } else {
        x as i32
    }
}

fn abs64(x: i64) -> (r: i64)
    requires
        x > i64::MIN,
    ensures
        r == if x < 0 { -x } else { x as int },
{
    if x < 0 { -x } else { x }
}

/// From window `w` on, the row after the first vertical run, or `dflt`
/// when no window from `w` on is vertical.
pub open spec fn leave_from(pts: Seq<(i32, i32)>, w: nat, dflt: i32) -> i32
    decreases pts.len() - w,
{
    if w + 1 >= pts.len() {
        dflt
    } else if pts[w as int].0 == pts[w + 1int].0 {
        pts[w + 1int].1
    } else {
        leave_from(pts, w + 1, dflt)
    }
}

/// The row a branch leaves its source's bus on: after the first vertical
/// run, or its first row when it has none.
pub open spec fn leave_row(pts: Seq<(i32, i32)>) -> i32 {
    leave_from(pts, 0, if pts.len() > 0 { pts[0].1 } else { 0 })
}

/// Up to window `w` (exclusive, counted from the front), the row before the
/// last vertical run, or `dflt` when none of them is vertical.
pub open spec fn join_from(pts: Seq<(i32, i32)>, w: nat, dflt: i32) -> i32
    decreases w,
{
    if w < 2 || w > pts.len() {
        dflt
    } else if pts[w - 2].0 == pts[w - 1].0 {
        pts[w - 2].1
    } else {
        join_from(pts, (w - 1) as nat, dflt)
    }
}

/// The row a branch joins its target's bus on: before the last vertical
/// run, or its last row when it has none.
pub open spec fn join_row(pts: Seq<(i32, i32)>) -> i32 {
    join_from(pts, pts.len(), if pts.len() > 0 { pts.last().1 } else { 0 })
}

fn after_first_vertical(r: &Route) -> (row: i32)
    ensures
        row == leave_row(r.polyline@),
{
    let pts = &r.polyline;
    let dflt = if pts.len() > 0 { pts[0].1 } else { 0 };
    let mut w: usize = 0;
    while w < pts.len() && w + 1 < pts.len()
        invariant
            w <= pts@.len(),
            pts@ == r.polyline@,
            dflt == (if pts@.len() > 0 { pts@[0].1 } else { 0 }),
            leave_row(pts@) == leave_from(pts@, w as nat, dflt),
        decreases pts.len() - w,
    {
        if pts[w].0 == pts[w + 1].0 {
            assert(leave_from(pts@, w as nat, dflt) == pts@[w + 1].1);
            return pts[w + 1].1;
        }
        w += 1;
    }
    dflt
}

fn before_last_vertical(r: &Route) -> (row: i32)
    ensures
        row == join_row(r.polyline@),
{
    let pts = &r.polyline;
    let dflt = if pts.len() > 0 { pts[pts.len() - 1].1 } else { 0 };
    let mut w: usize = pts.len();
    while w >= 2
        invariant
            w <= pts@.len(),
            pts@ == r.polyline@,
            dflt == (if pts@.len() > 0 { pts@.last().1 } else { 0 }),
            join_row(pts@) == join_from(pts@, w as nat, dflt),
        decreases w,
    {
        if pts[w - 2].0 == pts[w - 1].0 {
            assert(join_from(pts@, w as nat, dflt) == pts@[w - 2].1);
            return pts[w - 2].1;
        }
        w -= 1;
    }
    dflt
}

/// The lowest of a nonempty run of rows.
pub open spec fn least_row(rows: Seq<i32>) -> int
    decreases rows.len(),
{
    if rows.len() <= 1 {
        if rows.len() == 1 { rows[0] as int } else { 0 }
    } else {
        let m = least_row(rows.drop_last());
        if rows.last() < m { rows.last() as int } else { m }
    }
}

/// The highest of a nonempty run of rows.
pub open spec fn most_row(rows: Seq<i32>) -> int
    decreases rows.len(),
{
    if rows.len() <= 1 {
        if rows.len() == 1 { rows[0] as int } else { 0 }
    } else {
        let m = most_row(rows.drop_last());
        if rows.last() > m { rows.last() as int } else { m }
    }
}

/// |rows above − rows below| the bus row, over a fan of two or more branches.
pub open spec fn fan_spec(rows: Seq<i32>, bus: i32) -> int {
    if rows.len() < 2 {
        0
    } else {
        let d = (bus - least_row(rows)) - (most_row(rows) - bus);
        if d < 0 { -d } else { d }
    }
}

fn fan(rows: &Vec<i32>, bus: i32) -> (a: i64)
    ensures
        a == fan_spec(rows@, bus),
        0 <= a <= 4 * (i32::MAX as int + 1),
{
    if rows.len() < 2 {
        return 0;
    }
    let mut lo = rows[0];
    let mut hi = rows[0];
    let mut i: usize = 1;
    while i < rows.len()
        invariant
            1 <= i <= rows@.len(),
            lo == least_row(rows@.take(i as int)),
            hi == most_row(rows@.take(i as int)),
        decreases rows.len() - i,
    {
        proof {
            assert(rows@.take(i + 1).drop_last() =~= rows@.take(i as int));
        }
        if rows[i] < lo {
            lo = rows[i];
        }
        if rows[i] > hi {
            hi = rows[i];
        }
        i += 1;
    }
    proof {
        assert(rows@.take(i as int) =~= rows@);
    }
    let above = bus as i64 - lo as i64;
    let below = hi as i64 - bus as i64;
    abs64(above - below)
}

/// The rows at which the forward edges among the first `k` leave the bus of
/// node `v` (`side` 0, its fan-out) or join it (`side` 1, its fan-in).
pub open spec fn fan_rows(g: &ViewGraph, l: &Layout, side: int, v: int, k: nat) -> Seq<i32>
    decreases k,
{
    if k == 0 {
        Seq::empty()
    } else {
        let i = k - 1;
        let e = g.edges@[i];
        let prev = fan_rows(g, l, side, v, (k - 1) as nat);
        if span_spec(l, g, i).0 {
            prev
        } else if side == 0 && e.from.0 == v {
            prev.push(leave_row(l.routes@[i].polyline@))
        } else if side == 1 && e.to.0 == v {
            prev.push(join_row(l.routes@[i].polyline@))
        } else {
            prev
        }
    }
}

/// The bus row of a card: its middle row.
pub open spec fn bus_row(c: CardPos) -> i32 {
    clamp32(c.y + c.h / 2) as i32
}

/// The asymmetry of one fan: of node `v`'s fan-out (`side` 0) or fan-in
/// (`side` 1), zero for a node without a card.
pub open spec fn node_fan(g: &ViewGraph, l: &Layout, side: int, v: int) -> int {
    match first_card(l.cards@, v) {
        Some(c) => fan_spec(fan_rows(g, l, side, v, g.edges@.len()), bus_row(c)),
        None => 0,
    }
}

/// The asymmetry summed over every fan-out, then every fan-in, in node order,
/// up to node `v` of side `side`; held in `i32` at each step.
pub open spec fn asym_acc(g: &ViewGraph, l: &Layout, side: nat, v: nat) -> int
    decreases side, v,
{
    if v == 0 {
        if side == 0 {
            0
        } else {
            asym_acc(g, l, (side - 1) as nat, g.nodes@.len())
        }
    } else {
        clamp32(asym_acc(g, l, side, (v - 1) as nat) + node_fan(g, l, side as int, v - 1))
    }
}

/// How far a running total of travel is counted.
pub const TRAVEL_CAP: i64 = 4611686018427387903;

/// Vertical cells travelled over the first `k` windows of `pts`.
pub open spec fn travel(pts: Seq<(i32, i32)>, k: nat) -> int
    decreases k,
{
    if k == 0 {
        0
    } else {
        travel(pts, (k - 1) as nat) + if k < pts.len() && pts[k - 1].0 == pts[k as int].0 {
            let d = pts[k as int].1 - pts[k - 1].1;
            if d < 0 { -d } else { d }
        } else {
            0
        }
    }
}

/// Vertical cells a forward edge travels beyond the difference of its end rows.
pub open spec fn route_detour(pts: Seq<(i32, i32)>) -> int {
    let t = travel(pts, if pts.len() > 0 { (pts.len() - 1) as nat } else { 0 });
    let t = if t > TRAVEL_CAP { TRAVEL_CAP as int } else { t };
    let rise = if pts.len() > 0 { pts.last().1 - pts[0].1 } else { 0 };
    clamp32(t - if rise < 0 { -rise } else { rise })
}

/// The widest gap, zero when there is none.
pub open spec fn widest_gap(gaps: Seq<GapPlan>) -> int
    decreases gaps.len(),
{
    if gaps.len() == 0 {
        0
    } else if gaps.len() == 1 {
        gaps[0].width as int
    } else {
        let m = widest_gap(gaps.drop_last());
        if gaps.last().width > m { gaps.last().width as int } else { m }
    }
}

/// The narrowest gap, zero when there is none.
pub open spec fn narrowest_gap(gaps: Seq<GapPlan>) -> int
    decreases gaps.len(),
{
    if gaps.len() == 0 {
        0
    } else if gaps.len() == 1 {
        gaps[0].width as int
    } else {
        let m = narrowest_gap(gaps.drop_last());
        if gaps.last().width < m { gaps.last().width as int } else { m }
    }
}

proof fn lemma_gap_order(gaps: Seq<GapPlan>)
    ensures
        narrowest_gap(gaps) <= widest_gap(gaps),
        0 <= narrowest_gap(gaps),
        widest_gap(gaps) <= u16::MAX,
    decreases gaps.len(),
{
    if gaps.len() > 1 {
        lemma_gap_order(gaps.drop_last());
    }
}

proof fn lemma_travel_nonneg(pts: Seq<(i32, i32)>, k: nat)
    ensures
        travel(pts, k) >= 0,
    decreases k,
{
    if k > 0 {
        lemma_travel_nonneg(pts, (k - 1) as nat);
    }
}

/// No node id is past `u32`, so such a node has no card and no fan.
proof fn lemma_no_fan_past_ids(g: &ViewGraph, l: &Layout, side: int, v: int, k: nat)
    requires
        v > u32::MAX,
    ensures
        fan_rows(g, l, side, v, k) == Seq::<i32>::empty(),
        first_card(l.cards@, v) is None,
    decreases k,
{
    if k > 0 {
        lemma_no_fan_past_ids(g, l, side, v, (k - 1) as nat);
    }
    lemma_no_card_past_ids(l.cards@, v);
}

proof fn lemma_no_card_past_ids(cards: Seq<CardPos>, v: int)
    requires
        v > u32::MAX,
    ensures
        first_card(cards, v) is None,
    decreases cards.len(),
{
    if cards.len() > 0 {
        lemma_no_card_past_ids(cards.drop_last(), v);
    }
}

fn inc(x: usize) -> (r: usize)
    requires
        x <= MAX_COUNT,
    ensures
        r == if x < MAX_COUNT { x + 1 } else { x as int },
        r <= MAX_COUNT,
{
    if x < MAX_COUNT { x + 1 } else { x }
}

/// Score a layout of `g`.
/// `s` is the score of drawing `l` of `g`: per edge its span, bends,
/// allowance and detour, the tiers counted over the edges, the totals and
/// the drawing's size.
pub open spec fn scored(g: &ViewGraph, l: &Layout, s: &Score) -> bool {
    &&& s.edges@.len() == l.routes@.len()
    &&& forall|i: int| 0 <= i < s.edges@.len() ==> {
        let e = #[trigger] s.edges@[i];
        let r = l.routes@[i];
        &&& e.edge == EdgeId(i as u32)
        &&& (e.back, e.span as int) == span_spec(l, g, i)
        &&& e.bends == if r.polyline@.len() >= 2 { r.polyline@.len() - 2 } else { 0 }
        &&& e.allowed == if e.back || e.span > 1 { 4usize } else { 2usize }
        &&& e.back ==> e.detour == 0
        &&& !e.back ==> e.detour == route_detour(r.polyline@)
        &&& e.overlaps <= MAX_COUNT
        &&& e.crossings <= MAX_COUNT
    }
    &&& s.asymmetry == asym_acc(g, l, 1, g.nodes@.len())
    &&& s.gap_spread == widest_gap(l.gaps@) - narrowest_gap(l.gaps@)
    &&& s.bends_over_fwd == count(s.edges@, |e: EdgeScore| over_fwd(e))
    &&& s.bends_over_skip == count(s.edges@, |e: EdgeScore| over_skip(e))
    &&& s.bends_over_back == count(s.edges@, |e: EdgeScore| over_back(e))
    &&& s.junction_over == count(s.edges@, |e: EdgeScore| over_junction(e))
    &&& s.overlaps == sum_overlaps(s.edges@) / 2
    &&& s.crossings == sum_crossings(s.edges@) / 2
    &&& edges_unsaturated(s.edges@) ==> sum_crossings(s.edges@) == 2 * s.crossings && sum_overlaps(s.edges@) == 2
        * s.overlaps
    &&& mixed_set(l.routes@).finite()
    &&& s.mixed_cells == mixed_set(l.routes@).len()
    &&& forall|e: int| 0 <= e < s.edges@.len() ==> #[trigger] per_edge_exact(g, l, s.edges@[e], e)
    &&& s.detour == clamp32(sum_detour(s.edges@))
    &&& s.total == 10 * (s.bends_over_fwd + s.bends_over_skip + s.bends_over_back) + 10 * s.junction_over + 5 * s.overlaps
        + 3 * s.crossings + 2 * s.asymmetry + s.detour
    &&& s.height == l.height
    &&& s.width == l.width
}

pub fn score(g: &ViewGraph, l: &Layout) -> (s: Score)
    requires
        l.routes@.len() == g.edges@.len(),
        g.edges@.len() <= MAX_EDGES,
        g.wf(),
    ensures
        s.edges@.len() == l.routes@.len(),
        forall|i: int| 0 <= i < s.edges@.len() ==> {
            let e = #[trigger] s.edges@[i];
            let r = l.routes@[i];
            &&& e.edge == EdgeId(i as u32)
            &&& (e.back, e.span as int) == span_spec(l, g, i)
            &&& e.bends == if r.polyline@.len() >= 2 { r.polyline@.len() - 2 } else { 0 }
            &&& e.allowed == if e.back || e.span > 1 { 4usize } else { 2usize }
            &&& e.back ==> e.detour == 0
            &&& !e.back ==> e.detour == route_detour(r.polyline@)
            &&& e.overlaps <= MAX_COUNT
            &&& e.crossings <= MAX_COUNT
        },
        s.asymmetry == asym_acc(g, l, 1, g.nodes@.len()),
        s.gap_spread == widest_gap(l.gaps@) - narrowest_gap(l.gaps@),
        s.bends_over_fwd == count(s.edges@, |e: EdgeScore| over_fwd(e)),
        s.bends_over_skip == count(s.edges@, |e: EdgeScore| over_skip(e)),
        s.bends_over_back == count(s.edges@, |e: EdgeScore| over_back(e)),
        s.junction_over == count(s.edges@, |e: EdgeScore| over_junction(e)),
        s.overlaps == sum_overlaps(s.edges@) / 2,
        s.crossings == sum_crossings(s.edges@) / 2,
        edges_unsaturated(s.edges@) ==> sum_crossings(s.edges@) == 2 * s.crossings && sum_overlaps(s.edges@) == 2
            * s.overlaps,
        s.overlaps <= MAX_EDGES * MAX_COUNT,
        s.crossings <= MAX_EDGES * MAX_COUNT,
        s.detour == clamp32(sum_detour(s.edges@)),
        s.total == 10 * (s.bends_over_fwd + s.bends_over_skip + s.bends_over_back) + 10 * s.junction_over + 5
            * s.overlaps + 3 * s.crossings + 2 * s.asymmetry + s.detour,
        s.scatter == 0,
        s.height == l.height,
        s.width == l.width,
        scored(g, l, &s),
        mixed_set(l.routes@).finite(),
        s.mixed_cells == mixed_set(l.routes@).len(),
        forall|e: int| 0 <= e < s.edges@.len() ==> #[trigger] per_edge_exact(g, l, s.edges@[e], e),
{
    let n_edges = g.edges.len();
    let cells = raster(&l.routes);
    let mut fork_cells: Vec<Vec<(i32, i32)>> = Vec::new();
    let mut join_cells: Vec<Vec<(i32, i32)>> = Vec::new();
    let mut crossings: Vec<usize> = Vec::new();
    let mut overlaps: Vec<usize> = Vec::new();
    let mut i: usize = 0;
    while i < n_edges
        invariant
            i <= n_edges,
            fork_cells@.len() == i,
            join_cells@.len() == i,
            crossings@.len() == i,
            overlaps@.len() == i,
            forall|k: int| 0 <= k < i ==> #[trigger] crossings@[k] == 0,
            forall|k: int| 0 <= k < i ==> #[trigger] overlaps@[k] == 0,
            usum(crossings@) == 0,
            usum(overlaps@) == 0,
        decreases n_edges - i,
    {
        fork_cells.push(Vec::new());
        join_cells.push(Vec::new());
        let ghost c0 = crossings@;
        let ghost o0 = overlaps@;
        crossings.push(0);
        overlaps.push(0);
        proof {
            assert(crossings@.drop_last() =~= c0);
            assert(overlaps@.drop_last() =~= o0);
        }
        i += 1;
    }
    let mut mixed_cells: usize = 0;
    let ghost mut ms: Set<(int, int)> = Set::empty();
    let ghost routes = l.routes@;
    let ghost cxs: spec_fn(int) -> Set<(int, int, int)> = |e: int| crossing_set(routes, e);
    let ghost ovs: spec_fn(int) -> Set<(int, int, int)> = |e: int| overlap_set(g, routes, e);
    proof {
        assert forall|e: int, t: (int, int, int)| 0 <= e < routes.len() && #[trigger] cxs(e).contains(t) implies shares(
            routes,
            e,
            t,
        ) by {}
        assert forall|e: int, t: (int, int, int)| 0 <= e < routes.len() && #[trigger] ovs(e).contains(t) implies shares(
            routes,
            e,
            t,
        ) by {}
        lemma_counts_zero(cxs, cells@, crossings@);
        lemma_counts_zero(ovs, cells@, overlaps@);
    }
    let mut start: usize = 0;
    while start < cells.len()
        invariant
            start <= cells@.len(),
            n_edges == g.edges@.len(),
            n_edges == l.routes@.len(),
            g.wf(),
            forall|k: int| 0 <= k < cells@.len() ==> (#[trigger] cells@[k]).2 < n_edges,
            fork_cells@.len() == n_edges,
            join_cells@.len() == n_edges,
            crossings@.len() == n_edges,
            overlaps@.len() == n_edges,
            forall|k: int| 0 <= k < n_edges ==> #[trigger] crossings@[k] <= MAX_COUNT,
            forall|k: int| 0 <= k < n_edges ==> #[trigger] overlaps@[k] <= MAX_COUNT,
            mixed_cells <= start,
            forall|i: int, j: int| 0 <= i < j < cells@.len() ==> key_lt(cells@[i], cells@[j]),
            unsaturated(crossings@) ==> usum(crossings@) % 2 == 0,
            unsaturated(overlaps@) ==> usum(overlaps@) % 2 == 0,
            forall|i: int| 0 <= i < cells@.len() ==> on_route(l.routes@, (#[trigger] cells@[i]).2 as int, cells@[i].0 as int, cells@[i].1 as int),
            forall|e: int, w: int, x: int, y: int|
                0 <= e < l.routes@.len() && #[trigger] on_window(l.routes@[e].polyline@, w, x, y) ==> has_key(cells@, x, y, e),
            start < cells@.len() ==> forall|q: int| 0 <= q < start ==> pos_lt(#[trigger] cells@[q], cells@[start as int]),
            ms.finite(),
            mixed_cells == ms.len(),
            ms =~= Set::new(|p: (int, int)| seen_cell(cells@, start as int, p) && mixed_at(l.routes@, p.0, p.1)),
            routes == l.routes@,
            cxs == (|e: int| crossing_set(routes, e)),
            ovs == (|e: int| overlap_set(g, routes, e)),
            sets_share(cxs, routes),
            sets_share(ovs, routes),
            part_ok(cxs, cells@, start as int, crossings@),
            part_ok(ovs, cells@, start as int, overlaps@),
            forall|i: int|
                0 <= i < cells@.len() ==> (#[trigger] cells@[i]).3 == cell_bits(routes, cells@[i].2 as int, cells@[i].0 as int, cells@[i].1 as int),
        decreases cells.len() - start,
    {
        // The entries of one cell.
        let mut end = start + 1;
        while end < cells.len() && cells[end].0 == cells[start].0 && cells[end].1 == cells[start].1
            invariant
                start < end <= cells@.len(),
                forall|q: int| start <= q < end ==> (#[trigger] cells@[q]).0 == cells@[start as int].0 && cells@[q].1
                    == cells@[start as int].1,
            decreases cells.len() - end,
        {
            end += 1;
        }
        let pos = (cells[start].0, cells[start].1);
        let ghost mut hit = false;
        let ghost mc0 = mixed_cells;
        proof {
            assert(group_ok(cells@, routes, start as int, end as int));
        }
        let ghost p0: (int, int) = (cells@[start as int].0 as int, cells@[start as int].1 as int);
        if end - start >= 2 {
            // Two colours meeting in one cell.
            let first = l.routes[cells[start].2 as usize].colour;
            let mut mixed = false;
            let mut k = start + 1;
            while k < end
                invariant
                    start < k <= end,
                    end <= cells@.len(),
                    forall|q: int| 0 <= q < cells@.len() ==> (#[trigger] cells@[q]).2 < n_edges,
                    n_edges == l.routes@.len(),
                    first == l.routes@[cells@[start as int].2 as int].colour,
                    mixed <==> exists|q: int| start < q < k && l.routes@[(#[trigger] cells@[q]).2 as int].colour != first,
                decreases end - k,
            {
                let c = l.routes[cells[k].2 as usize].colour;
                let same = match (c, first) {
                    (Some(a), Some(b)) => a.0 == b.0,
                    (None, None) => true,
                    _ => false,
                };
                if !same {
                    mixed = true;
                }
                k += 1;
            }
            if mixed {
                mixed_cells += 1;
            }
            proof {
                hit = mixed;
                lemma_counts_entry(cxs, cells@, routes, start as int, end as int, crossings@);
                lemma_counts_entry(ovs, cells@, routes, start as int, end as int, overlaps@);
            }
            let mut a = start;
            while a < end
                invariant
                    start <= a <= end,
                    end <= cells@.len(),
                    n_edges == g.edges@.len(),
                    g.wf(),
                    forall|q: int| 0 <= q < cells@.len() ==> (#[trigger] cells@[q]).2 < n_edges,
                    fork_cells@.len() == n_edges,
                    join_cells@.len() == n_edges,
                    crossings@.len() == n_edges,
                    overlaps@.len() == n_edges,
                    forall|q: int| 0 <= q < n_edges ==> #[trigger] crossings@[q] <= MAX_COUNT,
                    forall|q: int| 0 <= q < n_edges ==> #[trigger] overlaps@[q] <= MAX_COUNT,
                    forall|q: int| start <= q < end ==> (#[trigger] cells@[q]).0 == cells@[start as int].0 && cells@[q].1
                        == cells@[start as int].1,
                    forall|i: int, j: int| 0 <= i < j < cells@.len() ==> key_lt(cells@[i], cells@[j]),
                    unsaturated(crossings@) ==> usum(crossings@) % 2 == 0,
                    unsaturated(overlaps@) ==> usum(overlaps@) % 2 == 0,
                    group_ok(cells@, routes, start as int, end as int),
                    routes == l.routes@,
                    n_edges == l.routes@.len(),
                    cxs == (|e: int| crossing_set(routes, e)),
                    ovs == (|e: int| overlap_set(g, routes, e)),
                    sets_share(cxs, routes),
                    sets_share(ovs, routes),
                    counts_ok(cxs, cells@, start as int, end as int, a as int, a + 1, crossings@),
                    counts_ok(ovs, cells@, start as int, end as int, a as int, a + 1, overlaps@),
                    forall|i: int|
                        0 <= i < cells@.len() ==> (#[trigger] cells@[i]).3 == cell_bits(routes, cells@[i].2 as int, cells@[i].0 as int, cells@[i].1 as int),
                decreases end - a,
            {
                let mut b = a + 1;
                while b < end
                    invariant
                        a < b <= end,
                        end <= cells@.len(),
                        a < end,
                        n_edges == g.edges@.len(),
                        g.wf(),
                        forall|q: int| 0 <= q < cells@.len() ==> (#[trigger] cells@[q]).2 < n_edges,
                        fork_cells@.len() == n_edges,
                        join_cells@.len() == n_edges,
                        crossings@.len() == n_edges,
                        overlaps@.len() == n_edges,
                        forall|q: int| 0 <= q < n_edges ==> #[trigger] crossings@[q] <= MAX_COUNT,
                        forall|q: int| 0 <= q < n_edges ==> #[trigger] overlaps@[q] <= MAX_COUNT,
                        start <= a,
                        forall|q: int| start <= q < end ==> (#[trigger] cells@[q]).0 == cells@[start as int].0 && cells@[q].1
                            == cells@[start as int].1,
                        forall|i: int, j: int| 0 <= i < j < cells@.len() ==> key_lt(cells@[i], cells@[j]),
                        unsaturated(crossings@) ==> usum(crossings@) % 2 == 0,
                        unsaturated(overlaps@) ==> usum(overlaps@) % 2 == 0,
                        group_ok(cells@, routes, start as int, end as int),
                        routes == l.routes@,
                        n_edges == l.routes@.len(),
                        cxs == (|e: int| crossing_set(routes, e)),
                        ovs == (|e: int| overlap_set(g, routes, e)),
                        sets_share(cxs, routes),
                        sets_share(ovs, routes),
                        counts_ok(cxs, cells@, start as int, end as int, a as int, b as int, crossings@),
                        counts_ok(ovs, cells@, start as int, end as int, a as int, b as int, overlaps@),
                        forall|i: int|
                            0 <= i < cells@.len() ==> (#[trigger] cells@[i]).3 == cell_bits(routes, cells@[i].2 as int, cells@[i].0 as int, cells@[i].1 as int),
                    decreases end - b,
                {
                    let x = cells[a];
                    let y = cells[b];
                    let (ea, eb) = (x.2 as usize, y.2 as usize);
                    proof {
                        assert(key_lt(cells@[a as int], cells@[b as int]));
                        assert(cells@[a as int].0 == cells@[start as int].0 && cells@[a as int].1 == cells@[start as int].1);
                        assert(cells@[b as int].0 == cells@[start as int].0 && cells@[b as int].1 == cells@[start as int].1);
                        assert(ea != eb);
                    }
                    let crossing = (straight_h(x.3) && straight_v(y.3)) || (straight_v(x.3) && straight_h(y.3));
                    let ghost cb0 = crossings@;
                    let ghost ob0 = overlaps@;
                    let ghost hit_o = !crossing && g.edges@[ea as int].from.0 != g.edges@[eb as int].from.0
                        && g.edges@[ea as int].to.0 != g.edges@[eb as int].to.0;
                    if crossing {
                        let ghost c0 = crossings@;
                        let xa = inc(crossings[ea]);
                        crossings.set(ea, xa);
                        let xb = inc(crossings[eb]);
                        crossings.set(eb, xb);
                        proof {
                            lemma_pair_parity(c0, ea as int, eb as int, xa, xb);
                            lemma_bumped_pair(c0, ea as int, eb as int, xa, xb);
                            lemma_bumped_same(ob0, ea as int, eb as int);
                        }
                    } else if g.edges[ea].from.0 == g.edges[eb].from.0 {
                        add_cell(&mut fork_cells[ea], pos);
                        add_cell(&mut fork_cells[eb], pos);
                        proof {
                            lemma_bumped_same(cb0, ea as int, eb as int);
                            lemma_bumped_same(ob0, ea as int, eb as int);
                        }
                    } else if g.edges[ea].to.0 == g.edges[eb].to.0 {
                        add_cell(&mut join_cells[ea], pos);
                        add_cell(&mut join_cells[eb], pos);
                        proof {
                            lemma_bumped_same(cb0, ea as int, eb as int);
                            lemma_bumped_same(ob0, ea as int, eb as int);
                        }
                    } else {
                        let ghost o0 = overlaps@;
                        let xa = inc(overlaps[ea]);
                        overlaps.set(ea, xa);
                        let xb = inc(overlaps[eb]);
                        overlaps.set(eb, xb);
                        proof {
                            lemma_pair_parity(o0, ea as int, eb as int, xa, xb);
                            lemma_bumped_pair(o0, ea as int, eb as int, xa, xb);
                            lemma_bumped_same(cb0, ea as int, eb as int);
                        }
                    }
                    proof {
                        let p = (cells@[start as int].0 as int, cells@[start as int].1 as int);
                        let ia = ea as int;
                        let ib = eb as int;
                        assert(cells@[a as int].0 == cells@[start as int].0 && cells@[a as int].1 == cells@[start as int].1);
                        assert(cells@[b as int].0 == cells@[start as int].0 && cells@[b as int].1 == cells@[start as int].1);
                        assert(on_route(routes, ia, p.0, p.1));
                        assert(on_route(routes, ib, p.0, p.1));
                        assert(x.3 == cell_bits(routes, ia, p.0, p.1));
                        assert(y.3 == cell_bits(routes, ib, p.0, p.1));
                        assert(shares(routes, ia, (p.0, p.1, ib)));
                        assert(shares(routes, ib, (p.0, p.1, ia)));
                        assert(crossing == crosses(routes, ia, (p.0, p.1, ib)));
                        assert(crossing == crosses(routes, ib, (p.0, p.1, ia)));
                        assert(cxs(ia).contains((p.0, p.1, ib)) == crossing);
                        assert(cxs(ib).contains((p.0, p.1, ia)) == crossing);
                        assert(unrelated(g, ia, ib) == (g.edges@[ia].from.0 != g.edges@[ib].from.0 && g.edges@[ia].to.0
                            != g.edges@[ib].to.0));
                        assert(unrelated(g, ib, ia) == unrelated(g, ia, ib));
                        assert(ovs(ia).contains((p.0, p.1, ib)) == hit_o);
                        assert(ovs(ib).contains((p.0, p.1, ia)) == hit_o);
                        lemma_counts_step(cxs, cells@, routes, start as int, end as int, a as int, b as int, cb0, crossings@, crossing);
                        lemma_counts_step(ovs, cells@, routes, start as int, end as int, a as int, b as int, ob0, overlaps@, hit_o);
                    }
                    b += 1;
                }
                proof {
                    lemma_counts_row(cxs, cells@, routes, start as int, end as int, a as int, crossings@);
                    lemma_counts_row(ovs, cells@, routes, start as int, end as int, a as int, overlaps@);
                }
                a += 1;
            }
        }
        proof {
            lemma_counts_exit(cxs, cells@, routes, start as int, end as int, crossings@);
            lemma_counts_exit(ovs, cells@, routes, start as int, end as int, overlaps@);
        }
        proof {
            assert(mixed_cells == mc0 + if hit { 1int } else { 0int });
            // Which entries are in this cell.
            assert forall|e: int| 0 <= e < routes.len() && #[trigger] on_route(routes, e, p0.0, p0.1) implies exists|q: int|
                start <= q < end && (#[trigger] cells@[q]).2 == e by {
                let w = choose|w: int| #[trigger] on_window(routes[e].polyline@, w, p0.0, p0.1);
                assert(has_key(cells@, p0.0, p0.1, e));
                let q = choose|q: int| 0 <= q < cells@.len() && #[trigger] cells@[q].0 == p0.0 && cells@[q].1 == p0.1 && cells@[q].2 == e;
                lemma_group(cells@, start as int, end as int, q);
            }
            assert(hit <==> mixed_at(routes, p0.0, p0.1)) by {
                if hit {
                    let q = choose|q: int| start < q < end && routes[(#[trigger] cells@[q]).2 as int].colour != routes[cells@[start as int].2 as int].colour;
                    assert(on_route(routes, cells@[q].2 as int, p0.0, p0.1));
                    assert(on_route(routes, cells@[start as int].2 as int, p0.0, p0.1));
                }
                if mixed_at(routes, p0.0, p0.1) {
                    let (e1, e2) = choose|e1: int, e2: int|
                        0 <= e1 < routes.len() && 0 <= e2 < routes.len() && #[trigger] on_route(routes, e1, p0.0, p0.1) && #[trigger] on_route(
                            routes,
                            e2,
                            p0.0,
                            p0.1,
                        ) && routes[e1].colour != routes[e2].colour;
                    let q1 = choose|q: int| start <= q < end && (#[trigger] cells@[q]).2 == e1;
                    let q2 = choose|q: int| start <= q < end && (#[trigger] cells@[q]).2 == e2;
                    assert(end - start >= 2);
                    if routes[e1].colour != routes[cells@[start as int].2 as int].colour {
                        assert(q1 != start);
                        assert(start < q1 < end && routes[cells@[q1].2 as int].colour != routes[cells@[start as int].2 as int].colour);
                    } else {
                        assert(q2 != start);
                        assert(start < q2 < end && routes[cells@[q2].2 as int].colour != routes[cells@[start as int].2 as int].colour);
                    }
                }
            }
            assert(!ms.contains(p0)) by {
                if seen_cell(cells@, start as int, p0) {
                    let q = choose|q: int| 0 <= q < start && (#[trigger] cells@[q]).0 == p0.0 && cells@[q].1 == p0.1;
                    assert(pos_lt(cells@[q], cells@[start as int]));
                }
            }
            let ms1 = if hit { ms.insert(p0) } else { ms };
            assert(ms1 =~= Set::new(|p: (int, int)| seen_cell(cells@, end as int, p) && mixed_at(routes, p.0, p.1))) by {
                assert forall|p: (int, int)| #[trigger] seen_cell(cells@, end as int, p) <==> seen_cell(cells@, start as int, p) || p == p0 by {
                    if seen_cell(cells@, end as int, p) {
                        let q = choose|q: int| 0 <= q < end && (#[trigger] cells@[q]).0 == p.0 && cells@[q].1 == p.1;
                        if q >= start {
                            assert(p == p0);
                        }
                    }
                    if p == p0 {
                        assert(cells@[start as int].0 == p.0 && cells@[start as int].1 == p.1);
                    }
                    if seen_cell(cells@, start as int, p) {
                        let q = choose|q: int| 0 <= q < start && (#[trigger] cells@[q]).0 == p.0 && cells@[q].1 == p.1;
                        assert(cells@[q].0 == p.0);
                    }
                }
            }
            ms = ms1;
            if end < cells.len() {
                assert(key_lt(cells@[end - 1], cells@[end as int]));
                assert forall|q: int| 0 <= q < end implies pos_lt(#[trigger] cells@[q], cells@[end as int]) by {
                    if q < start {
                        assert(pos_lt(cells@[q], cells@[start as int]));
                    }
                }
            }
        }
        start = end;
    }
    proof {
        lemma_counts_all(cxs, cells@, routes, crossings@);
        lemma_counts_all(ovs, cells@, routes, overlaps@);
        assert(ms =~= mixed_set(l.routes@)) by {
            assert forall|p: (int, int)| mixed_at(l.routes@, p.0, p.1) implies #[trigger] seen_cell(cells@, cells@.len() as int, p) by {
                let (e1, e2) = choose|e1: int, e2: int|
                    0 <= e1 < l.routes@.len() && 0 <= e2 < l.routes@.len() && #[trigger] on_route(l.routes@, e1, p.0, p.1) && #[trigger] on_route(
                        l.routes@,
                        e2,
                        p.0,
                        p.1,
                    ) && l.routes@[e1].colour != l.routes@[e2].colour;
                let w = choose|w: int| #[trigger] on_window(l.routes@[e1].polyline@, w, p.0, p.1);
                assert(has_key(cells@, p.0, p.1, e1));
                let q = choose|q: int| 0 <= q < cells@.len() && #[trigger] cells@[q].0 == p.0 && cells@[q].1 == p.1 && cells@[q].2 == e1;
                assert(cells@[q].0 == p.0 && cells@[q].1 == p.1);
            }
        }
    }
    let mut edges: Vec<EdgeScore> = Vec::new();
    let mut ei: usize = 0;
    while ei < n_edges
        invariant
            ei <= n_edges,
            n_edges == g.edges@.len(),
            n_edges == l.routes@.len(),
            n_edges <= MAX_EDGES,
            g.wf(),
            fork_cells@.len() == n_edges,
            join_cells@.len() == n_edges,
            crossings@.len() == n_edges,
            overlaps@.len() == n_edges,
            forall|k: int| 0 <= k < n_edges ==> #[trigger] crossings@[k] <= MAX_COUNT,
            forall|k: int| 0 <= k < n_edges ==> #[trigger] overlaps@[k] <= MAX_COUNT,
            edges@.len() == ei,
            forall|i: int| 0 <= i < ei ==> {
                let e = #[trigger] edges@[i];
                let r = l.routes@[i];
                &&& e.edge == EdgeId(i as u32)
                &&& (e.back, e.span as int) == span_spec(l, g, i)
                &&& e.bends == if r.polyline@.len() >= 2 { r.polyline@.len() - 2 } else { 0 }
                &&& e.allowed == if e.back || e.span > 1 { 4usize } else { 2usize }
                &&& e.back ==> e.detour == 0
                &&& !e.back ==> e.detour == route_detour(r.polyline@)
                &&& e.overlaps <= MAX_COUNT
                &&& e.crossings <= MAX_COUNT
            },
            forall|i: int| 0 <= i < ei ==> (#[trigger] edges@[i]).crossings == crossings@[i] && edges@[i].overlaps == overlaps@[i],
        decreases n_edges - ei,
    {
        let e = &g.edges[ei];
        let r = &l.routes[ei];
        let (back, span) = match (l.card(e.from), l.card(e.to)) {
            (Some(f), Some(t)) => {
                let d = if t.col >= f.col { t.col - f.col } else { f.col - t.col };
                (t.col <= f.col, if d > 1 { d } else { 1 })
            },
            _ => (false, 1),
        };
        let len = r.polyline.len();
        let bends = if len >= 2 { len - 2 } else { 0 };
        let allowed: usize = if back || span > 1 { 4 } else { 2 };
        let pts = &r.polyline;
        let mut travelled: i64 = 0;
        let mut w: usize = 0;
        while w < pts.len() && w + 1 < pts.len()
            invariant
                w <= pts@.len(),
                pts@.len() > 0 ==> w < pts@.len(),
                0 <= travelled <= i64::MAX / 2,
                travelled == (if travel(pts@, w as nat) > TRAVEL_CAP { TRAVEL_CAP as int } else { travel(pts@, w as nat) }),
            decreases pts.len() - w,
        {
            proof {
                lemma_travel_nonneg(pts@, w as nat);
            }
            if pts[w].0 == pts[w + 1].0 {
                let dy = pts[w + 1].1 as i64 - pts[w].1 as i64;
                let step = if dy < 0 { -dy } else { dy };
                travelled = if travelled > i64::MAX / 2 - step { i64::MAX / 2 } else { travelled + step };
            }
            w += 1;
        }
        let (y0, y1) = if pts.len() > 0 { (pts[0].1, pts[pts.len() - 1].1) } else { (0, 0) };
        let rise = y1 as i64 - y0 as i64;
        let detour = if back { 0 } else { clamp_i32(travelled - (if rise < 0 { -rise } else { rise })) };
        let forks = components(&fork_cells[ei]);
        let joins = components(&join_cells[ei]);
        edges.push(EdgeScore {
            edge: EdgeId(ei as u32),
            back,
            span,
            bends,
            allowed,
            forks,
            joins,
            crossings: crossings[ei],
            overlaps: overlaps[ei],
            detour,
        });
        ei += 1;
    }
    proof {
        assert forall|e: int| 0 <= e < edges@.len() implies #[trigger] per_edge_exact(g, l, edges@[e], e) by {
            assert(whole_at(cxs, crossings@, e));
            assert(whole_at(ovs, overlaps@, e));
            assert(cxs(e) == crossing_set(l.routes@, e));
            assert(ovs(e) == overlap_set(g, l.routes@, e));
        }
        lemma_sums_match(edges@, crossings@, overlaps@);
        if edges_unsaturated(edges@) {
            assert forall|k: int| 0 <= k < crossings@.len() implies #[trigger] crossings@[k] < MAX_COUNT by {
                assert(edges@[k].crossings == crossings@[k]);
            }
            assert forall|k: int| 0 <= k < overlaps@.len() implies #[trigger] overlaps@[k] < MAX_COUNT by {
                assert(edges@[k].overlaps == overlaps@[k]);
            }
        }
        assert(edges_unsaturated(edges@) ==> sum_crossings(edges@) % 2 == 0 && sum_overlaps(edges@) % 2 == 0);
    }
    // Symmetry of every fan-out and fan-in over forward edges.
    let n_nodes = g.nodes.len();
    let mut asym: i64 = 0;
    let mut side: usize = 0;
    while side < 2
        invariant
            side <= 2,
            i32::MIN <= asym <= i32::MAX,
            edges@.len() == n_edges,
            n_edges == g.edges@.len(),
            n_edges == l.routes@.len(),
            n_nodes == g.nodes@.len(),
            forall|i: int| 0 <= i < n_edges ==> (#[trigger] edges@[i]).back == span_spec(l, g, i).0,
            asym == asym_acc(g, l, side as nat, 0),
        decreases 2 - side,
    {
        let mut v: usize = 0;
        while v < n_nodes
            invariant
                v <= n_nodes,
                side < 2,
                i32::MIN <= asym <= i32::MAX,
                edges@.len() == n_edges,
                n_edges == g.edges@.len(),
                n_edges == l.routes@.len(),
                n_nodes == g.nodes@.len(),
                forall|i: int| 0 <= i < n_edges ==> (#[trigger] edges@[i]).back == span_spec(l, g, i).0,
                asym == asym_acc(g, l, side as nat, v as nat),
            decreases n_nodes - v,
        {
            let card = l.card(NodeId(v as u32));
            let mut rows: Vec<i32> = Vec::new();
            let mut ei: usize = 0;
            while ei < n_edges
                invariant
                    ei <= n_edges,
                    side < 2,
                    edges@.len() == n_edges,
                    n_edges == g.edges@.len(),
                    n_edges == l.routes@.len(),
                    forall|i: int| 0 <= i < n_edges ==> (#[trigger] edges@[i]).back == span_spec(l, g, i).0,
                    rows@ == fan_rows(g, l, side as int, v as int, ei as nat),
                decreases n_edges - ei,
            {
                let e = &g.edges[ei];
                if !edges[ei].back {
                    if side == 0 && e.from.0 as usize == v {
                        rows.push(after_first_vertical(&l.routes[ei]));
                    } else if side == 1 && e.to.0 as usize == v {
                        rows.push(before_last_vertical(&l.routes[ei]));
                    }
                }
                ei += 1;
            }
            if let Some(card) = card {
                let bus = card.y as i64 + card.h as i64 / 2;
                let bus32 = clamp_i32(bus);
                let f = fan(&rows, bus32);
                proof {
                    if v > u32::MAX {
                        lemma_no_fan_past_ids(g, l, side as int, v as int, n_edges as nat);
                    } else {
                        assert(v as u32 as int == v as int);
                    }
                }
                asym = clamp_i32(asym + f) as i64;
            } else {
                proof {
                    if v > u32::MAX {
                        lemma_no_fan_past_ids(g, l, side as int, v as int, n_edges as nat);
                    }
                }
            }
            v += 1;
        }
        side += 1;
    }
    let asymmetry = asym as i32;
    let mut bends_over_fwd: usize = 0;
    let mut bends_over_skip: usize = 0;
    let mut bends_over_back: usize = 0;
    let mut junction_over: usize = 0;
    let mut sum_o: u64 = 0;
    let mut sum_c: u64 = 0;
    let mut sum_d: i64 = 0;
    let mut k: usize = 0;
    while k < edges.len()
        invariant
            k <= edges@.len(),
            edges@.len() <= MAX_EDGES,
            forall|i: int| 0 <= i < edges@.len() ==> (#[trigger] edges@[i]).overlaps <= MAX_COUNT,
            forall|i: int| 0 <= i < edges@.len() ==> (#[trigger] edges@[i]).crossings <= MAX_COUNT,
            bends_over_fwd == count(edges@.take(k as int), |e: EdgeScore| over_fwd(e)),
            bends_over_skip == count(edges@.take(k as int), |e: EdgeScore| over_skip(e)),
            bends_over_back == count(edges@.take(k as int), |e: EdgeScore| over_back(e)),
            junction_over == count(edges@.take(k as int), |e: EdgeScore| over_junction(e)),
            sum_o == sum_overlaps(edges@.take(k as int)),
            sum_c == sum_crossings(edges@.take(k as int)),
            sum_d == sum_detour(edges@.take(k as int)),
            bends_over_fwd <= k,
            bends_over_skip <= k,
            bends_over_back <= k,
            junction_over <= k,
            sum_o <= k * MAX_COUNT,
            sum_c <= k * MAX_COUNT,
            k * i32::MIN <= sum_d <= k * i32::MAX,
        decreases edges.len() - k,
    {
        let e = &edges[k];
        proof {
            assert(edges@.take(k + 1).drop_last() =~= edges@.take(k as int));
            assert(edges@.take(k + 1).last() == edges@[k as int]);
            assert((k + 1) * MAX_COUNT == k * MAX_COUNT + MAX_COUNT) by (nonlinear_arith);
            assert((k + 1) * i32::MIN == k * i32::MIN + i32::MIN) by (nonlinear_arith);
            assert((k + 1) * i32::MAX == k * i32::MAX + i32::MAX) by (nonlinear_arith);
            assert(k * MAX_COUNT <= MAX_EDGES * MAX_COUNT) by (nonlinear_arith)
                requires k <= MAX_EDGES;
            assert(k * i32::MAX <= MAX_EDGES * i32::MAX) by (nonlinear_arith)
                requires k <= MAX_EDGES;
            assert(k * i32::MIN >= MAX_EDGES * i32::MIN) by (nonlinear_arith)
                requires k <= MAX_EDGES;
        }
        if !e.back && e.span == 1 && e.bends > e.allowed {
            bends_over_fwd += 1;
        }
        if !e.back && e.span > 1 && e.bends > e.allowed {
            bends_over_skip += 1;
        }
        if e.back && e.bends > e.allowed {
            bends_over_back += 1;
        }
        if e.forks > 1 || e.joins > 1 {
            junction_over += 1;
        }
        sum_o = sum_o + e.overlaps as u64;
        sum_c = sum_c + e.crossings as u64;
        sum_d = sum_d + e.detour as i64;
        k += 1;
    }
    proof {
        assert(edges@.take(k as int) =~= edges@);
    }
    let overlaps_n = (sum_o / 2) as usize;
    let crossings_n = (sum_c / 2) as usize;
    let detour = clamp_i32(sum_d);
    let mut widest: u16 = 0;
    let mut narrowest: u16 = 0;
    let mut q: usize = 0;
    while q < l.gaps.len()
        invariant
            q <= l.gaps@.len(),
            q > 0 ==> widest == widest_gap(l.gaps@.take(q as int)),
            q > 0 ==> narrowest == narrowest_gap(l.gaps@.take(q as int)),
            q == 0 ==> widest == 0 && narrowest == 0,
        decreases l.gaps.len() - q,
    {
        proof {
            assert(l.gaps@.take(q + 1).drop_last() =~= l.gaps@.take(q as int));
        }
        let w = l.gaps[q].width;
        if q == 0 || w > widest {
            widest = w;
        }
        if q == 0 || w < narrowest {
            narrowest = w;
        }
        q += 1;
    }
    proof {
        assert(l.gaps@.take(q as int) =~= l.gaps@);
        lemma_gap_order(l.gaps@);
    }
    let gap_spread: u16 = if widest > narrowest { widest - narrowest } else { 0 };
    let total: i64 = 10 * (bends_over_fwd + bends_over_skip + bends_over_back) as i64 + 10 * junction_over as i64 + 5
        * overlaps_n as i64 + 3 * crossings_n as i64 + 2 * asymmetry as i64 + detour as i64;
    Score {
        edges,
        bends_over_fwd,
        bends_over_skip,
        bends_over_back,
        junction_over,
        overlaps: overlaps_n,
        crossings: crossings_n,
        asymmetry,
        detour,
        mixed_cells,
        gap_spread,
        scatter: 0,
        height: l.height,
        width: l.width,
        total,
    }
}

/// Blank rows between the runs crossing each column: how far the parallel
/// runs are from being one solid ribbon. Rows a card covers do not count.
/// Reporting only, so it is not on the path the layout search runs; use
/// [`score_full`] when the number is wanted.
pub fn scatter(l: &Layout) -> (total: usize)
    ensures
        l.gaps@.len() == 0 ==> total == 0,
        l.gaps@.len() > 0 ==> total == scatter_upto(l, card_width(l), l.col_x@.len() as int),
{
    if l.gaps.len() == 0 {
        return 0;
    }
    let first_x: i64 = if l.col_x.len() > 0 { l.col_x[0] as i64 } else { 0 };
    let card_w: i64 = l.gaps[0].x0 as i64 - first_x;
    let mut total: usize = 0;
    let mut c: usize = 0;
    while c < l.col_x.len()
        invariant
            c <= l.col_x@.len(),
            -4294967296 <= card_w <= 4294967296,
            card_w == card_width(l),
            total == scatter_upto(l, card_w as int, c as int),
        decreases l.col_x.len() - c,
    {
        let x0 = l.col_x[c] as i64;
        let x1 = x0 + card_w;
        // The rows of the horizontal runs that cross the whole column.
        let mut rows: Vec<i32> = Vec::new();
        let mut ri: usize = 0;
        while ri < l.routes.len()
            invariant
                ri <= l.routes@.len(),
                rows@ == rows_upto(l, x0 as int, x1 as int, ri as int),
            decreases l.routes.len() - ri,
        {
            let pts = &l.routes[ri].polyline;
            let ghost r0 = rows@;
            let mut w: usize = 0;
            while w < pts.len() && w + 1 < pts.len()
                invariant
                    w <= pts@.len(),
                    pts@.len() > 0 ==> w < pts@.len(),
                    rows@ == r0 + route_rows(pts@, x0 as int, x1 as int, w as int),
                decreases pts.len() - w,
            {
                let (a, b) = (pts[w], pts[w + 1]);
                let lo = if a.0 < b.0 { a.0 } else { b.0 };
                let hi = if a.0 < b.0 { b.0 } else { a.0 };
                if a.1 == b.1 && lo as i64 <= x0 && hi as i64 >= x1 {
                    rows.push(a.1);
                }
                w += 1;
                proof {
                    assert(rows@ =~= r0 + route_rows(pts@, x0 as int, x1 as int, w as int));
                }
            }
            ri += 1;
            proof {
                assert(route_rows(pts@, x0 as int, x1 as int, w as int) == route_rows(
                    pts@,
                    x0 as int,
                    x1 as int,
                    pts@.len() - 1,
                )) by {
                    if pts@.len() == 0 {
                        assert(w == 0);
                    }
                }
            }
        }
        let ghost t0 = total;
        if rows.len() > 0 {
            let mut lo = rows[0];
            let mut hi = rows[0];
            let mut i: usize = 1;
            while i < rows.len()
                invariant
                    1 <= i <= rows@.len(),
                    lo <= hi,
                    lo == least_row(rows@.take(i as int)),
                    hi == most_row(rows@.take(i as int)),
                decreases rows.len() - i,
            {
                proof {
                    assert(rows@.take(i + 1).drop_last() =~= rows@.take(i as int));
                }
                if rows[i] < lo {
                    lo = rows[i];
                }
                if rows[i] > hi {
                    hi = rows[i];
                }
                i += 1;
            }
            proof {
                assert(rows@.take(i as int) =~= rows@);
            }
            let mut row = lo;
            loop
                invariant_except_break
                    total == sat_add(t0 as int, blanks(l, c as int, rows@, lo as int, row as int)),
                invariant
                    lo <= row <= hi,
                    t0 <= usize::MAX,
                ensures
                    total == sat_add(t0 as int, blanks(l, c as int, rows@, lo as int, hi + 1)),
                decreases hi - row,
            {
                let mut used = false;
                let mut i: usize = 0;
                while i < rows.len()
                    invariant
                        i <= rows@.len(),
                        used == rows@.take(i as int).contains(row),
                    decreases rows.len() - i,
                {
                    proof {
                        let t = rows@.take(i as int);
                        let t1 = rows@.take(i + 1);
                        assert(t1 =~= t.push(rows@[i as int]));
                        if t1.contains(row) {
                            let j = choose|j: int| 0 <= j < t1.len() && t1[j] == row;
                            if j < i {
                                assert(t[j] == row);
                            }
                        }
                        if t.contains(row) {
                            let j = choose|j: int| 0 <= j < t.len() && t[j] == row;
                            assert(t1[j] == row);
                        }
                        if rows@[i as int] == row {
                            assert(t1[i as int] == row);
                        }
                        assert(t1.contains(row) == (t.contains(row) || rows@[i as int] == row));
                    }
                    if rows[i] == row {
                        used = true;
                    }
                    i += 1;
                }
                proof {
                    assert(rows@.take(i as int) =~= rows@);
                }
                let mut blocked = false;
                let mut k: usize = 0;
                while k < l.cards.len()
                    invariant
                        k <= l.cards@.len(),
                        blocked == exists|j: int| 0 <= j < k && #[trigger] covers_row(l.cards@[j], c as int, row as int),
                    decreases l.cards.len() - k,
                {
                    let card = &l.cards[k];
                    if card.col == c && row as i64 >= card.y as i64 - 1 && row as i64 <= card.y as i64 + card.h as i64 {
                        blocked = true;
                    }
                    proof {
                        if covers_row(l.cards@[k as int], c as int, row as int) {
                            assert(exists|j: int| 0 <= j < k + 1 && #[trigger] covers_row(l.cards@[j], c as int, row as int));
                        }
                    }
                    k += 1;
                }
                proof {
                    assert(blocked == row_blocked(l, c as int, row as int));
                }
                if !used && !blocked && total < usize::MAX {
                    total += 1;
                }
                if row == hi {
                    break;
                }
                row += 1;
            }
        }
        c += 1;
    }
    total
}

/// How far a column's card reaches across: the first gap's left edge less
/// the first column's.
pub open spec fn card_width(l: &Layout) -> int {
    l.gaps@[0].x0 - if l.col_x@.len() > 0 { l.col_x@[0] as int } else { 0 }
}

/// The rows of the horizontal runs among the first `k` windows of `pts`
/// that cross the whole span `x0..x1`.
pub open spec fn route_rows(pts: Seq<(i32, i32)>, x0: int, x1: int, k: int) -> Seq<i32>
    decreases k,
{
    if k <= 0 {
        Seq::empty()
    } else {
        let prev = route_rows(pts, x0, x1, k - 1);
        let (a, b) = (pts[k - 1], pts[k]);
        let lo = if a.0 < b.0 { a.0 } else { b.0 };
        let hi = if a.0 < b.0 { b.0 } else { a.0 };
        if a.1 == b.1 && lo <= x0 && hi >= x1 { prev.push(a.1) } else { prev }
    }
}

/// `route_rows` over the first `k` routes.
pub open spec fn rows_upto(l: &Layout, x0: int, x1: int, k: int) -> Seq<i32>
    decreases k,
{
    if k <= 0 {
        Seq::empty()
    } else {
        let pts = l.routes@[k - 1].polyline@;
        rows_upto(l, x0, x1, k - 1) + route_rows(pts, x0, x1, pts.len() - 1)
    }
}

/// Card `k` in column `c` covers row `r`, its margins included.
pub open spec fn covers_row(k: CardPos, c: int, r: int) -> bool {
    k.col == c && k.y - 1 <= r <= k.y + k.h
}

/// Some card of column `c` covers row `r`.
pub open spec fn row_blocked(l: &Layout, c: int, r: int) -> bool {
    exists|j: int| 0 <= j < l.cards@.len() && #[trigger] covers_row(l.cards@[j], c, r)
}

/// Rows in `lo..y` that no crossing run takes and no card covers.
pub open spec fn blanks(l: &Layout, c: int, rows: Seq<i32>, lo: int, y: int) -> int
    decreases y - lo,
{
    if y <= lo {
        0
    } else {
        blanks(l, c, rows, lo, y - 1) + if !rows.contains((y - 1) as i32) && !row_blocked(l, c, y - 1) { 1int } else { 0int }
    }
}

/// `a + b` held at `usize::MAX`.
pub open spec fn sat_add(a: int, b: int) -> int {
    if a + b > usize::MAX { usize::MAX as int } else { a + b }
}

/// The blank rows of column `c`.
pub open spec fn column_scatter(l: &Layout, card_w: int, c: int) -> int {
    let x0 = l.col_x@[c] as int;
    let rows = rows_upto(l, x0, x0 + card_w, l.routes@.len() as int);
    if rows.len() > 0 {
        blanks(l, c, rows, least_row(rows), most_row(rows) + 1)
    } else {
        0
    }
}

/// The blank rows of the first `c` columns, held at `usize::MAX`.
pub open spec fn scatter_upto(l: &Layout, card_w: int, c: int) -> int
    decreases c,
{
    if c <= 0 { 0 } else { sat_add(scatter_upto(l, card_w, c - 1), column_scatter(l, card_w, c - 1)) }
}

/// Score a layout of `g`, reporting metrics included. The layout search calls
/// [`score`] instead, which leaves the reporting-only ones out.
pub fn score_full(g: &ViewGraph, l: &Layout) -> (s: Score)
    requires
        l.routes@.len() == g.edges@.len(),
        g.edges@.len() <= MAX_EDGES,
        g.wf(),
    ensures
        s.edges@.len() == l.routes@.len(),
        s.total == 10 * (s.bends_over_fwd + s.bends_over_skip + s.bends_over_back) + 10 * s.junction_over + 5
            * s.overlaps + 3 * s.crossings + 2 * s.asymmetry + s.detour,
        s.crossings <= MAX_EDGES * MAX_COUNT,
        s.height == l.height,
        s.width == l.width,
        s.asymmetry == asym_acc(g, l, 1, g.nodes@.len()),
        s.gap_spread == widest_gap(l.gaps@) - narrowest_gap(l.gaps@),
        s.detour == clamp32(sum_detour(s.edges@)),
        s.scatter == if l.gaps@.len() == 0 { 0 } else { scatter_upto(l, card_width(l), l.col_x@.len() as int) },
{
    let base = score(g, l);
    let sc = scatter(l);
    Score { scatter: sc, ..base }
}

/// The score on one line, each count right-aligned in its column.
pub open spec fn score_line(s: Score) -> Seq<char> {
    "bends>2 "@ + right(signed(s.bends_over_fwd as int), 2) + "  skip>4 "@ + right(signed(s.bends_over_skip as int), 2)
        + "  back>4 "@ + right(signed(s.bends_over_back as int), 2) + "  junc>1 "@ + right(
        signed(s.junction_over as int),
        2,
    ) + "  overlap "@ + right(signed(s.overlaps as int), 3) + "  cross "@ + right(signed(s.crossings as int), 3)
        + "  asym "@ + right(signed(s.asymmetry as int), 3) + "  detour "@ + right(signed(s.detour as int), 3)
        + "  mixed "@ + right(signed(s.mixed_cells as int), 3) + "  gap± "@ + right(signed(s.gap_spread as int), 2)
        + "  scatter "@ + right(signed(s.scatter as int), 3) + "  "@ + dec(s.width as nat) + "x"@ + dec(
        s.height as nat,
    ) + "  total "@ + right(signed(s.total as int), 4)
}

impl Score {
    /// The score on one line, as `score_line` lays it out.
    pub fn to_string(&self) -> (s: String)
        ensures
            s@ == score_line(*self),
    {
        let mut s = String::new();
        push_str(&mut s, "bends>2 ");
        push_number(&mut s, self.bends_over_fwd as i128, 2);
        push_str(&mut s, "  skip>4 ");
        push_number(&mut s, self.bends_over_skip as i128, 2);
        push_str(&mut s, "  back>4 ");
        push_number(&mut s, self.bends_over_back as i128, 2);
        push_str(&mut s, "  junc>1 ");
        push_number(&mut s, self.junction_over as i128, 2);
        push_str(&mut s, "  overlap ");
        push_number(&mut s, self.overlaps as i128, 3);
        push_str(&mut s, "  cross ");
        push_number(&mut s, self.crossings as i128, 3);
        push_str(&mut s, "  asym ");
        push_number(&mut s, self.asymmetry as i128, 3);
        push_str(&mut s, "  detour ");
        push_number(&mut s, self.detour as i128, 3);
        push_str(&mut s, "  mixed ");
        push_number(&mut s, self.mixed_cells as i128, 3);
        push_str(&mut s, "  gap± ");
        push_number(&mut s, self.gap_spread as i128, 2);
        push_str(&mut s, "  scatter ");
        push_number(&mut s, self.scatter as i128, 3);
        push_str(&mut s, "  ");
        push_all(&mut s, &dec_wide(self.width as u128));
        push_str(&mut s, "x");
        push_all(&mut s, &dec_wide(self.height as u128));
        push_str(&mut s, "  total ");
        push_number(&mut s, self.total as i128, 4);
        proof {
            assert(s@ =~= score_line(*self));
        }
        s
    }
}

} // verus!
