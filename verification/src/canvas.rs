//! The grid an edge drawing is painted into: each cell holds which of its
//! four sides a line leaves by, what colour it was drawn in (or that several
//! met there), the longest vertical run through it, arrowheads, and the
//! glyphs that bridge a crossing. What a cell shows is read off at the end.

use vstd::prelude::*;

use crate::layout::{EdgeColour, Route};
use crate::style::CrossingStyle;
use crate::view::ViewGraph;

verus! {

/// A line leaves the cell to the left.
pub const L: u8 = 1;
/// To the right.
pub const R: u8 = 2;
/// Upwards.
pub const U: u8 = 4;
/// Downwards.
pub const D: u8 = 8;

/// The colour of a cell: nothing drawn, one edge colour, or several met.
#[derive(Debug, Clone, Copy, PartialEq, Eq, Structural)]
pub enum CellInk {
    Blank,
    One(Option<EdgeColour>),
    Mixed,
}

/// Which way an arrowhead points.
#[derive(Debug, Clone, Copy, PartialEq, Eq, Structural)]
pub enum Heading {
    Right,
    Up,
}

/// What a canvas holds, cell by cell in rows of `w`.
pub struct Picture {
    pub w: int,
    pub h: int,
    pub dx: int,
    pub dy: int,
    pub cells: Seq<u8>,
    pub ink: Seq<CellInk>,
    pub turn: Seq<(CellInk, i32)>,
    pub heads: Seq<Option<(CellInk, Heading)>>,
    pub runs: Seq<Seq<(usize, u8)>>,
    pub over: Seq<Option<(char, CellInk)>>,
    pub edge: usize,
}

impl Picture {
    /// Every table holds a cell per position.
    pub open spec fn sized(self) -> bool {
        &&& 0 <= self.w
        &&& 0 <= self.h
        &&& self.cells.len() == self.w * self.h
        &&& self.ink.len() == self.w * self.h
        &&& self.turn.len() == self.w * self.h
        &&& self.heads.len() == self.w * self.h
        &&& self.runs.len() == self.w * self.h
        &&& self.over.len() == self.w * self.h
    }
}

/// The grid an edge drawing is painted into, `w` by `h` cells, showing the
/// drawing from `(dx, dy)` on.
pub struct Canvas {
    w: usize,
    h: usize,
    dx: i32,
    dy: i32,
    cells: Vec<u8>,
    ink: Vec<CellInk>,
    /// Colour of the longest vertical run through a cell, with its length:
    /// where a bus mixes colours, the branch that reaches furthest wins.
    turn: Vec<(CellInk, i32)>,
    /// Arrowhead ink, and which way the head points.
    heads: Vec<Option<(CellInk, Heading)>>,
    /// Which edge left which bits in a cell, by its index in the view graph.
    runs: Vec<Vec<(usize, u8)>>,
    /// Glyph and ink painted instead of the cell's bits: the bridge style.
    over: Vec<Option<(char, CellInk)>>,
    /// The edge being painted.
    edge: usize,
}

impl Canvas {
    /// What the canvas holds.
    pub closed spec fn picture(&self) -> Picture {
        Picture {
            w: self.w as int,
            h: self.h as int,
            dx: self.dx as int,
            dy: self.dy as int,
            cells: self.cells@,
            ink: self.ink@,
            turn: self.turn@,
            heads: self.heads@,
            runs: self.runs@.map_values(|r: Vec<(usize, u8)>| r@),
            over: self.over@,
            edge: self.edge,
        }
    }
}

/// The index of the cell showing drawing position `(x, y)`, if one does.
pub open spec fn idx_spec(p: Picture, x: int, y: int) -> Option<int> {
    let cx = x - p.dx;
    let cy = y - p.dy;
    if 0 <= cx < p.w && 0 <= cy < p.h {
        Some(cy * p.w + cx)
    } else {
        None
    }
}

/// A cell's colour once a line of `colour` is drawn through it.
pub open spec fn ink_after(old: CellInk, colour: Option<EdgeColour>) -> CellInk {
    match old {
        CellInk::Blank => CellInk::One(colour),
        CellInk::One(c) => if c == colour {
            CellInk::One(c)
        } else {
            CellInk::Mixed
        },
        CellInk::Mixed => CellInk::Mixed,
    }
}

/// The first run from `k` on left by `edge`.
pub open spec fn run_of(runs: Seq<(usize, u8)>, edge: usize, k: int) -> Option<int>
    decreases runs.len() - k,
{
    if k < 0 || k >= runs.len() {
        None
    } else if runs[k].0 == edge {
        Some(k)
    } else {
        run_of(runs, edge, k + 1)
    }
}

/// The run `run_of` finds is `edge`'s.
proof fn lemma_run_of(runs: Seq<(usize, u8)>, edge: usize, j: int)
    requires
        0 <= j,
    ensures
        run_of(runs, edge, j) matches Some(k) ==> j <= k < runs.len() && runs[k].0 == edge,
    decreases runs.len() - j,
{
    if j < runs.len() && runs[j].0 != edge {
        lemma_run_of(runs, edge, j + 1);
    }
}

/// A cell's runs once `edge` leaves `bits` in it: added to its run, or a
/// new run.
pub open spec fn run_with(runs: Seq<(usize, u8)>, edge: usize, bits: u8) -> Seq<(usize, u8)> {
    match run_of(runs, edge, 0) {
        Some(k) => runs.update(k, (edge, runs[k].1 | bits)),
        None => runs.push((edge, bits)),
    }
}

/// The canvas once position `(x, y)` takes `bits` of the current edge in
/// `colour`, as part of a vertical run `reach` long (zero for a horizontal
/// one). Outside the canvas nothing changes.
pub open spec fn set_spec(p: Picture, x: int, y: int, bits: u8, colour: Option<EdgeColour>, reach: i32) -> Picture {
    match idx_spec(p, x, y) {
        None => p,
        Some(i) => Picture {
            cells: p.cells.update(i, p.cells[i] | bits),
            ink: p.ink.update(i, ink_after(p.ink[i], colour)),
            turn: if bits & (U | D) != 0 && reach > p.turn[i].1 {
                p.turn.update(i, (CellInk::One(colour), reach))
            } else {
                p.turn
            },
            runs: p.runs.update(i, run_with(p.runs[i], p.edge, bits)),
            ..p
        },
    }
}


/// The canvas once an arrowhead of `colour` pointing `heading` is painted
/// at position `(x, y)`: a head already there keeps its heading, and its
/// colour when the same, else mixed.
pub open spec fn head_spec(p: Picture, x: int, y: int, colour: Option<EdgeColour>, heading: Heading) -> Picture {
    match idx_spec(p, x, y) {
        None => p,
        Some(i) => Picture {
            heads: p.heads.update(
                i,
                Some(
                    match p.heads[i] {
                        None => (CellInk::One(colour), heading),
                        Some(old) => match old.0 {
                            CellInk::One(c) => if c == colour {
                                (CellInk::One(c), old.1)
                            } else {
                                (CellInk::Mixed, old.1)
                            },
                            _ => (CellInk::Mixed, old.1),
                        },
                    },
                ),
            ),
            ..p
        },
    }
}

/// The sides a horizontal line from `a` to `b` leaves cell `x` by.
pub open spec fn hbits(a: int, b: int, x: int) -> u8 {
    (if x > a {
        L
    } else {
        0u8
    }) | (if x < b {
        R
    } else {
        0u8
    })
}

/// The sides a vertical line from `a` to `b` leaves cell `y` by.
pub open spec fn vbits(a: int, b: int, y: int) -> u8 {
    (if y > a {
        U
    } else {
        0u8
    }) | (if y < b {
        D
    } else {
        0u8
    })
}

/// Positions `x` to `b` of a horizontal line from `a` to `b` on row `y`.
pub open spec fn hline_from(p: Picture, y: int, a: int, b: int, x: int, colour: Option<EdgeColour>) -> Picture
    decreases b + 1 - x,
{
    if x > b {
        p
    } else {
        hline_from(set_spec(p, x, y, hbits(a, b, x), colour, 0), y, a, b, x + 1, colour)
    }
}

/// Positions `y` to `b` of a vertical line from `a` to `b` in column `x`,
/// each cell told the run's length.
pub open spec fn vline_from(p: Picture, x: int, a: int, b: int, y: int, colour: Option<EdgeColour>) -> Picture
    decreases b + 1 - y,
{
    if y > b {
        p
    } else {
        vline_from(set_spec(p, x, y, vbits(a, b, y), colour, (b - a + 1) as i32), x, a, b, y + 1, colour)
    }
}

/// A horizontal line between `x0` and `x1` on row `y`.
pub open spec fn hline_spec(p: Picture, y: int, x0: int, x1: int, colour: Option<EdgeColour>) -> Picture {
    let a = if x0 < x1 { x0 } else { x1 };
    let b = if x0 < x1 { x1 } else { x0 };
    hline_from(p, y, a, b, a, colour)
}

/// A vertical line between `y0` and `y1` in column `x`.
pub open spec fn vline_spec(p: Picture, x: int, y0: int, y1: int, colour: Option<EdgeColour>) -> Picture {
    let a = if y0 < y1 { y0 } else { y1 };
    let b = if y0 < y1 { y1 } else { y0 };
    vline_from(p, x, a, b, a, colour)
}

/// One leg of a path: along the row when both ends share it, else down or
/// up the first end's column.
pub open spec fn leg_spec(p: Picture, s: (i32, i32), t: (i32, i32), colour: Option<EdgeColour>) -> Picture {
    if s.1 == t.1 {
        hline_spec(p, s.1 as int, s.0 as int, t.0 as int, colour)
    } else {
        vline_spec(p, s.0 as int, s.1 as int, t.1 as int, colour)
    }
}

/// The legs of a path from point `k` on.
pub open spec fn path_from(p: Picture, pts: Seq<(i32, i32)>, colour: Option<EdgeColour>, k: int) -> Picture
    decreases pts.len() - k,
{
    if k < 0 || k + 1 >= pts.len() {
        p
    } else {
        path_from(leg_spec(p, pts[k], pts[k + 1], colour), pts, colour, k + 1)
    }
}

/// A whole path of edge `edge` through its corner points.
pub open spec fn path_spec(p: Picture, edge: usize, pts: Seq<(i32, i32)>, colour: Option<EdgeColour>) -> Picture {
    path_from(Picture { edge, ..p }, pts, colour, 0)
}

/// A leg whose positions, relative to the canvas, fit an `i32`, and whose
/// length does too.
pub open spec fn leg_fits(dx: int, dy: int, s: (i32, i32), t: (i32, i32)) -> bool {
    if s.1 == t.1 {
        diff_fits(s.0 as int, dx) && diff_fits(t.0 as int, dx) && diff_fits(s.1 as int, dy)
    } else {
        &&& diff_fits(s.0 as int, dx)
        &&& diff_fits(s.1 as int, dy)
        &&& diff_fits(t.1 as int, dy)
        &&& (if s.1 < t.1 { t.1 - s.1 } else { s.1 - t.1 }) + 1 <= i32::MAX
    }
}

/// Every leg of a path fits.
pub open spec fn path_fits(dx: int, dy: int, pts: Seq<(i32, i32)>) -> bool {
    forall|k: int| 0 <= k && k + 1 < pts.len() ==> leg_fits(dx, dy, #[trigger] pts[k], pts[k + 1])
}

/// Painting keeps the canvas's size, place and edge.
pub open spec fn same_frame(p: Picture, q: Picture) -> bool {
    q.w == p.w && q.h == p.h && q.dx == p.dx && q.dy == p.dy && q.edge == p.edge
}

proof fn lemma_hline_frame(p: Picture, y: int, a: int, b: int, x: int, colour: Option<EdgeColour>)
    ensures
        same_frame(p, hline_from(p, y, a, b, x, colour)),
    decreases b + 1 - x,
{
    if x <= b {
        lemma_hline_frame(set_spec(p, x, y, hbits(a, b, x), colour, 0), y, a, b, x + 1, colour);
    }
}

proof fn lemma_vline_frame(p: Picture, x: int, a: int, b: int, y: int, colour: Option<EdgeColour>)
    ensures
        same_frame(p, vline_from(p, x, a, b, y, colour)),
    decreases b + 1 - y,
{
    if y <= b {
        lemma_vline_frame(set_spec(p, x, y, vbits(a, b, y), colour, (b - a + 1) as i32), x, a, b, y + 1, colour);
    }
}


/// The edge of the first run from `k` on whose bits are exactly `bits`.
pub open spec fn first_with_bits(runs: Seq<(usize, u8)>, bits: u8, k: int) -> Option<usize>
    decreases runs.len() - k,
{
    if k < 0 || k >= runs.len() {
        None
    } else if runs[k].1 == bits {
        Some(runs[k].0)
    } else {
        first_with_bits(runs, bits, k + 1)
    }
}

/// An edge's colour slot, none for an index past the last edge.
pub open spec fn colour_of(colours: Seq<Option<EdgeColour>>, e: int) -> Option<EdgeColour> {
    if 0 <= e < colours.len() {
        colours[e]
    } else {
        None
    }
}

/// Cell `i` is a true crossing: one edge runs straight through it across
/// and another straight through it down, and the two are not one line;
/// edges are one line only when they share an end and a colour.
pub open spec fn crossing(p: Picture, g: ViewGraph, colours: Seq<Option<EdgeColour>>, i: int) -> bool {
    match (first_with_bits(p.runs[i], L | R, 0), first_with_bits(p.runs[i], U | D, 0)) {
        (Some(h), Some(v)) => (h as int) < g.edges@.len() && (v as int) < g.edges@.len() && {
            let he = g.edges@[h as int];
            let ve = g.edges@[v as int];
            !((he.from == ve.from || he.to == ve.to) && colour_of(colours, h as int) == colour_of(
                colours,
                v as int,
            ))
        },
        _ => false,
    }
}

/// The canvas once cell `i` is looked at for a bridge: a true crossing
/// with a plain horizontal run beside it takes the vertical's glyph and
/// colour, and the horizontal is cut in the cells either side that are
/// plain runs.
pub open spec fn bridge_at(p: Picture, g: ViewGraph, colours: Seq<Option<EdgeColour>>, i: int) -> Picture {
    if !crossing(p, g, colours, i) {
        p
    } else {
        let x = i % p.w;
        let left = x > 0 && p.cells[i - 1] == (L | R);
        let right = x + 1 < p.w && p.cells[i + 1] == (L | R);
        if !left && !right {
            p
        } else {
            let over = p.over.update(i, Some(('│', p.turn[i].0)));
            let over = if left {
                over.update(i - 1, Some(('╴', p.ink[i - 1])))
            } else {
                over
            };
            let over = if right {
                over.update(i + 1, Some(('╶', p.ink[i + 1])))
            } else {
                over
            };
            Picture { over, ..p }
        }
    }
}

/// Cells `i` to `n` looked at for bridges, in order.
pub open spec fn bridge_from(p: Picture, g: ViewGraph, colours: Seq<Option<EdgeColour>>, i: int, n: int) -> Picture
    decreases n - i,
{
    if i < 0 || i >= n {
        p
    } else {
        bridge_from(bridge_at(p, g, colours, i), g, colours, i + 1, n)
    }
}

/// Every cell looked at for a bridge.
pub open spec fn bridge_spec(p: Picture, g: ViewGraph, colours: Seq<Option<EdgeColour>>) -> Picture {
    bridge_from(p, g, colours, 0, p.cells.len() as int)
}

/// What a cell shows: an arrowhead, else a bridge glyph, else the glyph of
/// its sides; a cell where colours mixed takes the colour of the longest
/// vertical run through it.
pub open spec fn cell_out(p: Picture, i: int) -> (char, CellInk) {
    match p.heads[i] {
        Some(hd) => (
            match hd.1 {
                Heading::Right => '▶',
                Heading::Up => '▲',
            },
            hd.0,
        ),
        None => match p.over[i] {
            Some(o) => o,
            None => (
                glyph_spec(p.cells[i]),
                match (p.ink[i], p.turn[i].0) {
                    (CellInk::Mixed, CellInk::One(c)) => CellInk::One(c),
                    (ink, _) => ink,
                },
            ),
        },
    }
}

/// Cell `j` is a true crossing, or a plain horizontal run beside one.
pub open spec fn bridged_near(p: Picture, g: ViewGraph, colours: Seq<Option<EdgeColour>>, j: int) -> bool {
    ||| crossing(p, g, colours, j)
    ||| (p.cells[j] == (L | R) && ((j >= 1 && crossing(p, g, colours, j - 1)) || (j + 1 < p.cells.len()
        && crossing(p, g, colours, j + 1))))
}

/// The cells beside cell `i` in its row are cells of the canvas.
proof fn lemma_beside(i: int, w: int, h: int)
    requires
        0 <= i < w * h,
        0 <= w,
        0 <= h,
    ensures
        w > 0,
        i % w > 0 ==> i >= 1,
        i % w + 1 < w ==> i + 1 < w * h,
{
    assert(w > 0) by (nonlinear_arith)
        requires
            0 <= i < w * h,
            0 <= w,
            0 <= h,
    ;
    vstd::arithmetic::div_mod::lemma_fundamental_div_mod(i, w);
    let q = i / w;
    let r = i % w;
    assert(0 <= r < w) by {
        vstd::arithmetic::div_mod::lemma_mod_bound(i, w);
    }
    assert(q >= 0) by {
        vstd::arithmetic::div_mod::lemma_div_pos_is_pos(i, w);
    }
    assert(r + 1 < w ==> i + 1 < w * h) by (nonlinear_arith)
        requires
            i == w * q + r,
            0 <= r < w,
            q >= 0,
            i < w * h,
    ;
    assert(r > 0 ==> i >= 1) by (nonlinear_arith)
        requires
            i == w * q + r,
            q >= 0,
            w > 0,
    ;
}

proof fn lemma_bridge_from(p: Picture, g: ViewGraph, colours: Seq<Option<EdgeColour>>, i: int, n: int)
    requires
        p.sized(),
        0 <= i,
        n == p.cells.len(),
    ensures
        ({
            let q = bridge_from(p, g, colours, i, n);
            &&& q.sized()
            &&& q.w == p.w && q.h == p.h && q.dx == p.dx && q.dy == p.dy && q.edge == p.edge
            &&& q.cells == p.cells && q.ink == p.ink && q.turn == p.turn && q.heads == p.heads && q.runs == p.runs
            &&& forall|j: int| 0 <= j < n && (#[trigger] q.over[j]) != p.over[j] ==> bridged_near(p, g, colours, j)
        }),
    decreases n - i,
{
    if i < n {
        let p1 = bridge_at(p, g, colours, i);
        lemma_beside(i, p.w, p.h);
        lemma_bridge_from(p1, g, colours, i + 1, n);
        let q = bridge_from(p, g, colours, i, n);
        assert(q == bridge_from(p1, g, colours, i + 1, n));
        assert forall|j: int| 0 <= j < n && (#[trigger] q.over[j]) != p.over[j] implies bridged_near(p, g, colours, j) by {
            assert(p1.cells == p.cells && p1.runs == p.runs);
            if q.over[j] != p1.over[j] {
                assert(bridged_near(p1, g, colours, j));
            } else {
                assert(p1.over[j] != p.over[j]);
            }
        }
    }
}

/// Bridging only ever paints over the glyphs: it changes no cell's sides,
/// colour, runs or arrowhead, and it paints only at a true crossing or in
/// a plain horizontal run beside one.
pub proof fn lemma_bridges_only_crossings(p: Picture, g: ViewGraph, colours: Seq<Option<EdgeColour>>)
    requires
        p.sized(),
    ensures
        ({
            let q = bridge_spec(p, g, colours);
            &&& q.cells == p.cells && q.ink == p.ink && q.turn == p.turn && q.heads == p.heads && q.runs == p.runs
            &&& q.over.len() == p.over.len()
            &&& forall|j: int| 0 <= j < p.cells.len() && (#[trigger] q.over[j]) != p.over[j] ==> bridged_near(p, g, colours, j)
        }),
{
    lemma_bridge_from(p, g, colours, 0, p.cells.len() as int);
}

/// Whether `a - b` fits an `i32`.
pub open spec fn diff_fits(a: int, b: int) -> bool {
    i32::MIN <= a - b <= i32::MAX
}

/// The glyph for the sides a cell's lines leave by.
pub open spec fn glyph_spec(bits: u8) -> char {
    if bits == 0 {
        ' '
    } else if bits == L || bits == R || bits == (L | R) {
        '─'
    } else if bits == U || bits == D || bits == (U | D) {
        '│'
    } else if bits == (R | D) {
        '┌'
    } else if bits == (L | D) {
        '┐'
    } else if bits == (R | U) {
        '└'
    } else if bits == (L | U) {
        '┘'
    } else if bits == (L | R | D) {
        '┬'
    } else if bits == (L | R | U) {
        '┴'
    } else if bits == (U | D | R) {
        '├'
    } else if bits == (U | D | L) {
        '┤'
    } else {
        '┼'
    }
}

/// The glyph for the sides a cell's lines leave by.
pub fn glyph(bits: u8) -> (c: char)
    ensures
        c == glyph_spec(bits),
{
    if bits == 0 {
        ' '
    } else if bits == L || bits == R || bits == (L | R) {
        '─'
    } else if bits == U || bits == D || bits == (U | D) {
        '│'
    } else if bits == (R | D) {
        '┌'
    } else if bits == (L | D) {
        '┐'
    } else if bits == (R | U) {
        '└'
    } else if bits == (L | U) {
        '┘'
    } else if bits == (L | R | D) {
        '┬'
    } else if bits == (L | R | U) {
        '┴'
    } else if bits == (U | D | R) {
        '├'
    } else if bits == (U | D | L) {
        '┤'
    } else {
        '┼'
    }
}

/// Whether two colours are the same.
fn same_colour(a: Option<EdgeColour>, b: Option<EdgeColour>) -> (r: bool)
    ensures
        r == (a == b),
{
    match (a, b) {
        (None, None) => true,
        (Some(x), Some(y)) => x.0 == y.0,
        _ => false,
    }
}

proof fn lemma_index_in(w: int, h: int, cx: int, cy: int)
    requires
        0 <= cx < w,
        0 <= cy < h,
    ensures
        0 <= cy * w + cx < w * h,
{
    assert(cy * w + cx < w * h) by (nonlinear_arith)
        requires
            0 <= cx < w,
            0 <= cy < h,
    ;
    assert(0 <= cy * w) by (nonlinear_arith)
        requires
            0 <= cy,
            0 <= w,
    ;
}

impl Canvas {
    /// The tables hold a cell per position, and positions fit a `usize`.
    pub closed spec fn wf(&self) -> bool {
        &&& self.picture().sized()
        &&& self.w * self.h <= usize::MAX
    }

    /// An empty canvas `w` by `h` cells showing the drawing from `(dx, dy)`.
    pub open spec fn new_spec(w: u16, h: u16, dx: i32, dy: i32) -> Picture {
        Picture {
            w: w as int,
            h: h as int,
            dx: dx as int,
            dy: dy as int,
            cells: Seq::new((w * h) as nat, |i: int| 0u8),
            ink: Seq::new((w * h) as nat, |i: int| CellInk::Blank),
            turn: Seq::new((w * h) as nat, |i: int| (CellInk::Blank, 0i32)),
            heads: Seq::new((w * h) as nat, |i: int| None::<(CellInk, Heading)>),
            runs: Seq::new((w * h) as nat, |i: int| Seq::<(usize, u8)>::empty()),
            over: Seq::new((w * h) as nat, |i: int| None::<(char, CellInk)>),
            edge: 0,
        }
    }

    /// An empty canvas `w` by `h` cells showing the drawing from `(dx, dy)`.
    pub fn new(w: u16, h: u16, dx: i32, dy: i32) -> (c: Self)
        requires
            w * h <= usize::MAX,
        ensures
            c.wf(),
            c.picture() == Self::new_spec(w, h, dx, dy),
    {
        let (w, h) = (w as usize, h as usize);
        let n = w * h;
        let mut cells: Vec<u8> = Vec::new();
        let mut ink: Vec<CellInk> = Vec::new();
        let mut turn: Vec<(CellInk, i32)> = Vec::new();
        let mut heads: Vec<Option<(CellInk, Heading)>> = Vec::new();
        let mut runs: Vec<Vec<(usize, u8)>> = Vec::new();
        let mut over: Vec<Option<(char, CellInk)>> = Vec::new();
        let mut i: usize = 0;
        while i < n
            invariant
                i <= n,
                cells@ == Seq::new(i as nat, |k: int| 0u8),
                ink@ == Seq::new(i as nat, |k: int| CellInk::Blank),
                turn@ == Seq::new(i as nat, |k: int| (CellInk::Blank, 0i32)),
                heads@ == Seq::new(i as nat, |k: int| None::<(CellInk, Heading)>),
                runs@.map_values(|r: Vec<(usize, u8)>| r@) == Seq::new(i as nat, |k: int| Seq::<(usize, u8)>::empty()),
                runs@.len() == i,
                over@ == Seq::new(i as nat, |k: int| None::<(char, CellInk)>),
            decreases n - i,
        {
            cells.push(0);
            ink.push(CellInk::Blank);
            turn.push((CellInk::Blank, 0));
            heads.push(None);
            let ghost r0 = runs@;
            runs.push(Vec::new());
            over.push(None);
            proof {
                assert(runs@.map_values(|r: Vec<(usize, u8)>| r@) =~= Seq::new((i + 1) as nat, |k: int| Seq::<(usize, u8)>::empty())) by {
                    assert forall|k: int| 0 <= k < i implies #[trigger] runs@[k]@ == Seq::<(usize, u8)>::empty() by {
                        assert(runs@[k] == r0[k]);
                        assert(r0.map_values(|r: Vec<(usize, u8)>| r@)[k] == r0[k]@);
                    }
                }
                assert(cells@ =~= Seq::new((i + 1) as nat, |k: int| 0u8));
                assert(ink@ =~= Seq::new((i + 1) as nat, |k: int| CellInk::Blank));
                assert(turn@ =~= Seq::new((i + 1) as nat, |k: int| (CellInk::Blank, 0i32)));
                assert(heads@ =~= Seq::new((i + 1) as nat, |k: int| None::<(CellInk, Heading)>));
                assert(over@ =~= Seq::new((i + 1) as nat, |k: int| None::<(char, CellInk)>));
            }
            i += 1;
        }
        Canvas { w, h, dx, dy, cells, ink, turn, heads, runs, over, edge: 0 }
    }

    /// The index of the cell showing drawing position `(x, y)`, if one does.
    fn idx(&self, x: i32, y: i32) -> (r: Option<usize>)
        requires
            self.wf(),
            diff_fits(x as int, self.picture().dx),
            diff_fits(y as int, self.picture().dy),
        ensures
            r is None <==> idx_spec(self.picture(), x as int, y as int) is None,
            r matches Some(i) ==> idx_spec(self.picture(), x as int, y as int) == Some(i as int) && i < self.picture().w
                * self.picture().h,
    {
        let cx = x - self.dx;
        let cy = y - self.dy;
        if cx < 0 || cy < 0 {
            return None;
        }
        let (cx, cy) = (cx as usize, cy as usize);
        if cx < self.w && cy < self.h {
            proof {
                lemma_index_in(self.w as int, self.h as int, cx as int, cy as int);
            }
            Some(cy * self.w + cx)
        } else {
            None
        }
    }

    /// Position `(x, y)` takes `bits` of the current edge in `colour`, as
    /// part of a vertical run `reach` long.
    fn set(&mut self, x: i32, y: i32, bits: u8, colour: Option<EdgeColour>, reach: i32)
        requires
            old(self).wf(),
            diff_fits(x as int, old(self).picture().dx),
            diff_fits(y as int, old(self).picture().dy),
        ensures
            final(self).wf(),
            final(self).picture() == set_spec(old(self).picture(), x as int, y as int, bits, colour, reach),
    {
        let ghost p = self.picture();
        match self.idx(x, y) {
            None => {},
            Some(i) => {
                let ghost q = set_spec(p, x as int, y as int, bits, colour, reach);
                let c = self.cells[i] | bits;
                self.cells.set(i, c);
                let ink = match self.ink[i] {
                    CellInk::Blank => CellInk::One(colour),
                    CellInk::One(c) => if same_colour(c, colour) {
                        CellInk::One(c)
                    } else {
                        CellInk::Mixed
                    },
                    CellInk::Mixed => CellInk::Mixed,
                };
                self.ink.set(i, ink);
                if bits & (U | D) != 0 && reach > self.turn[i].1 {
                    self.turn.set(i, (CellInk::One(colour), reach));
                }
                let k = find_run(&self.runs[i], self.edge);
                let ghost r0 = self.runs@;
                proof {
                    assert(p.runs[i as int] == r0[i as int]@);
                }
                if k < self.runs[i].len() {
                    let (e, b) = self.runs[i][k];
                    self.runs[i].set(k, (e, b | bits));
                    proof {
                        lemma_run_of(r0[i as int]@, p.edge, 0);
                        assert(self.runs@[i as int]@ =~= run_with(p.runs[i as int], p.edge, bits));
                    }
                } else {
                    let edge = self.edge;
                    self.runs[i].push((edge, bits));
                    proof {
                        assert(self.runs@[i as int]@ == run_with(p.runs[i as int], p.edge, bits));
                    }
                }
                proof {
                    assert(self.picture().runs =~= q.runs) by {
                        assert forall|j: int| 0 <= j < self.runs@.len() implies #[trigger] self.picture().runs[j] == q.runs[j] by {
                            assert(self.picture().runs[j] == self.runs@[j]@);
                            if j != i {
                                assert(self.runs@[j] == r0[j]);
                                assert(p.runs[j] == r0[j]@);
                            }
                        }
                    }
                    assert(self.picture().cells =~= q.cells);
                    assert(self.picture().ink =~= q.ink);
                    assert(self.picture().turn =~= q.turn);
                }
            },
        }
    }

    /// An arrowhead of `colour` pointing `heading` at position `(x, y)`.
    pub fn head(&mut self, x: i32, y: i32, colour: Option<EdgeColour>, heading: Heading)
        requires
            old(self).wf(),
            diff_fits(x as int, old(self).picture().dx),
            diff_fits(y as int, old(self).picture().dy),
        ensures
            final(self).wf(),
            final(self).picture() == head_spec(old(self).picture(), x as int, y as int, colour, heading),
    {
        let ghost p = self.picture();
        match self.idx(x, y) {
            None => {},
            Some(i) => {
                let next = match self.heads[i] {
                    None => (CellInk::One(colour), heading),
                    Some((ink, h)) => match ink {
                        CellInk::One(c) => if same_colour(c, colour) {
                            (CellInk::One(c), h)
                        } else {
                            (CellInk::Mixed, h)
                        },
                        _ => (CellInk::Mixed, h),
                    },
                };
                self.heads.set(i, Some(next));
                proof {
                    assert(self.picture().heads =~= head_spec(p, x as int, y as int, colour, heading).heads);
                }
            },
        }
    }

    /// A horizontal line between `x0` and `x1` on row `y`.
    fn hline(&mut self, y: i32, x0: i32, x1: i32, colour: Option<EdgeColour>)
        requires
            old(self).wf(),
            diff_fits(x0 as int, old(self).picture().dx),
            diff_fits(x1 as int, old(self).picture().dx),
            diff_fits(y as int, old(self).picture().dy),
        ensures
            final(self).wf(),
            final(self).picture() == hline_spec(old(self).picture(), y as int, x0 as int, x1 as int, colour),
    {
        let ghost p = self.picture();
        let a = if x0 < x1 { x0 } else { x1 };
        let b = if x0 < x1 { x1 } else { x0 };
        let mut x: i64 = a as i64;
        while x <= b as i64
            invariant
                self.wf(),
                a <= x <= b as int + 1,
                same_frame(p, self.picture()),
                diff_fits(a as int, p.dx),
                diff_fits(b as int, p.dx),
                diff_fits(y as int, p.dy),
                hline_from(self.picture(), y as int, a as int, b as int, x as int, colour) == hline_from(
                    p,
                    y as int,
                    a as int,
                    b as int,
                    a as int,
                    colour,
                ),
            decreases b as int + 1 - x,
        {
            let bits: u8 = (if x > a as i64 { L } else { 0 }) | (if x < b as i64 { R } else { 0 });
            self.set(x as i32, y, bits, colour, 0);
            x += 1;
        }
    }

    /// A vertical line between `y0` and `y1` in column `x`.
    fn vline(&mut self, x: i32, y0: i32, y1: i32, colour: Option<EdgeColour>)
        requires
            old(self).wf(),
            diff_fits(x as int, old(self).picture().dx),
            diff_fits(y0 as int, old(self).picture().dy),
            diff_fits(y1 as int, old(self).picture().dy),
            (if y0 < y1 { y1 - y0 } else { y0 - y1 }) + 1 <= i32::MAX,
        ensures
            final(self).wf(),
            final(self).picture() == vline_spec(old(self).picture(), x as int, y0 as int, y1 as int, colour),
    {
        let ghost p = self.picture();
        let a = if y0 < y1 { y0 } else { y1 };
        let b = if y0 < y1 { y1 } else { y0 };
        let reach: i32 = b - a + 1;
        let mut y: i64 = a as i64;
        while y <= b as i64
            invariant
                self.wf(),
                a <= y <= b as int + 1,
                reach == b - a + 1,
                same_frame(p, self.picture()),
                diff_fits(x as int, p.dx),
                diff_fits(a as int, p.dy),
                diff_fits(b as int, p.dy),
                vline_from(self.picture(), x as int, a as int, b as int, y as int, colour) == vline_from(
                    p,
                    x as int,
                    a as int,
                    b as int,
                    a as int,
                    colour,
                ),
            decreases b as int + 1 - y,
        {
            let bits: u8 = (if y > a as i64 { U } else { 0 }) | (if y < b as i64 { D } else { 0 });
            self.set(x, y as i32, bits, colour, reach);
            y += 1;
        }
    }

    /// The path of edge `edge` through its corner points, in `colour`.
    pub fn path(&mut self, edge: usize, pts: &Vec<(i32, i32)>, colour: Option<EdgeColour>)
        requires
            old(self).wf(),
            path_fits(old(self).picture().dx, old(self).picture().dy, pts@),
        ensures
            final(self).wf(),
            final(self).picture() == path_spec(old(self).picture(), edge, pts@, colour),
    {
        let ghost p = self.picture();
        self.edge = edge;
        proof {
            assert(self.picture() == Picture { edge, ..p });
        }
        let ghost p1 = self.picture();
        let mut k: usize = 0;
        while k < pts.len() && pts.len() - k >= 2
            invariant
                self.wf(),
                same_frame(p1, self.picture()),
                path_fits(p.dx, p.dy, pts@),
                p1.dx == p.dx && p1.dy == p.dy,
                k <= pts@.len(),
                path_from(self.picture(), pts@, colour, k as int) == path_from(p1, pts@, colour, 0),
            decreases pts.len() - k,
        {
            let (x0, y0) = pts[k];
            let (x1, y1) = pts[k + 1];
            let ghost before = self.picture();
            proof {
                assert(leg_fits(p.dx, p.dy, pts@[k as int], pts@[k + 1]));
            }
            if y0 == y1 {
                self.hline(y0, x0, x1, colour);
                proof {
                    let a = if x0 < x1 { x0 as int } else { x1 as int };
                    let b = if x0 < x1 { x1 as int } else { x0 as int };
                    lemma_hline_frame(before, y0 as int, a, b, a, colour);
                }
            } else {
                self.vline(x0, y0, y1, colour);
                proof {
                    let a = if y0 < y1 { y0 as int } else { y1 as int };
                    let b = if y0 < y1 { y1 as int } else { y0 as int };
                    lemma_vline_frame(before, x0 as int, a, b, a, colour);
                }
            }
            k += 1;
        }
    }

    /// The edge of the first run of cell `i` whose bits are exactly `bits`.
    fn straight(&self, i: usize, bits: u8) -> (r: Option<usize>)
        requires
            self.wf(),
            i < self.picture().cells.len(),
        ensures
            r == first_with_bits(self.picture().runs[i as int], bits, 0),
    {
        let runs = &self.runs[i];
        proof {
            assert(self.picture().runs[i as int] == runs@);
        }
        let mut k: usize = 0;
        while k < runs.len()
            invariant
                k <= runs@.len(),
                i < self.picture().cells.len(),
                self.wf(),
                self.picture().runs[i as int] == runs@,
                first_with_bits(runs@, bits, 0) == first_with_bits(runs@, bits, k as int),
            decreases runs.len() - k,
        {
            if runs[k].1 == bits {
                return Some(runs[k].0);
            }
            k += 1;
        }
        None
    }

    /// Bridge every true crossing that has a plain horizontal run beside it:
    /// a junction glyph says two lines are one, which is true only when they
    /// share an end and a colour.
    pub fn bridge(&mut self, g: &ViewGraph, colours: &Vec<Option<EdgeColour>>)
        requires
            old(self).wf(),
        ensures
            final(self).wf(),
            final(self).picture() == bridge_spec(old(self).picture(), *g, colours@),
    {
        let ghost p = self.picture();
        let n = self.cells.len();
        let mut i: usize = 0;
        while i < n
            invariant
                self.wf(),
                n == p.cells.len(),
                i <= n,
                p.sized(),
                self.picture().w == p.w && self.picture().h == p.h && self.picture().dx == p.dx,
                self.picture().dy == p.dy && self.picture().edge == p.edge,
                self.picture().cells == p.cells && self.picture().ink == p.ink && self.picture().turn == p.turn,
                self.picture().heads == p.heads && self.picture().runs == p.runs,
                bridge_from(self.picture(), *g, colours@, i as int, n as int) == bridge_spec(p, *g, colours@),
            decreases n - i,
        {
            let ghost before = self.picture();
            let h = self.straight(i, L | R);
            let v = self.straight(i, U | D);
            let mut cross = false;
            if let (Some(h), Some(v)) = (h, v) {
                if h < g.edges.len() && v < g.edges.len() {
                    let he = &g.edges[h];
                    let ve = &g.edges[v];
                    let related = he.from == ve.from || he.to == ve.to;
                    let ch: Option<EdgeColour> = if h < colours.len() { colours[h] } else { None };
                    let cv: Option<EdgeColour> = if v < colours.len() { colours[v] } else { None };
                    cross = !(related && same_colour(ch, cv));
                }
            }
            assert(cross == crossing(before, *g, colours@, i as int));
            if cross {
                proof {
                    lemma_beside(i as int, self.w as int, self.h as int);
                }
                let x = i % self.w;
                let left = x > 0 && self.cells[i - 1] == (L | R);
                let right = x + 1 < self.w && self.cells[i + 1] == (L | R);
                if left || right {
                    let t = self.turn[i].0;
                    self.over.set(i, Some(('│', t)));
                    if left {
                        let k = self.ink[i - 1];
                        self.over.set(i - 1, Some(('╴', k)));
                    }
                    if right {
                        let k = self.ink[i + 1];
                        self.over.set(i + 1, Some(('╶', k)));
                    }
                }
                proof {
                    assert(self.picture().over =~= bridge_at(before, *g, colours@, i as int).over);
                }
            }
            i += 1;
        }
    }

    /// The cells as shown, row by row.
    pub fn rows(&self) -> (out: Vec<Vec<(char, CellInk)>>)
        requires
            self.wf(),
        ensures
            out@.len() == self.picture().h,
            forall|y: int|
                0 <= y < out@.len() ==> (#[trigger] out@[y])@.len() == self.picture().w,
            forall|y: int, x: int|
                0 <= y < self.picture().h && 0 <= x < self.picture().w ==> (#[trigger] out@[y]@[x]) == cell_out(
                    self.picture(),
                    y * self.picture().w + x,
                ),
    {
        let mut out: Vec<Vec<(char, CellInk)>> = Vec::new();
        let mut y: usize = 0;
        while y < self.h
            invariant
                self.wf(),
                y <= self.h,
                out@.len() == y,
                forall|r: int| 0 <= r < y ==> (#[trigger] out@[r])@.len() == self.w,
                forall|r: int, x: int|
                    0 <= r < y && 0 <= x < self.w ==> (#[trigger] out@[r]@[x]) == cell_out(self.picture(), r * self.w + x),
            decreases self.h - y,
        {
            let mut row: Vec<(char, CellInk)> = Vec::new();
            let mut x: usize = 0;
            while x < self.w
                invariant
                    self.wf(),
                    y < self.h,
                    x <= self.w,
                    row@.len() == x,
                    forall|c: int| 0 <= c < x ==> (#[trigger] row@[c]) == cell_out(self.picture(), y * self.w + c),
                decreases self.w - x,
            {
                proof {
                    lemma_index_in(self.w as int, self.h as int, x as int, y as int);
                }
                let i = y * self.w + x;
                let shown = match self.heads[i] {
                    Some((ink, hd)) => (
                        match hd {
                            Heading::Right => '▶',
                            Heading::Up => '▲',
                        },
                        ink,
                    ),
                    None => match self.over[i] {
                        Some(o) => o,
                        None => (
                            glyph(self.cells[i]),
                            match (self.ink[i], self.turn[i].0) {
                                (CellInk::Mixed, CellInk::One(c)) => CellInk::One(c),
                                (ink, _) => ink,
                            },
                        ),
                    },
                };
                row.push(shown);
                x += 1;
            }
            out.push(row);
            y += 1;
        }
        out
    }
}

/// Where `edge`'s run sits among a cell's runs, or past the last one when
/// it has none there.
fn find_run(runs: &Vec<(usize, u8)>, edge: usize) -> (k: usize)
    ensures
        k <= runs@.len(),
        k < runs@.len() ==> run_of(runs@, edge, 0) == Some(k as int),
        k == runs@.len() ==> run_of(runs@, edge, 0) is None,
{
    let mut k: usize = 0;
    while k < runs.len() && runs[k].0 != edge
        invariant
            k <= runs@.len(),
            run_of(runs@, edge, 0) == run_of(runs@, edge, k as int),
        decreases runs.len() - k,
    {
        k += 1;
    }
    k
}

/// Routes `k` on painted in order: each one's path, and its arrowhead,
/// pointing right, on the route's head cell.
pub open spec fn routes_from(p: Picture, routes: Seq<Route>, k: int) -> Picture
    decreases routes.len() - k,
{
    if k < 0 || k >= routes.len() {
        p
    } else {
        let r = routes[k];
        let q = path_spec(p, r.edge.0 as usize, r.polyline@, r.colour);
        let q = head_spec(q, r.head.0 as int, r.head.1 as int, r.colour, Heading::Right);
        routes_from(q, routes, k + 1)
    }
}

/// Routes whose paths and heads, seen from `(dx, dy)`, fit an `i32`.
pub open spec fn routes_fit(dx: int, dy: int, routes: Seq<Route>) -> bool {
    forall|k: int|
        0 <= k < routes.len() ==> path_fits(dx, dy, (#[trigger] routes[k]).polyline@) && diff_fits(
            routes[k].head.0 as int,
            dx,
        ) && diff_fits(routes[k].head.1 as int, dy)
}

/// The edges of a drawing painted onto an empty canvas `w` by `h` cells
/// seen from `(dx, dy)`, true crossings bridged when that is the style.
pub open spec fn edges_spec(
    empty: Picture,
    routes: Seq<Route>,
    g: ViewGraph,
    colours: Seq<Option<EdgeColour>>,
    style: CrossingStyle,
) -> Picture {
    let painted = routes_from(empty, routes, 0);
    match style {
        CrossingStyle::Bridge => bridge_spec(painted, g, colours),
        CrossingStyle::Cross => painted,
    }
}

proof fn lemma_path_frame(p: Picture, pts: Seq<(i32, i32)>, colour: Option<EdgeColour>, k: int)
    ensures
        same_frame(p, path_from(p, pts, colour, k)),
    decreases pts.len() - k,
{
    if 0 <= k && k + 1 < pts.len() {
        let s0 = pts[k];
        let t0 = pts[k + 1];
        if s0.1 == t0.1 {
            let a = if s0.0 < t0.0 { s0.0 as int } else { t0.0 as int };
            let b = if s0.0 < t0.0 { t0.0 as int } else { s0.0 as int };
            lemma_hline_frame(p, s0.1 as int, a, b, a, colour);
        } else {
            let a = if s0.1 < t0.1 { s0.1 as int } else { t0.1 as int };
            let b = if s0.1 < t0.1 { t0.1 as int } else { s0.1 as int };
            lemma_vline_frame(p, s0.0 as int, a, b, a, colour);
        }
        lemma_path_frame(leg_spec(p, s0, t0, colour), pts, colour, k + 1);
    }
}

/// The edges of a drawing as a canvas `w` by `h` cells sees them from
/// `(dx, dy)`: every route's path and arrowhead in its colour, and true
/// crossings bridged when `style` says so.
pub fn draw_edges(
    routes: &Vec<Route>,
    g: &ViewGraph,
    colours: &Vec<Option<EdgeColour>>,
    w: u16,
    h: u16,
    dx: i32,
    dy: i32,
    style: CrossingStyle,
) -> (c: Canvas)
    requires
        w * h <= usize::MAX,
        routes_fit(dx as int, dy as int, routes@),
    ensures
        c.wf(),
        ({
            let empty = Canvas::new_spec(w, h, dx, dy);
            c.picture() == edges_spec(empty, routes@, *g, colours@, style)
        }),
{
    let mut c = Canvas::new(w, h, dx, dy);
    let ghost empty = c.picture();
    let mut k: usize = 0;
    while k < routes.len()
        invariant
            c.wf(),
            k <= routes@.len(),
            routes_fit(dx as int, dy as int, routes@),
            c.picture().dx == dx && c.picture().dy == dy,
            routes_from(c.picture(), routes@, k as int) == routes_from(empty, routes@, 0),
        decreases routes.len() - k,
    {
        let r = &routes[k];
        let ghost before = c.picture();
        c.path(r.edge.0 as usize, &r.polyline, r.colour);
        proof {
            lemma_path_frame(Picture { edge: r.edge.0 as usize, ..before }, r.polyline@, r.colour, 0);
        }
        c.head(r.head.0, r.head.1, r.colour, Heading::Right);
        k += 1;
    }
    match style {
        CrossingStyle::Bridge => c.bridge(g, colours),
        CrossingStyle::Cross => {},
    }
    c
}

} // verus!
