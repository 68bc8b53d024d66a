//! The winner once more with each fan centred on its extremes: the sweeps
//! with the extremes' midpoint as the centre, then each card whose bus row is
//! not the midpoint of the outermost rows its branches leave on (or join on)
//! nudged there, as far as the cards stacked with it allow, then whole
//! columns shifted, alone or with every column after them, while that brings
//! rows together. The search steps on the geometry alone, within a budget of
//! geometries; every state it accepts is then drawn in order of its measure,
//! as many as the draw budget allows, and the lowest drawn total is kept when
//! it falls without raising either tier or the height past the allowance.

use vstd::prelude::*;

use crate::layout::order::{LNode, Layered, cards, cards_of};
use crate::layout::place::{Centre, MAX_ROWS, SLOT_RISE, col_h, copy_rows, gaps, locate, placements, rows_fit};
use crate::layout::rank::Ranked;
use crate::layout::route::{Geometry, geometry, inputs_ok};
use crate::layout::score::Score;
use crate::layout::search::{Ctx, accept, accept_spec, draw, drawn_ok, no_worse_spec, slot_ceiling, slot_ceiling_spec, soft_ok};
use crate::layout::{EdgeId, Layout, MAX_EDGES, small};
use crate::view::{NodeId, ViewGraph};

verus! {

/// Rows a card may be nudged either way to centre its fans on their extremes.
pub const NUDGE: i64 = 2;

/// Passes of the nudge search.
pub const NUDGE_PASSES: usize = 2;

/// Rows a column, or every column from one on, may shift either way.
pub const COLUMN_SHIFT: i32 = 4;

/// Passes of the column-shift search.
pub const COLUMN_PASSES: usize = 4;

/// Rounds of nudges then column shifts.
pub const REFINE_ROUNDS: usize = 3;

/// Geometries the search may measure, as `REFINE_PROXY_EDGES` edges' worth:
/// a geometry costs in proportion to the edges placed.
pub const REFINE_PROXY_EDGES: usize = 1600;

/// Drawings the search may spend, as `REFINE_DRAW_EDGES` edges' worth, and
/// at most `REFINE_DRAWS`.
pub const REFINE_DRAWS: usize = 4;
pub const REFINE_DRAW_EDGES: usize = 48;

/// Where the measures stop counting.
pub const MEASURE_CAP: i64 = 1152921504606846976;

/// `x` held within the cap either way.
pub open spec fn capped(x: int) -> int {
    if x > MEASURE_CAP { MEASURE_CAP as int } else if x < -MEASURE_CAP { -MEASURE_CAP } else { x }
}

/// `a + b`, stopping at the cap either way.
pub fn add_capped(a: i64, b: i64) -> (r: i64)
    requires
        -MEASURE_CAP <= a <= MEASURE_CAP,
        -MEASURE_CAP <= b <= MEASURE_CAP,
    ensures
        -MEASURE_CAP <= r <= MEASURE_CAP,
        -MEASURE_CAP <= a + b <= MEASURE_CAP ==> r == a + b,
        r == capped(a + b),
{
    let s = a + b;
    if s > MEASURE_CAP {
        MEASURE_CAP
    } else if s < -MEASURE_CAP {
        -MEASURE_CAP
    } else {
        s
    }
}

fn abs_capped(a: i64) -> (r: i64)
    requires
        -MEASURE_CAP <= a <= MEASURE_CAP,
    ensures
        0 <= r <= MEASURE_CAP,
        r == if a < 0 { -a } else { a as int },
{
    if a < 0 { -a } else { a }
}

/// The rows every forward edge travels, column by column, as `(row, column)`
/// with the column whose shift moves the point; every card's bus row; and
/// per forward edge whether a slot between stacked cards is held open for it.
pub struct Paths {
    pub edges: Vec<(NodeId, NodeId, Vec<(i32, usize)>)>,
    pub bus: Vec<Option<(usize, i32)>>,
    pub slotted: Vec<bool>,
}

/// Asymmetry and detour of a geometry, and per node twice its ideal bus row
/// less twice its actual one.
pub struct Measure {
    pub asym: i64,
    pub detour: i64,
    pub off: Vec<Option<i64>>,
}

impl Measure {
    pub open spec fn ok(&self) -> bool {
        -MEASURE_CAP <= self.asym <= MEASURE_CAP && -MEASURE_CAP <= self.detour <= MEASURE_CAP
    }

    pub fn soft(&self) -> (s: i64)
        requires
            self.ok(),
        ensures
            s == 2 * self.asym + self.detour,
    {
        2 * self.asym + self.detour
    }
}

/// What the scorer's soft tier sees in a geometry before any raster: the
/// asymmetry and detour of the forward edges, and per card with a fan of two
/// or more whose bus row is not the midpoint of the fan's outermost rows, the
/// rows to move it by, at most `NUDGE` either way.
pub struct Proxy {
    pub asym: i64,
    pub detour: i64,
    pub wants: Vec<(NodeId, Vec<i64>)>,
    pub paths: Paths,
}

impl Proxy {
    pub open spec fn ok(&self) -> bool {
        -MEASURE_CAP <= self.asym <= MEASURE_CAP && -MEASURE_CAP <= self.detour <= MEASURE_CAP
    }

    pub fn soft(&self) -> (s: i64)
        requires
            self.ok(),
        ensures
            s == 2 * self.asym + self.detour,
    {
        2 * self.asym + self.detour
    }
}

/// The row a geometry gives a layered node, as a measure.
fn row_at(geo: &Geometry, n: LNode) -> (r: (usize, i64))
    ensures
        r == (geo.at_spec(n).0, geo.at_spec(n).1 as i64),
        -MEASURE_CAP <= r.1 <= MEASURE_CAP,
{
    let (c, y) = geo.at(n);
    (c, y as i64)
}

/// The row a point sits on once every column has moved by `delta`.
fn moved(p: (i32, usize), delta: &Vec<i64>) -> (r: i64)
    requires
        forall|i: int| 0 <= i < delta@.len() ==> -8 <= #[trigger] delta@[i] <= 8,
    ensures
        -(i32::MAX as int) - 16 <= r <= i32::MAX as int + 16,
        r == p.0 + if p.1 < delta@.len() { delta@[p.1 as int] } else { 0 },
{
    let d = if p.1 < delta.len() { delta[p.1] } else { 0 };
    p.0 as i64 + d
}

/// Extend an optional `(lo, hi)` range by `row`.
fn extend(slot: Option<(i64, i64)>, row: i64) -> (r: Option<(i64, i64)>)
    requires
        -(i32::MAX as int) - 16 <= row <= i32::MAX as int + 16,
        slot matches Some(s) ==> -(i32::MAX as int) - 16 <= s.0 <= s.1 <= i32::MAX as int + 16,
    ensures
        r matches Some(s) && -(i32::MAX as int) - 16 <= s.0 <= s.1 <= i32::MAX as int + 16,
        r == match slot {
            None => Some((row, row)),
            Some(s) => Some((if row < s.0 { row } else { s.0 }, if row > s.1 { row } else { s.1 })),
        },
{
    match slot {
        None => Some((row, row)),
        Some((lo, hi)) => Some((if row < lo { row } else { lo }, if row > hi { row } else { hi })),
    }
}

/// A path entry belongs to a forward edge of the graph: its ends are that
/// edge's and it has points.
pub open spec fn named_edge(g: &ViewGraph, ranked: &Ranked, e: (NodeId, NodeId, Vec<(i32, usize)>)) -> bool {
    exists|ei: int| 0 <= ei < g.edges@.len() && !ranked.back@[ei] && e.0 == g.edges@[ei].from && e.1 == g.edges@[ei].to && e.2@.len() > 0
}

/// Every path entry belongs to a forward edge of the graph.
pub open spec fn paths_named(g: &ViewGraph, ranked: &Ranked, es: Seq<(NodeId, NodeId, Vec<(i32, usize)>)>) -> bool {
    forall|k: int| 0 <= k < es.len() ==> named_edge(g, ranked, #[trigger] es[k])
}

/// The rows of a path once every column has moved by `delta`.
pub open spec fn path_rows(pts: Seq<(i32, usize)>, delta: Seq<i64>) -> Seq<i64> {
    pts.map_values(|p: (i32, usize)| (p.0 + if p.1 < delta.len() { delta[p.1 as int] } else { 0 }) as i64)
}

/// From point `w` on, the row after the first change of row, or the first
/// row when the path never changes row.
pub open spec fn leave_at(rs: Seq<i64>, w: nat) -> i64
    decreases rs.len() - w,
{
    if w >= rs.len() || w == 0 {
        rs[0]
    } else if rs[w - 1] != rs[w as int] {
        rs[w as int]
    } else {
        leave_at(rs, w + 1)
    }
}

/// Down to point `w`, the row before the last change of row, or the last
/// row when the path never changes row.
pub open spec fn join_at(rs: Seq<i64>, w: nat) -> i64
    decreases w,
{
    if w == 0 || w >= rs.len() {
        rs.last()
    } else if rs[w - 1] != rs[w as int] {
        rs[w - 1]
    } else {
        join_at(rs, (w - 1) as nat)
    }
}

/// Rows travelled over the first `k` points, held within the cap.
pub open spec fn run_upto(rs: Seq<i64>, k: int) -> int
    decreases k,
{
    if k <= 1 {
        0
    } else {
        let d = rs[k - 1] - rs[k - 2];
        capped(run_upto(rs, k - 1) + if d < 0 { -d } else { d })
    }
}

/// Rows a path travels beyond the difference of its ends.
pub open spec fn path_detour(rs: Seq<i64>) -> int {
    let d = rs.last() - rs[0];
    capped(run_upto(rs, rs.len() as int) - if d < 0 { -d } else { d })
}

/// The detour over the first `k` paths.
pub open spec fn detour_upto(es: Seq<(NodeId, NodeId, Vec<(i32, usize)>)>, delta: Seq<i64>, k: int) -> int
    decreases k,
{
    if k <= 0 {
        0
    } else {
        let prev = detour_upto(es, delta, k - 1);
        if es[k - 1].2@.len() > 0 {
            capped(prev + path_detour(path_rows(es[k - 1].2@, delta)))
        } else {
            prev
        }
    }
}

/// Path `e` counts for node `v`'s fan-out (`out`) or fan-in.
pub open spec fn in_fan(e: (NodeId, NodeId, Vec<(i32, usize)>), n: int, v: int, out: bool) -> bool {
    &&& e.2@.len() > 0
    &&& e.0.0 < n
    &&& e.1.0 < n
    &&& if out { e.0.0 == v } else { e.1.0 == v }
}

/// `slot` widened to hold `row`.
pub open spec fn extend_spec(slot: Option<(i64, i64)>, row: i64) -> Option<(i64, i64)> {
    match slot {
        None => Some((row, row)),
        Some(s) => Some((if row < s.0 { row } else { s.0 }, if row > s.1 { row } else { s.1 })),
    }
}

/// The span of rows node `v`'s fan-out (`out`) or fan-in takes at the bus,
/// over the first `k` paths.
pub open spec fn ends_upto(es: Seq<(NodeId, NodeId, Vec<(i32, usize)>)>, delta: Seq<i64>, n: int, v: int, k: int, out: bool) -> Option<(i64, i64)>
    decreases k,
{
    if k <= 0 {
        None
    } else {
        let prev = ends_upto(es, delta, n, v, k - 1, out);
        let e = es[k - 1];
        if in_fan(e, n, v, out) {
            let rs = path_rows(e.2@, delta);
            extend_spec(prev, if out { leave_at(rs, 1) } else { join_at(rs, (rs.len() - 1) as nat) })
        } else {
            prev
        }
    }
}

/// How many of the first `k` paths are in node `v`'s fan-out (`out`) or fan-in.
pub open spec fn fan_upto(es: Seq<(NodeId, NodeId, Vec<(i32, usize)>)>, n: int, v: int, k: int, out: bool) -> usize
    decreases k,
{
    if k <= 0 {
        0
    } else {
        let prev = fan_upto(es, n, v, k - 1, out);
        if in_fan(es[k - 1], n, v, out) && prev < usize::MAX { (prev + 1) as usize } else { prev }
    }
}

pub open spec fn end_seq(es: Seq<(NodeId, NodeId, Vec<(i32, usize)>)>, delta: Seq<i64>, n: int, out: bool) -> Seq<Option<(i64, i64)>> {
    Seq::new(n as nat, |v: int| ends_upto(es, delta, n, v, es.len() as int, out))
}

pub open spec fn fan_seq(es: Seq<(NodeId, NodeId, Vec<(i32, usize)>)>, n: int, out: bool) -> Seq<usize> {
    Seq::new(n as nat, |v: int| fan_upto(es, n, v, es.len() as int, out))
}

/// The asymmetry of every fan-out, then every fan-in, held within the cap.
pub open spec fn measure_asym(es: Seq<(NodeId, NodeId, Vec<(i32, usize)>)>, bus: Seq<Option<(usize, i32)>>, delta: Seq<i64>) -> int {
    let n = bus.len() as int;
    fan_asym(
        end_seq(es, delta, n, false),
        fan_seq(es, n, false),
        bus,
        delta,
        fan_asym(end_seq(es, delta, n, true), fan_seq(es, n, true), bus, delta, 0, n),
        n,
    )
}

/// Node `v`'s offset: from its fan-out, replaced by its fan-in's when that
/// one is farther off centre.
pub open spec fn measure_off(es: Seq<(NodeId, NodeId, Vec<(i32, usize)>)>, bus: Seq<Option<(usize, i32)>>, delta: Seq<i64>, v: int) -> Option<i64> {
    let n = bus.len() as int;
    fan_off(
        fan_off(None, fan_term(end_seq(es, delta, n, true)[v], fan_seq(es, n, true)[v], bus[v], delta)),
        fan_term(end_seq(es, delta, n, false)[v], fan_seq(es, n, false)[v], bus[v], delta),
    )
}

impl Paths {
    /// The paths of a geometry: for each forward edge its source's row, each
    /// pass row and its target's row. A pass row follows the column of the
    /// endpoint whose row it wants, since one row serves every column the
    /// edge passes.
    pub(crate) fn from_geometry(g: &ViewGraph, ranked: &Ranked, l: &Layered, geo: &Geometry) -> (p: Paths)
        requires
            small(g),
            ranked.wf_for(g),
            l.wf_for(g),
        ensures
            p.slotted@.len() == p.edges@.len(),
            p.edges@.len() <= g.edges@.len(),
            paths_named(g, ranked, p.edges@),
            p.bus@ == geo.attach@.take(p.bus@.len() as int),
            p.bus@.len() == if geo.nodes < geo.attach@.len() { geo.nodes as int } else { geo.attach@.len() as int },
    {
        let m = g.edges.len();
        let mut rows: Vec<Vec<(i32, usize)>> = Vec::new();
        let mut anchor: Vec<Option<usize>> = Vec::new();
        let mut i: usize = 0;
        while i < m
            invariant
                i <= m,
                rows@.len() == i,
                anchor@.len() == i,
            decreases m - i,
        {
            rows.push(Vec::new());
            anchor.push(None);
            i += 1;
        }
        let mut s: usize = 0;
        while s < l.segments.len()
            invariant
                s <= l.segments@.len(),
                small(g),
                l.wf_for(g),
                m == g.edges@.len(),
                rows@.len() == m,
                anchor@.len() == m,
            decreases l.segments.len() - s,
        {
            let seg = &l.segments[s];
            let ei = seg.edge.0 as usize;
            let (c0, y0) = geo.at(seg.from);
            let (c1, y1) = geo.at(seg.to);
            let mut path = rows[ei].clone();
            if path.len() == 0 {
                path.push((y0, c0));
            }
            let col = match seg.to {
                LNode::Real(_) => c1,
                LNode::Pass(_) => match anchor[ei] {
                    Some(c) => c,
                    None => {
                        let e = &g.edges[ei];
                        let (cs, ys) = geo.at(LNode::Real(e.from));
                        let (ct, yt) = geo.at(LNode::Real(e.to));
                        let outs = l.out_deg[e.from.0 as usize];
                        let ins = l.in_deg[e.to.0 as usize];
                        let want = if outs >= 2 && ins == 1 { yt } else { ys };
                        let c = if want == yt && ys != yt { ct } else { cs };
                        anchor.set(ei, Some(c));
                        c
                    },
                },
            };
            path.push((y1, col));
            rows.set(ei, path);
            s += 1;
        }
        let mut edges: Vec<(NodeId, NodeId, Vec<(i32, usize)>)> = Vec::new();
        let mut slotted: Vec<bool> = Vec::new();
        let mut ei: usize = 0;
        while ei < m
            invariant
                ei <= m,
                small(g),
                ranked.wf_for(g),
                m == g.edges@.len(),
                rows@.len() == m,
                slotted@.len() == edges@.len(),
                edges@.len() <= ei,
                paths_named(g, ranked, edges@),
            decreases m - ei,
        {
            if !ranked.back[ei] && rows[ei].len() > 0 {
                let mut held = false;
                let mut q: usize = 0;
                while q < geo.slot.len()
                    invariant
                        q <= geo.slot@.len(),
                    decreases geo.slot.len() - q,
                {
                    if geo.slot[q].1.0 as usize == ei {
                        held = true;
                    }
                    q += 1;
                }
                slotted.push(held);
                let e = &g.edges[ei];
                let path = rows[ei].clone();
                let ghost before = edges@;
                edges.push((e.from, e.to, path));
                proof {
                    assert(path@.len() == rows@[ei as int]@.len());
                    assert forall|k: int| 0 <= k < edges@.len() implies named_edge(g, ranked, #[trigger] edges@[k]) by {
                        if k < before.len() {
                            assert(edges@[k] == before[k]);
                        } else {
                            assert(edges@[k].0 == g.edges@[ei as int].from);
                        }
                    }
                }
            }
            ei += 1;
        }
        let mut bus: Vec<Option<(usize, i32)>> = Vec::new();
        let mut v: usize = 0;
        while v < geo.nodes && v < geo.attach.len()
            invariant
                v <= geo.attach@.len(),
                v <= geo.nodes,
                bus@ == geo.attach@.take(v as int),
                slotted@.len() == edges@.len(),
                edges@.len() <= g.edges@.len(),
                paths_named(g, ranked, edges@),
            decreases geo.attach.len() - v,
        {
            bus.push(geo.attach[v]);
            proof {
                assert(bus@ =~= geo.attach@.take(v + 1));
            }
            v += 1;
        }
        Paths { edges, bus, slotted }
    }

    /// Whether an edge with a pass slot held open for it ran straight from
    /// its source or into its target in `before` and no longer does here.
    pub(crate) fn leaves_slot(&self, before: &Paths) -> (r: bool)
        ensures
            r == exists|i: int|
                0 <= i < self.edges@.len() && i < before.edges@.len() && i < before.slotted@.len()
                    && #[trigger] before.slotted@[i] && straight_end_spec(before.edges@[i].2@) && !straight_end_spec(
                    self.edges@[i].2@,
                ),
    {
        let mut i: usize = 0;
        while i < self.edges.len() && i < before.edges.len() && i < before.slotted.len()
            invariant
                i <= self.edges@.len(),
                forall|j: int|
                    0 <= j < i && j < before.edges@.len() && j < before.slotted@.len() ==> !(#[trigger] before.slotted@[j]
                        && straight_end_spec(before.edges@[j].2@) && !straight_end_spec(self.edges@[j].2@)),
            decreases self.edges.len() - i,
        {
            if before.slotted[i] && straight_end(&before.edges[i].2) && !straight_end(&self.edges[i].2) {
                return true;
            }
            i += 1;
        }
        false
    }

    /// The measure with every column moved by `delta` rows, pass rows
    /// following the column they are anchored to.
    pub fn measure(&self, delta: &Vec<i64>) -> (m: Measure)
        requires
            forall|i: int| 0 <= i < delta@.len() ==> -8 <= #[trigger] delta@[i] <= 8,
        ensures
            m.ok(),
            m.detour == detour_upto(self.edges@, delta@, self.edges@.len() as int),
            m.asym == measure_asym(self.edges@, self.bus@, delta@),
            m.off@.len() == self.bus@.len(),
            forall|i: int| 0 <= i < self.bus@.len() ==> #[trigger] m.off@[i] == measure_off(self.edges@, self.bus@, delta@, i),
    {
        let n = self.bus.len();
        let mut outs: Vec<Option<(i64, i64)>> = Vec::new();
        let mut ins: Vec<Option<(i64, i64)>> = Vec::new();
        let mut fan_out: Vec<usize> = Vec::new();
        let mut fan_in: Vec<usize> = Vec::new();
        let mut i: usize = 0;
        while i < n
            invariant
                i <= n,
                outs@.len() == i,
                ins@.len() == i,
                fan_out@.len() == i,
                fan_in@.len() == i,
                forall|k: int| 0 <= k < i ==> (#[trigger] outs@[k]) is None,
                forall|k: int| 0 <= k < i ==> (#[trigger] ins@[k]) is None,
                forall|k: int| 0 <= k < i ==> #[trigger] fan_out@[k] == 0,
                forall|k: int| 0 <= k < i ==> #[trigger] fan_in@[k] == 0,
            decreases n - i,
        {
            outs.push(None);
            ins.push(None);
            fan_out.push(0);
            fan_in.push(0);
            i += 1;
        }
        let ghost es = self.edges@;
        let mut detour: i64 = 0;
        let mut ei: usize = 0;
        while ei < self.edges.len()
            invariant
                ei <= self.edges@.len(),
                es == self.edges@,
                n == self.bus@.len(),
                forall|i: int| 0 <= i < delta@.len() ==> -8 <= #[trigger] delta@[i] <= 8,
                outs@.len() == n,
                ins@.len() == n,
                fan_out@.len() == n,
                fan_in@.len() == n,
                -MEASURE_CAP <= detour <= MEASURE_CAP,
                forall|k: int| 0 <= k < n ==> (#[trigger] outs@[k] matches Some(s) ==> -(i32::MAX as int) - 16 <= s.0 <= s.1 <= i32::MAX as int + 16),
                forall|k: int| 0 <= k < n ==> (#[trigger] ins@[k] matches Some(s) ==> -(i32::MAX as int) - 16 <= s.0 <= s.1 <= i32::MAX as int + 16),
                detour == detour_upto(es, delta@, ei as int),
                forall|k: int| 0 <= k < n ==> #[trigger] outs@[k] == ends_upto(es, delta@, n as int, k, ei as int, true),
                forall|k: int| 0 <= k < n ==> #[trigger] ins@[k] == ends_upto(es, delta@, n as int, k, ei as int, false),
                forall|k: int| 0 <= k < n ==> #[trigger] fan_out@[k] == fan_upto(es, n as int, k, ei as int, true),
                forall|k: int| 0 <= k < n ==> #[trigger] fan_in@[k] == fan_upto(es, n as int, k, ei as int, false),
            decreases self.edges.len() - ei,
        {
            let (from, to, pts) = (&self.edges[ei].0, &self.edges[ei].1, &self.edges[ei].2);
            let ghost rs = path_rows(pts@, delta@);
            if pts.len() > 0 {
                let first = moved(pts[0], delta);
                let last = moved(pts[pts.len() - 1], delta);
                let mut leaves = first;
                let mut w: usize = 1;
                while w < pts.len()
                    invariant_except_break
                        leaves == first,
                        leave_at(rs, 1) == leave_at(rs, w as nat),
                    invariant
                        1 <= w,
                        pts@.len() > 0,
                        rs == path_rows(pts@, delta@),
                        rs.len() == pts@.len(),
                        first == rs[0],
                        forall|i: int| 0 <= i < delta@.len() ==> -8 <= #[trigger] delta@[i] <= 8,
                        -(i32::MAX as int) - 16 <= leaves <= i32::MAX as int + 16,
                    ensures
                        leaves == leave_at(rs, 1),
                    decreases pts.len() - w,
                {
                    let a = moved(pts[w - 1], delta);
                    let b = moved(pts[w], delta);
                    proof {
                        assert(a == rs[w - 1]);
                        assert(b == rs[w as int]);
                    }
                    if a != b {
                        leaves = b;
                        break;
                    }
                    w += 1;
                }
                let mut joins = last;
                let mut w: usize = pts.len() - 1;
                while w > 0
                    invariant_except_break
                        joins == last,
                        join_at(rs, (rs.len() - 1) as nat) == join_at(rs, w as nat),
                    invariant
                        w < pts@.len(),
                        rs == path_rows(pts@, delta@),
                        rs.len() == pts@.len(),
                        last == rs.last(),
                        forall|i: int| 0 <= i < delta@.len() ==> -8 <= #[trigger] delta@[i] <= 8,
                        -(i32::MAX as int) - 16 <= joins <= i32::MAX as int + 16,
                    ensures
                        joins == join_at(rs, (rs.len() - 1) as nat),
                    decreases w,
                {
                    let a = moved(pts[w - 1], delta);
                    let b = moved(pts[w], delta);
                    proof {
                        assert(a == rs[w - 1]);
                        assert(b == rs[w as int]);
                    }
                    if a != b {
                        joins = a;
                        break;
                    }
                    w -= 1;
                }
                let mut run: i64 = 0;
                let mut w: usize = 1;
                while w < pts.len()
                    invariant
                        1 <= w <= pts@.len(),
                        rs == path_rows(pts@, delta@),
                        forall|i: int| 0 <= i < delta@.len() ==> -8 <= #[trigger] delta@[i] <= 8,
                        -MEASURE_CAP <= run <= MEASURE_CAP,
                        run == run_upto(rs, w as int),
                    decreases pts.len() - w,
                {
                    let a = moved(pts[w - 1], delta);
                    let b = moved(pts[w], delta);
                    proof {
                        assert(a == rs[w - 1]);
                        assert(b == rs[w as int]);
                    }
                    run = add_capped(run, abs_capped(b - a));
                    w += 1;
                }
                proof {
                    assert(leaves == leave_at(rs, 1));
                    assert(joins == join_at(rs, (rs.len() - 1) as nat));
                }
                let straight = abs_capped(last - first);
                detour = add_capped(detour, add_capped(run, -straight));
                let f = from.0 as usize;
                let t = to.0 as usize;
                if f < n && t < n {
                    let o = extend(outs[f], leaves);
                    outs.set(f, o);
                    let fo = if fan_out[f] < usize::MAX { fan_out[f] + 1 } else { fan_out[f] };
                    fan_out.set(f, fo);
                    let x = extend(ins[t], joins);
                    ins.set(t, x);
                    let fi = if fan_in[t] < usize::MAX { fan_in[t] + 1 } else { fan_in[t] };
                    fan_in.set(t, fi);
                }
            }
            proof {
                let e = es[ei as int];
                assert(e.2@ == pts@);
                assert forall|k: int| 0 <= k < n implies #[trigger] outs@[k] == ends_upto(es, delta@, n as int, k, ei + 1, true) by {
                    if in_fan(e, n as int, k, true) {
                        assert(k == from.0 as int);
                    }
                }
                assert forall|k: int| 0 <= k < n implies #[trigger] ins@[k] == ends_upto(es, delta@, n as int, k, ei + 1, false) by {
                    if in_fan(e, n as int, k, false) {
                        assert(k == to.0 as int);
                    }
                }
                assert forall|k: int| 0 <= k < n implies #[trigger] fan_out@[k] == fan_upto(es, n as int, k, ei + 1, true) by {
                    if in_fan(e, n as int, k, true) {
                        assert(k == from.0 as int);
                    }
                }
                assert forall|k: int| 0 <= k < n implies #[trigger] fan_in@[k] == fan_upto(es, n as int, k, ei + 1, false) by {
                    if in_fan(e, n as int, k, false) {
                        assert(k == to.0 as int);
                    }
                }
            }
            ei += 1;
        }
        let mut asym: i64 = 0;
        let mut off: Vec<Option<i64>> = Vec::new();
        let mut i: usize = 0;
        while i < n
            invariant
                i <= n,
                off@.len() == i,
                forall|j: int| 0 <= j < i ==> (#[trigger] off@[j]) is None,
            decreases n - i,
        {
            off.push(None);
            i += 1;
        }
        proof {
            assert(outs@ =~= end_seq(es, delta@, n as int, true));
            assert(ins@ =~= end_seq(es, delta@, n as int, false));
            assert(fan_out@ =~= fan_seq(es, n as int, true));
            assert(fan_in@ =~= fan_seq(es, n as int, false));
        }
        // Fans out first, then fans in, node by node.
        fan_pass(&outs, &fan_out, &self.bus, delta, &mut asym, &mut off);
        fan_pass(&ins, &fan_in, &self.bus, delta, &mut asym, &mut off);
        Measure { asym, detour, off }
    }
}

/// The asymmetry of every fan of two or more edges at a card with a bus
/// row, added to `asym`; each card's offset from its fans' midpoint kept in
/// `off` where it is further than the one there.
/// What a fan of two or more branches around its card's bus row gives:
/// how far it is off centre, and the signed offset `lo + hi - 2 * bus`.
pub open spec fn fan_term(row: Option<(i64, i64)>, fan: usize, bus: Option<(usize, i32)>, delta: Seq<i64>) -> Option<(int, int)> {
    if row is Some && fan >= 2 && bus is Some {
        let (lo, hi) = row->0;
        let (col, b) = bus->0;
        let at = b + if col < delta.len() { delta[col as int] } else { 0 };
        let d = (at - lo) - (hi - at);
        Some((if d < 0 { -d } else { d }, lo + hi - 2 * at))
    } else {
        None
    }
}

/// The asymmetry `fan_pass` leaves over its first `k` nodes, from `a0`.
pub open spec fn fan_asym(
    rows: Seq<Option<(i64, i64)>>,
    fan: Seq<usize>,
    bus: Seq<Option<(usize, i32)>>,
    delta: Seq<i64>,
    a0: int,
    k: int,
) -> int
    decreases k,
{
    if k <= 0 {
        a0
    } else {
        let prev = fan_asym(rows, fan, bus, delta, a0, k - 1);
        match fan_term(rows[k - 1], fan[k - 1], bus[k - 1], delta) {
            Some(t) => capped(prev + t.0),
            None => prev,
        }
    }
}

/// A node's offset is replaced when there is none yet or the new one is
/// farther off centre.
pub open spec fn keeps_offset(cur: Option<i64>, o: int) -> bool {
    match cur {
        None => true,
        Some(c) => {
            let c = capped(c as int);
            (if o < 0 { -o } else { o }) > (if c < 0 { -c } else { c })
        },
    }
}

/// The offset a node holds after `fan_pass`.
pub open spec fn fan_off(cur: Option<i64>, t: Option<(int, int)>) -> Option<i64> {
    match t {
        Some(t) => if keeps_offset(cur, t.1) { Some(t.1 as i64) } else { cur },
        None => cur,
    }
}

fn fan_pass(
    rows: &Vec<Option<(i64, i64)>>,
    fan: &Vec<usize>,
    bus: &Vec<Option<(usize, i32)>>,
    delta: &Vec<i64>,
    asym: &mut i64,
    off: &mut Vec<Option<i64>>,
)
    requires
        rows@.len() == bus@.len(),
        fan@.len() == bus@.len(),
        old(off)@.len() == bus@.len(),
        forall|i: int| 0 <= i < delta@.len() ==> -8 <= #[trigger] delta@[i] <= 8,
        -MEASURE_CAP <= *old(asym) <= MEASURE_CAP,
        forall|j: int| 0 <= j < rows@.len() ==> (#[trigger] rows@[j] matches Some(s) ==> -(i32::MAX as int) - 16 <= s.0 <= s.1 <= i32::MAX as int + 16),
    ensures
        -MEASURE_CAP <= *final(asym) <= MEASURE_CAP,
        final(off)@.len() == bus@.len(),
        *final(asym) == fan_asym(rows@, fan@, bus@, delta@, *old(asym) as int, bus@.len() as int),
        forall|i: int| 0 <= i < bus@.len() ==> #[trigger] final(off)@[i] == fan_off(old(off)@[i], fan_term(rows@[i], fan@[i], bus@[i], delta@)),
{
    let n = bus.len();
    let mut node: usize = 0;
    while node < n
        invariant
            node <= n,
            *asym == fan_asym(rows@, fan@, bus@, delta@, *old(asym) as int, node as int),
            forall|i: int| 0 <= i < node ==> #[trigger] off@[i] == fan_off(old(off)@[i], fan_term(rows@[i], fan@[i], bus@[i], delta@)),
            forall|i: int| node <= i < n ==> #[trigger] off@[i] == old(off)@[i],
            n == bus@.len(),
            rows@.len() == n,
            fan@.len() == n,
            off@.len() == n,
            forall|i: int| 0 <= i < delta@.len() ==> -8 <= #[trigger] delta@[i] <= 8,
            -MEASURE_CAP <= *asym <= MEASURE_CAP,
            forall|j: int| 0 <= j < rows@.len() ==> (#[trigger] rows@[j] matches Some(s) ==> -(i32::MAX as int) - 16 <= s.0 <= s.1 <= i32::MAX as int + 16),
        decreases n - node,
    {
        if let Some((lo, hi)) = rows[node] {
            if fan[node] >= 2 {
                if let Some((col, b)) = bus[node] {
                    let at = moved((b, col), delta);
                    let a = abs_capped((at - lo) - (hi - at));
                    *asym = add_capped(*asym, a);
                    let o = lo + hi - 2 * at;
                    let keep = match off[node] {
                        None => true,
                        Some(cur) => {
                            let c = if cur < -MEASURE_CAP { -MEASURE_CAP } else if cur > MEASURE_CAP { MEASURE_CAP } else { cur };
                            abs_capped(o) > abs_capped(c)
                        },
                    };
                    if keep {
                        off.set(node, Some(o));
                    }
                }
            }
        }
        node += 1;
    }
}

/// Whether a path runs straight at either end: three points or more, the
/// first two or the last two on one row.
pub open spec fn straight_end_spec(pts: Seq<(i32, usize)>) -> bool {
    pts.len() >= 3 && (pts[0].0 == pts[1].0 || pts[pts.len() - 2].0 == pts[pts.len() - 1].0)
}

/// Whether a path runs straight at either end.
fn straight_end(pts: &Vec<(i32, usize)>) -> (r: bool)
    ensures
        r == straight_end_spec(pts@),
{
    pts.len() >= 3 && (pts[0].0 == pts[1].0 || pts[pts.len() - 2].0 == pts[pts.len() - 1].0)
}

/// `x` divided by two, rounded down.
fn half_down(x: i64) -> (r: i64)
    requires
        -MEASURE_CAP <= x <= MEASURE_CAP,
    ensures
        r == x / 2,
{
    if x >= 0 { x / 2 } else { -((-x + 1) / 2) }
}

fn clamp_nudge(x: i64) -> (r: i64)
    ensures
        -NUDGE <= r <= NUDGE,
        r == if x < -NUDGE { -NUDGE as int } else if x > NUDGE { NUDGE as int } else { x as int },
{
    if x < -NUDGE { -NUDGE } else if x > NUDGE { NUDGE } else { x }
}

/// The proxy of a geometry: its paths measured where they are, and the
/// nudges each off-centre fan wants: both roundings of half its offset,
/// at most `NUDGE` either way, without zero, in order, each once.
pub fn proxy(g: &ViewGraph, ranked: &Ranked, l: &Layered, geo: &Geometry) -> (p: Proxy)
    requires
        small(g),
        ranked.wf_for(g),
        l.wf_for(g),
    ensures
        p.ok(),
        p.paths.slotted@.len() == p.paths.edges@.len(),
        p.paths.edges@.len() <= g.edges@.len(),
        paths_named(g, ranked, p.paths.edges@),
        p.paths.bus@ == geo.attach@.take(p.paths.bus@.len() as int),
        p.asym == measure_asym(p.paths.edges@, p.paths.bus@, zeros(l.columns@.len())),
        p.detour == detour_upto(p.paths.edges@, zeros(l.columns@.len()), p.paths.edges@.len() as int),
        p.wants@.map_values(|w: (NodeId, Vec<i64>)| (w.0, w.1@)) == wants_upto(
            Seq::new(p.paths.bus@.len(), |v: int| measure_off(p.paths.edges@, p.paths.bus@, zeros(l.columns@.len()), v)),
            if p.paths.bus@.len() <= u32::MAX { p.paths.bus@.len() as int } else { u32::MAX + 1 },
        ),
{
    let paths = Paths::from_geometry(g, ranked, l, geo);
    let mut zero: Vec<i64> = Vec::new();
    let mut c: usize = 0;
    while c < l.columns.len()
        invariant
            c <= l.columns@.len(),
            zero@.len() == c,
            forall|i: int| 0 <= i < c ==> #[trigger] zero@[i] == 0,
        decreases l.columns.len() - c,
    {
        zero.push(0);
        c += 1;
    }
    proof {
        assert(zero@ =~= zeros(l.columns@.len()));
    }
    let m = paths.measure(&zero);
    let ghost offs = Seq::new(paths.bus@.len(), |v: int| measure_off(paths.edges@, paths.bus@, zeros(l.columns@.len()), v));
    proof {
        assert(m.off@ =~= offs);
    }
    let mut wants: Vec<(NodeId, Vec<i64>)> = Vec::new();
    let mut n: usize = 0;
    while n < m.off.len() && n <= u32::MAX as usize
        invariant
            n <= m.off@.len(),
            n <= u32::MAX + 1,
            m.off@ == offs,
            wants@.map_values(|w: (NodeId, Vec<i64>)| (w.0, w.1@)) == wants_upto(offs, n as int),
        decreases m.off.len() - n,
    {
        let ghost before = wants@;
        if let Some(o) = m.off[n] {
            if -MEASURE_CAP <= o && o <= MEASURE_CAP - 1 {
                let a = clamp_nudge(half_down(o));
                let b = clamp_nudge(half_down(o + 1));
                let mut moves: Vec<i64> = Vec::new();
                if a != 0 {
                    moves.push(a);
                }
                if b != 0 && b != a {
                    if moves.len() > 0 && b < moves[0] {
                        moves.insert(0, b);
                    } else {
                        moves.push(b);
                    }
                }
                proof {
                    assert(moves@ =~= nudge_moves(offs[n as int]));
                }
                if moves.len() > 0 {
                    wants.push((NodeId(n as u32), moves));
                    proof {
                        assert(wants@ == before.push((NodeId(n as u32), moves)));
                        assert(wants@.map_values(|w: (NodeId, Vec<i64>)| (w.0, w.1@)) =~= before.map_values(
                            |w: (NodeId, Vec<i64>)| (w.0, w.1@),
                        ).push((NodeId(n as u32), moves@)));
                    }
                }
            }
        }
        n += 1;
    }
    proof {
        if n < m.off.len() {
            assert(n == u32::MAX + 1);
        }
    }
    Proxy { asym: m.asym, detour: m.detour, wants, paths }
}

/// A row of zeros for each of `n` columns.
pub open spec fn zeros(n: nat) -> Seq<i64> {
    Seq::new(n, |i: int| 0i64)
}

/// The nudges an offset asks for: both roundings of half of it, at most
/// `NUDGE` either way, without zero, in order, each once.
pub open spec fn nudge_moves(off: Option<i64>) -> Seq<i64> {
    match off {
        Some(o) => if -MEASURE_CAP <= o <= MEASURE_CAP - 1 {
            let a = capped_nudge(o / 2);
            let b = capped_nudge((o + 1) / 2);
            let ms: Seq<i64> = if a != 0 { seq![a] } else { Seq::empty() };
            if b != 0 && b != a {
                if ms.len() > 0 && b < ms[0] { seq![b] + ms } else { ms.push(b) }
            } else {
                ms
            }
        } else {
            Seq::empty()
        },
        None => Seq::empty(),
    }
}

/// `x` held to `NUDGE` either way.
pub open spec fn capped_nudge(x: int) -> i64 {
    (if x < -NUDGE { -NUDGE as int } else if x > NUDGE { NUDGE as int } else { x }) as i64
}

/// The nudges wanted by the nodes before `k`, for those that want any.
pub open spec fn wants_upto(offs: Seq<Option<i64>>, k: int) -> Seq<(NodeId, Seq<i64>)>
    decreases k,
{
    if k <= 0 {
        Seq::empty()
    } else {
        let prev = wants_upto(offs, k - 1);
        let ms = nudge_moves(offs[k - 1]);
        if ms.len() > 0 { prev.push((NodeId((k - 1) as u32), ms)) } else { prev }
    }
}

/// Whether `ys` gives every card of every column a row inside the limit.
fn rows_ok(ys: &Vec<Vec<i32>>, l: &Layered) -> (b: bool)
    ensures
        b <==> rows_fit(ys@, l.columns@),
{
    if ys.len() != l.columns.len() {
        return false;
    }
    let mut c: usize = 0;
    while c < ys.len()
        invariant
            c <= ys@.len(),
            ys@.len() == l.columns@.len(),
            forall|x: int| 0 <= x < c ==> (#[trigger] ys@[x])@.len() == cards_of(l.columns@[x]@).len(),
            forall|x: int, k: int| 0 <= x < c && 0 <= k < ys@[x]@.len() ==> 0 <= #[trigger] ys@[x]@[k] <= MAX_ROWS,
        decreases ys.len() - c,
    {
        let col = &l.columns[c];
        let mut n: usize = 0;
        let mut j: usize = 0;
        while j < col.len()
            invariant
                j <= col@.len(),
                n == cards_of(col@.take(j as int)).len(),
                n <= j,
            decreases col.len() - j,
        {
            proof {
                assert(col@.take(j + 1).drop_last() =~= col@.take(j as int));
            }
            if let LNode::Real(_) = col[j] {
                n += 1;
            }
            j += 1;
        }
        proof {
            assert(col@.take(col@.len() as int) =~= col@);
        }
        if ys[c].len() != n {
            assert(ys@[c as int]@.len() != cards_of(l.columns@[c as int]@).len());
            return false;
        }
        let mut k: usize = 0;
        while k < ys[c].len()
            invariant
                k <= ys@[c as int]@.len(),
                c < ys@.len(),
                forall|j: int| 0 <= j < k ==> 0 <= #[trigger] ys@[c as int]@[j] <= MAX_ROWS,
            decreases ys@[c as int]@.len() - k,
        {
            if ys[c][k] < 0 || ys[c][k] > MAX_ROWS {
                assert(!(0 <= ys@[c as int]@[k as int] <= MAX_ROWS));
                return false;
            }
            k += 1;
        }
        c += 1;
    }
    true
}

/// A column of rows back as `i32`, when every one is inside the limit.
fn narrow(col: &Vec<i64>) -> (r: Option<Vec<i32>>)
    ensures
        r is Some <==> forall|k: int| 0 <= k < col@.len() ==> 0 <= #[trigger] col@[k] <= MAX_ROWS,
        r matches Some(out) ==> out@.len() == col@.len() && forall|k: int| 0 <= k < out@.len() ==> #[trigger] out@[k] == col@[k],
{
    let mut out: Vec<i32> = Vec::new();
    let mut k: usize = 0;
    while k < col.len()
        invariant
            k <= col@.len(),
            out@.len() == k,
            forall|j: int| 0 <= j < k ==> 0 <= #[trigger] col@[j] <= MAX_ROWS,
            forall|j: int| 0 <= j < k ==> #[trigger] out@[j] == col@[j],
        decreases col.len() - k,
    {
        if col[k] < 0 || col[k] > MAX_ROWS as i64 {
            return None;
        }
        out.push(col[k] as i32);
        k += 1;
    }
    Some(out)
}

/// What the search lowers: the proxy's soft tier.
pub open spec fn soft_of(p: Proxy) -> int {
    2 * p.asym + p.detour
}

/// The refinement's state: the placement it is at, its measure, every
/// placement it accepted on the way with its measure, and the geometries it
/// may still measure.
pub struct Search {
    pub left: usize,
    pub ys: Vec<Vec<i32>>,
    pub cur: Proxy,
    pub seen: Vec<(i64, Vec<Vec<i32>>)>,
}

/// The fixed inputs of a search: the drawing context, the column order, its
/// gaps and the heights of its cards per column.
pub open spec fn search_ok(ctx: &Ctx, l: &Layered, gs: &Vec<Vec<i32>>, s: &Search) -> bool {
    &&& ctx.ok()
    &&& ctx.layered_ok(l)
    &&& crate::layout::place::shape_ok_v(crate::layout::order::cards_spec(l.columns@), gs@)
    &&& rows_fit(s.ys@, l.columns@)
    &&& s.cur.ok()
    &&& forall|i: int| 0 <= i < s.seen@.len() ==> rows_fit((#[trigger] s.seen@[i]).1@, l.columns@)
}

impl Search {
    /// The proxy of `ys`, or nothing once the budget is spent.
    fn measure(&mut self, ctx: &Ctx, l: &Layered, gs: &Vec<Vec<i32>>, ys: &Vec<Vec<i32>>) -> (p: Option<Proxy>)
        requires
            search_ok(ctx, l, gs, old(self)),
            rows_fit(ys@, l.columns@),
        ensures
            search_ok(ctx, l, gs, final(self)),
            final(self).ys == old(self).ys,
            final(self).cur == old(self).cur,
            final(self).seen == old(self).seen,
            final(self).left <= old(self).left,
            p is Some <==> old(self).left > 0,
            final(self).left == if old(self).left > 0 { old(self).left - 1 } else { 0 },
            p matches Some(q) ==> q.ok(),
    {
        if self.left == 0 {
            return None;
        }
        self.left = self.left - 1;
        let geo = geometry(ctx.g, l, ys, gs, ctx.heights);
        Some(proxy(ctx.g, ctx.ranked, l, &geo))
    }

    /// Move to `ys` when it measures less than where the search is.
    fn step(&mut self, ctx: &Ctx, l: &Layered, gs: &Vec<Vec<i32>>, ys: Vec<Vec<i32>>, p: Proxy) -> (moved: bool)
        requires
            search_ok(ctx, l, gs, old(self)),
            rows_fit(ys@, l.columns@),
            p.ok(),
        ensures
            search_ok(ctx, l, gs, final(self)),
            final(self).left == old(self).left,
            moved == (2 * p.asym + p.detour < 2 * old(self).cur.asym + old(self).cur.detour),
            !moved ==> *final(self) == *old(self),
            moved ==> {
                &&& final(self).ys == ys
                &&& final(self).cur == p
                &&& final(self).seen@.len() == old(self).seen@.len() + 1
                &&& final(self).seen@.drop_last() == old(self).seen@
                &&& final(self).seen@.last().0 == 2 * p.asym + p.detour
                &&& final(self).seen@.last().1@.len() == ys@.len()
                &&& forall|c: int| 0 <= c < ys@.len() ==> (#[trigger] final(self).seen@.last().1@[c])@ == ys@[c]@
            },
    {
        if p.soft() >= self.cur.soft() {
            return false;
        }
        let copy = copy_rows(&ys);
        proof {
            assert(rows_fit(copy@, l.columns@)) by {
                assert forall|c: int| 0 <= c < copy@.len() implies (#[trigger] copy@[c])@ == ys@[c]@ by {}
            }
        }
        self.seen.push((p.soft(), copy));
        self.ys = ys;
        self.cur = p;
        true
    }

    /// The sweeps with the extremes' midpoint as the centre, the one that
    /// measures least taken. Whether budget is left.
    fn sweeps(&mut self, ctx: &Ctx, l: &Layered, gs: &Vec<Vec<i32>>, rise: i32) -> (more: bool)
        requires
            search_ok(ctx, l, gs, old(self)),
            0 <= rise <= SLOT_RISE,
        ensures
            search_ok(ctx, l, gs, final(self)),
            more == (final(self).left > 0),
            final(self).left <= old(self).left,
            soft_of(final(self).cur) <= soft_of(old(self).cur),
    {
        let centres = vec![Centre::Low, Centre::High];
        let (_, cands) = placements(ctx.g, l, gs, ctx.heights, &centres, rise);
        let mut found: Option<(Proxy, Vec<Vec<i32>>)> = None;
        let mut i: usize = 0;
        while i < cands.len()
            invariant
                search_ok(ctx, l, gs, self),
                self.left <= old(self).left,
                self.cur == old(self).cur,
                forall|x: int| 0 <= x < cands@.len() ==> rows_fit((#[trigger] cands@[x])@, l.columns@),
                found matches Some(f) ==> f.0.ok() && rows_fit(f.1@, l.columns@),
            decreases cands.len() - i,
        {
            let ys = copy_rows(&cands[i]);
            proof {
                assert(rows_fit(ys@, l.columns@)) by {
                    assert(rows_fit(cands@[i as int]@, l.columns@));
                }
            }
            let p = match self.measure(ctx, l, gs, &ys) {
                Some(p) => p,
                None => {
                    break;
                },
            };
            let better = match &found {
                None => true,
                Some(f) => p.soft() < f.0.soft(),
            };
            if better {
                found = Some((p, ys));
            }
            i += 1;
        }
        if let Some((p, ys)) = found {
            self.step(ctx, l, gs, ys, p);
        }
        self.left > 0
    }

    /// Each card whose fan is off centre nudged towards its midpoint, the
    /// cards stacked beyond it moving along, the first that measures less
    /// taken, for `NUDGE_PASSES`. A nudge the height refuses sets `held`.
    /// Whether one was taken; nothing once the budget is spent.
    fn nudges(
        &mut self,
        ctx: &Ctx,
        l: &Layered,
        gs: &Vec<Vec<i32>>,
        hs: &Vec<Vec<i32>>,
        at: &Vec<Option<(usize, usize)>>,
        reach: i64,
        rise: i64,
        held: &mut bool,
    ) -> (r: Option<bool>)
        requires
            search_ok(ctx, l, gs, old(self)),
            -MEASURE_CAP <= reach <= 1000000,
            0 <= rise <= 2,
        ensures
            search_ok(ctx, l, gs, final(self)),
            final(self).left <= old(self).left,
            r is None ==> final(self).left == 0,
            soft_of(final(self).cur) <= soft_of(old(self).cur),
            r == Some(true) ==> soft_of(final(self).cur) < soft_of(old(self).cur),
            r == Some(false) ==> final(self).cur == old(self).cur && final(self).ys == old(self).ys,
            *old(held) ==> *final(held),
    {
        let ghost c0 = self.cur;
        let ghost y0 = self.ys;
        let ghost l0 = self.left;
        let mut moved = false;
        let mut pass: usize = 0;
        while pass < NUDGE_PASSES
            invariant
                search_ok(ctx, l, gs, self),
                soft_of(self.cur) <= soft_of(c0),
                moved ==> soft_of(self.cur) < soft_of(c0),
                !moved ==> self.cur == c0 && self.ys == y0,
                self.left <= l0,
                *old(held) ==> *held,
                c0 == old(self).cur,
                y0 == old(self).ys,
                l0 == old(self).left,
                -MEASURE_CAP <= reach <= 1000000,
                0 <= rise <= 2,
            decreases NUDGE_PASSES - pass,
        {
            let mut improved = false;
            let mut wants: Vec<(usize, Vec<i64>)> = Vec::new();
            let mut w: usize = 0;
            while w < self.cur.wants.len()
                invariant
                    w <= self.cur.wants@.len(),
                decreases self.cur.wants.len() - w,
            {
                let (node, moves) = &self.cur.wants[w];
                let mut ms: Vec<i64> = Vec::new();
                let mut q: usize = 0;
                while q < moves.len()
                    invariant
                        q <= moves@.len(),
                    decreases moves.len() - q,
                {
                    ms.push(moves[q]);
                    q += 1;
                }
                wants.push((node.0 as usize, ms));
                w += 1;
            }
            let mut w: usize = 0;
            while w < wants.len()
                invariant
                    w <= wants@.len(),
                    search_ok(ctx, l, gs, self),
                soft_of(self.cur) <= soft_of(c0),
                moved ==> soft_of(self.cur) < soft_of(c0),
                !moved ==> self.cur == c0 && self.ys == y0,
                self.left <= l0,
                *old(held) ==> *held,
                c0 == old(self).cur,
                y0 == old(self).ys,
                l0 == old(self).left,
                    -MEASURE_CAP <= reach <= 1000000,
                    0 <= rise <= 2,
                decreases wants.len() - w,
            {
                let node = wants[w].0;
                if node < at.len() {
                    if let Some((c, k)) = at[node] {
                        let moves = &wants[w].1;
                        let mut q: usize = 0;
                        while q < moves.len()
                            invariant
                                q <= moves@.len(),
                                search_ok(ctx, l, gs, self),
                soft_of(self.cur) <= soft_of(c0),
                moved ==> soft_of(self.cur) < soft_of(c0),
                !moved ==> self.cur == c0 && self.ys == y0,
                self.left <= l0,
                *old(held) ==> *held,
                c0 == old(self).cur,
                y0 == old(self).ys,
                l0 == old(self).left,
                                -MEASURE_CAP <= reach <= 1000000,
                                0 <= rise <= 2,
                            decreases moves.len() - q,
                        {
                            let d = moves[q];
                            q += 1;
                            if d < -NUDGE || d > NUDGE || c >= self.ys.len() || c >= hs.len() || c >= gs.len() {
                                continue;
                            }
                            let src = &self.ys[c];
                            let ch = &hs[c];
                            let cg = &gs[c];
                            let n = src.len();
                            if k >= n || ch.len() != n || cg.len() + 1 != n {
                                continue;
                            }
                            let mut col: Vec<i64> = Vec::new();
                            let mut j: usize = 0;
                            while j < n
                                invariant
                                    j <= n,
                                    n == src@.len(),
                                    col@.len() == j,
                                    forall|x: int| 0 <= x < j ==> i32::MIN <= #[trigger] col@[x] <= i32::MAX,
                                decreases n - j,
                            {
                                col.push(src[j] as i64);
                                j += 1;
                            }
                            let yk = col[k] + d;
                            col.set(k, yk);
                            if d > 0 {
                                let mut j: usize = k + 1;
                                while j < n
                                    invariant
                                        1 <= j,
                                        n == col@.len(),
                                        n == ch@.len(),
                                        cg@.len() + 1 == n,
                                        forall|x: int| 0 <= x < n ==> -MEASURE_CAP / 2 <= #[trigger] col@[x] <= MEASURE_CAP / 2,
                                    decreases n - j,
                                {
                                    let floor = col[j - 1] + ch[j - 1] as i64 + cg[j - 1] as i64;
                                    if floor > col[j] && floor <= MEASURE_CAP / 2 {
                                        col.set(j, floor);
                                    }
                                    j += 1;
                                }
                            } else {
                                let mut j: usize = k;
                                while j > 0
                                    invariant
                                        j <= k < n,
                                        n == col@.len(),
                                        n == ch@.len(),
                                        cg@.len() + 1 == n,
                                        forall|x: int| 0 <= x < n ==> -MEASURE_CAP / 2 <= #[trigger] col@[x] <= MEASURE_CAP / 2,
                                    decreases j,
                                {
                                    let ceil = col[j] - ch[j - 1] as i64 - cg[j - 1] as i64;
                                    if ceil < col[j - 1] && ceil >= -MEASURE_CAP / 2 {
                                        col.set(j - 1, ceil);
                                    }
                                    j -= 1;
                                }
                            }
                            let bottom = col[n - 1] + ch[n - 1] as i64;
                            if col[0] < 0 {
                                continue;
                            }
                            if bottom > reach + rise {
                                *held = true;
                                continue;
                            }
                            let narrowed = match narrow(&col) {
                                Some(v) => v,
                                None => {
                                    continue;
                                },
                            };
                            let mut ys = copy_rows(&self.ys);
                            ys.set(c, narrowed);
                            if !rows_ok(&ys, l) {
                                continue;
                            }
                            let p = match self.measure(ctx, l, gs, &ys) {
                                Some(p) => p,
                                None => {
                                    return None;
                                },
                            };
                            if self.step(ctx, l, gs, ys, p) {
                                improved = true;
                                moved = true;
                                break;
                            }
                        }
                    }
                }
                w += 1;
            }
            if !improved {
                break;
            }
            pass += 1;
        }
        Some(moved)
    }
}

/// The column shifts: `(k, suffix, d)` moves column `k` by `d` rows, alone
/// or with every column after it, for `d` out to `COLUMN_SHIFT` either way,
/// nearest first. The first column moves only alone, and the last only with
/// the columns after it, of which there are none.
pub fn column_shifts(cols: usize) -> (out: Vec<(usize, bool, i32)>)
    requires
        cols <= 1024,
    ensures
        forall|i: int| 0 <= i < out@.len() ==> (#[trigger] out@[i]).0 < cols && -COLUMN_SHIFT <= out@[i].2 <= COLUMN_SHIFT,
        out@ == shift_blocks(cols, (2 * COLUMN_SHIFT) as nat),
{
    let mut out: Vec<(usize, bool, i32)> = Vec::new();
    let mut d: i32 = 1;
    while d <= COLUMN_SHIFT
        invariant
            1 <= d <= COLUMN_SHIFT + 1,
            forall|i: int| 0 <= i < out@.len() ==> (#[trigger] out@[i]).0 < cols && -COLUMN_SHIFT <= out@[i].2 <= COLUMN_SHIFT,
            out@ == shift_blocks(cols, (2 * (d - 1)) as nat),
        decreases COLUMN_SHIFT + 1 - d,
    {
        let mut sign: usize = 0;
        while sign < 2
            invariant
                1 <= d <= COLUMN_SHIFT,
                sign <= 2,
                forall|i: int| 0 <= i < out@.len() ==> (#[trigger] out@[i]).0 < cols && -COLUMN_SHIFT <= out@[i].2 <= COLUMN_SHIFT,
                out@ == shift_blocks(cols, (2 * (d - 1) + sign) as nat),
            decreases 2 - sign,
        {
            let dd = if sign == 0 { d } else { -d };
            let ghost b: nat = (2 * (d - 1) + sign) as nat;
            assert(dd == shift_of(b));
            let ghost before = out@;
            let mut k: usize = 0;
            while k < cols
                invariant
                    k <= cols,
                    -COLUMN_SHIFT <= dd <= COLUMN_SHIFT,
                    forall|i: int| 0 <= i < out@.len() ==> (#[trigger] out@[i]).0 < cols && -COLUMN_SHIFT <= out@[i].2 <= COLUMN_SHIFT,
                    out@ == before + shift_entries(cols, dd, k as nat),
                decreases cols - k,
            {
                if k > 0 {
                    out.push((k, true, dd));
                }
                if k + 1 < cols {
                    out.push((k, false, dd));
                }
                k += 1;
                assert(out@ =~= before + shift_entries(cols, dd, k as nat));
            }
            sign += 1;
        }
        d += 1;
    }
    out
}

/// The shift of block `b`: `1, -1, 2, -2, ..`.
pub open spec fn shift_of(b: nat) -> i32 {
    if b % 2 == 0 { (b / 2 + 1) as i32 } else { (-(b / 2 + 1)) as i32 }
}

/// The shifts by `dd` of the first `k` columns: each but the first with the
/// columns after it, each but the last alone.
pub open spec fn shift_entries(cols: usize, dd: i32, k: nat) -> Seq<(usize, bool, i32)>
    decreases k,
{
    if k == 0 {
        Seq::empty()
    } else {
        let c = (k - 1) as usize;
        shift_entries(cols, dd, (k - 1) as nat) + (if c > 0 { seq![(c, true, dd)] } else { Seq::empty() }) + (if c + 1
            < cols { seq![(c, false, dd)] } else { Seq::empty() })
    }
}

/// The first `b` blocks of shifts, nearest first.
pub open spec fn shift_blocks(cols: usize, b: nat) -> Seq<(usize, bool, i32)>
    decreases b,
{
    if b == 0 { Seq::empty() } else { shift_blocks(cols, (b - 1) as nat) + shift_entries(cols, shift_of((b - 1) as nat), cols as nat) }
}

/// How far column `c` moves when column `k` moves `d` rows, alone or with
/// every column after it.
pub open spec fn shift_by(k: int, suffix: bool, d: int, cols: int, c: int) -> int {
    let to = if suffix { cols } else { k + 1 };
    if k <= c < to { d } else { 0 }
}

/// Row `j` of column `c` once moved.
pub open spec fn shifted_row(ys: Seq<Vec<i32>>, k: int, suffix: bool, d: int, c: int, j: int) -> int {
    ys[c]@[j] + shift_by(k, suffix, d, ys.len() as int, c)
}

/// The topmost first row of the moved columns before `n`.
pub open spec fn top_upto(ys: Seq<Vec<i32>>, k: int, suffix: bool, d: int, n: int) -> Option<int>
    decreases n,
{
    if n <= 0 {
        None
    } else {
        let prev = top_upto(ys, k, suffix, d, n - 1);
        let c = n - 1;
        if ys[c]@.len() > 0 {
            let first = shifted_row(ys, k, suffix, d, c, 0);
            match prev {
                None => Some(first),
                Some(v) => Some(if first < v { first } else { v }),
            }
        } else {
            prev
        }
    }
}

/// The lowest end, `last` rows below each moved column's last row, over the
/// columns before `n` that `last` covers.
pub open spec fn bottom_upto(ys: Seq<Vec<i32>>, k: int, suffix: bool, d: int, last: Seq<i32>, n: int) -> Option<int>
    decreases n,
{
    if n <= 0 {
        None
    } else {
        let prev = bottom_upto(ys, k, suffix, d, last, n - 1);
        let c = n - 1;
        if ys[c]@.len() > 0 && c < last.len() {
            let end = shifted_row(ys, k, suffix, d, c, ys[c]@.len() - 1) + last[c];
            match prev {
                None => Some(end),
                Some(v) => Some(if end > v { end } else { v }),
            }
        } else {
            prev
        }
    }
}

/// An optional row as an integer.
pub open spec fn widen(o: Option<i64>) -> Option<int> {
    match o {
        Some(v) => Some(v as int),
        None => None,
    }
}

/// The rows the whole placement moves to come back into `0..limit`, plus `t`.
pub open spec fn settle_by(top: int, bottom: int, t: int, limit: int) -> int {
    t + if top < 0 { -top } else if bottom > limit { limit - bottom } else { 0 }
}

/// Where the moved placement lands, when it fits: the rows of every column
/// moved by `settle_by`, or nothing.
pub open spec fn column_shift_ok(ys: Seq<Vec<i32>>, k: int, suffix: bool, d: int, t: int, last: Seq<i32>, limit: int) -> bool {
    let n = ys.len() as int;
    match (top_upto(ys, k, suffix, d, n), bottom_upto(ys, k, suffix, d, last, n)) {
        (Some(top), Some(bottom)) => {
            let tt = settle_by(top, bottom, t, limit);
            &&& top + tt >= 0
            &&& bottom + tt <= limit
            &&& forall|c: int, j: int|
                0 <= c < n && 0 <= j < ys[c]@.len() ==> 0 <= #[trigger] shifted_row(ys, k, suffix, d, c, j) + tt <= MAX_ROWS
        },
        _ => false,
    }
}

/// `ys` with column `k` moved `d` rows, alone or with every column after it
/// (`suffix`), then the whole placement moved back into rows `0..limit` as
/// little as possible plus `t` rows down, when that fits.
pub fn column_shift(
    ys: &Vec<Vec<i32>>,
    k: usize,
    suffix: bool,
    d: i32,
    t: i32,
    last: &Vec<i32>,
    limit: i64,
) -> (r: Option<Vec<Vec<i32>>>)
    requires
        k < ys@.len(),
        -COLUMN_SHIFT <= d <= COLUMN_SHIFT,
        0 <= t <= 1,
        0 <= limit <= 1000000,
        forall|c: int| 0 <= c < last@.len() ==> 0 <= #[trigger] last@[c] <= 1000000,
        forall|c: int, j: int| 0 <= c < ys@.len() && 0 <= j < ys@[c]@.len() ==> 0 <= #[trigger] ys@[c]@[j] <= MAX_ROWS,
    ensures
        r matches Some(out) ==> out@.len() == ys@.len() && forall|c: int| 0 <= c < out@.len() ==> (#[trigger] out@[c])@.len() == ys@[c]@.len(),
        r is Some <==> column_shift_ok(ys@, k as int, suffix, d as int, t as int, last@, limit as int),
        r matches Some(out) ==> forall|c: int, j: int|
            0 <= c < out@.len() && 0 <= j < out@[c]@.len() ==> #[trigger] out@[c]@[j] == shifted_row(ys@, k as int, suffix, d as int, c, j)
                + settle_by(
                top_upto(ys@, k as int, suffix, d as int, ys@.len() as int)->0,
                bottom_upto(ys@, k as int, suffix, d as int, last@, ys@.len() as int)->0,
                t as int,
                limit as int,
            ),
{
    let cols = ys.len();
    let to = if suffix { cols } else { k + 1 };
    let mut shifted: Vec<Vec<i64>> = Vec::new();
    let mut c: usize = 0;
    while c < cols
        invariant
            c <= cols,
            cols == ys@.len(),
            -COLUMN_SHIFT <= d <= COLUMN_SHIFT,
            forall|x: int, j: int| 0 <= x < ys@.len() && 0 <= j < ys@[x]@.len() ==> 0 <= #[trigger] ys@[x]@[j] <= MAX_ROWS,
            shifted@.len() == c,
            forall|x: int| 0 <= x < c ==> (#[trigger] shifted@[x])@.len() == ys@[x]@.len(),
            forall|x: int, j: int| 0 <= x < c && 0 <= j < shifted@[x]@.len() ==> -8 <= #[trigger] shifted@[x]@[j] <= MAX_ROWS + 8,
            forall|x: int, j: int| 0 <= x < c && 0 <= j < shifted@[x]@.len() ==> #[trigger] shifted@[x]@[j] == shifted_row(ys@, k as int, suffix, d as int, x, j),
            to as int == if suffix { cols as int } else { k + 1 },
        decreases cols - c,
    {
        let by: i64 = if k <= c && c < to { d as i64 } else { 0 };
        let mut col: Vec<i64> = Vec::new();
        let mut j: usize = 0;
        while j < ys[c].len()
            invariant
                j <= ys@[c as int]@.len(),
                c < ys@.len(),
                -COLUMN_SHIFT <= by <= COLUMN_SHIFT,
                forall|x: int, i: int| 0 <= x < ys@.len() && 0 <= i < ys@[x]@.len() ==> 0 <= #[trigger] ys@[x]@[i] <= MAX_ROWS,
                col@.len() == j,
                forall|i: int| 0 <= i < j ==> -8 <= #[trigger] col@[i] <= MAX_ROWS + 8,
                forall|i: int| 0 <= i < j ==> #[trigger] col@[i] == ys@[c as int]@[i] + by,
            decreases ys@[c as int]@.len() - j,
        {
            col.push(ys[c][j] as i64 + by);
            j += 1;
        }
        shifted.push(col);
        c += 1;
    }
    let mut top: Option<i64> = None;
    let mut bottom: Option<i64> = None;
    let mut c: usize = 0;
    while c < cols
        invariant
            c <= cols,
            shifted@.len() == cols,
            forall|x: int, j: int| 0 <= x < cols && 0 <= j < shifted@[x]@.len() ==> -8 <= #[trigger] shifted@[x]@[j] <= MAX_ROWS + 8,
            forall|x: int| 0 <= x < last@.len() ==> 0 <= #[trigger] last@[x] <= 1000000,
            top matches Some(v) ==> -8 <= v <= MAX_ROWS + 8,
            bottom matches Some(v) ==> -8 <= v <= MAX_ROWS + 8 + 1000000,
            cols == ys@.len(),
            forall|x: int| 0 <= x < cols ==> (#[trigger] shifted@[x])@.len() == ys@[x]@.len(),
            forall|x: int, j: int| 0 <= x < cols && 0 <= j < shifted@[x]@.len() ==> #[trigger] shifted@[x]@[j] == shifted_row(ys@, k as int, suffix, d as int, x, j),
            widen(top) == top_upto(ys@, k as int, suffix, d as int, c as int),
            widen(bottom) == bottom_upto(ys@, k as int, suffix, d as int, last@, c as int),
        decreases cols - c,
    {
        let col = &shifted[c];
        if col.len() > 0 {
            let first = col[0];
            top = match top {
                None => Some(first),
                Some(v) => Some(if first < v { first } else { v }),
            };
            if c < last.len() {
                let end = col[col.len() - 1] + last[c] as i64;
                bottom = match bottom {
                    None => Some(end),
                    Some(v) => Some(if end > v { end } else { v }),
                };
            }
        }
        c += 1;
    }
    let (top, bottom) = match (top, bottom) {
        (Some(a), Some(b)) => (a, b),
        _ => {
            return None;
        },
    };
    let tt: i64 = t as i64 + if top < 0 {
        -top
    } else if bottom > limit {
        limit - bottom
    } else {
        0
    };
    if top + tt < 0 || bottom + tt > limit {
        return None;
    }
    let mut out: Vec<Vec<i32>> = Vec::new();
    let mut c: usize = 0;
    while c < cols
        invariant
            c <= cols,
            cols == ys@.len(),
            shifted@.len() == cols,
            forall|x: int| 0 <= x < cols ==> (#[trigger] shifted@[x])@.len() == ys@[x]@.len(),
            forall|x: int, j: int| 0 <= x < cols && 0 <= j < shifted@[x]@.len() ==> -8 <= #[trigger] shifted@[x]@[j] <= MAX_ROWS + 8,
            -MAX_ROWS - 2000000 <= tt <= MAX_ROWS + 2000000,
            out@.len() == c,
            forall|x: int| 0 <= x < c ==> (#[trigger] out@[x])@.len() == ys@[x]@.len(),
            forall|x: int, j: int| 0 <= x < cols && 0 <= j < shifted@[x]@.len() ==> #[trigger] shifted@[x]@[j] == shifted_row(ys@, k as int, suffix, d as int, x, j),
            forall|x: int, j: int| 0 <= x < c && 0 <= j < out@[x]@.len() ==> #[trigger] out@[x]@[j] == shifted_row(ys@, k as int, suffix, d as int, x, j) + tt,
            forall|x: int, j: int| 0 <= x < c && 0 <= j < ys@[x]@.len() ==> 0 <= #[trigger] shifted_row(ys@, k as int, suffix, d as int, x, j) + tt <= MAX_ROWS,
            top_upto(ys@, k as int, suffix, d as int, cols as int) == Some(top as int),
            bottom_upto(ys@, k as int, suffix, d as int, last@, cols as int) == Some(bottom as int),
            tt == settle_by(top as int, bottom as int, t as int, limit as int),
            top + tt >= 0,
            bottom + tt <= limit,
        decreases cols - c,
    {
        let src = &shifted[c];
        let mut col: Vec<i64> = Vec::new();
        let mut j: usize = 0;
        while j < src.len()
            invariant
                j <= src@.len(),
                forall|i: int| 0 <= i < src@.len() ==> -8 <= #[trigger] src@[i] <= MAX_ROWS + 8,
                -MAX_ROWS - 2000000 <= tt <= MAX_ROWS + 2000000,
                col@.len() == j,
                forall|i: int| 0 <= i < j ==> #[trigger] col@[i] == src@[i] + tt,
            decreases src.len() - j,
        {
            col.push(src[j] + tt);
            j += 1;
        }
        proof {
            assert(src@ == shifted@[c as int]@);
        }
        match narrow(&col) {
            Some(v) => {
                proof {
                    assert forall|j: int| 0 <= j < ys@[c as int]@.len() implies 0 <= #[trigger] shifted_row(ys@, k as int, suffix, d as int, c as int, j) + tt <= MAX_ROWS by {
                        assert(col@[j] == src@[j] + tt);
                    }
                }
                out.push(v);
                proof {
                    assert forall|x: int, j: int| 0 <= x < c + 1 && 0 <= j < out@[x]@.len() implies #[trigger] out@[x]@[j] == shifted_row(ys@, k as int, suffix, d as int, x, j) + tt by {
                        if x == c {
                            assert(out@[x] == v);
                            assert(col@[j] == src@[j] + tt);
                        }
                    }
                }
            },
            None => {
                proof {
                    let j = choose|j: int| 0 <= j < col@.len() && !(0 <= #[trigger] col@[j] <= MAX_ROWS);
                    assert(col@[j] == src@[j] + tt);
                    assert(!(0 <= shifted_row(ys@, k as int, suffix, d as int, c as int, j) + tt <= MAX_ROWS));
                }
                return None;
            },
        }
        c += 1;
    }
    Some(out)
}

impl Search {
    /// Whole columns shifted, within rows `0..limit`: the shifts in the
    /// order the current paths rate them, each measured until one measures
    /// less, for `COLUMN_PASSES`. A shift that takes an edge off the straight
    /// run into a slot held open for it is passed over. Whether one was
    /// taken; nothing once the budget is spent.
    fn columns(&mut self, ctx: &Ctx, l: &Layered, gs: &Vec<Vec<i32>>, last: &Vec<i32>, limit: i64) -> (r: Option<bool>)
        requires
            search_ok(ctx, l, gs, old(self)),
            0 <= limit <= 1000000,
            forall|c: int| 0 <= c < last@.len() ==> 0 <= #[trigger] last@[c] <= 1000000,
        ensures
            search_ok(ctx, l, gs, final(self)),
            final(self).left <= old(self).left,
            r is None ==> final(self).left == 0,
            soft_of(final(self).cur) <= soft_of(old(self).cur),
            r == Some(true) ==> soft_of(final(self).cur) < soft_of(old(self).cur),
            r == Some(false) ==> final(self).cur == old(self).cur && final(self).ys == old(self).ys,
    {
        let ghost c0 = self.cur;
        let ghost y0 = self.ys;
        let ghost l0 = self.left;
        let mut moved = false;
        let mut pass: usize = 0;
        while pass < COLUMN_PASSES
            invariant
                search_ok(ctx, l, gs, self),
                soft_of(self.cur) <= soft_of(c0),
                moved ==> soft_of(self.cur) < soft_of(c0),
                !moved ==> self.cur == c0 && self.ys == y0,
                self.left <= l0,
                c0 == old(self).cur,
                y0 == old(self).ys,
                l0 == old(self).left,
                0 <= limit <= 1000000,
                forall|c: int| 0 <= c < last@.len() ==> 0 <= #[trigger] last@[c] <= 1000000,
            decreases COLUMN_PASSES - pass,
        {
            let cols = self.ys.len();
            proof {
                assert(cols == l.columns@.len());
            }
            let shifts = column_shifts(cols);
            let mut ranked: Vec<(i64, usize)> = Vec::new();
            let mut i: usize = 0;
            while i < shifts.len()
                invariant
                    i <= shifts@.len(),
                    forall|x: int| 0 <= x < shifts@.len() ==> (#[trigger] shifts@[x]).0 < cols && -COLUMN_SHIFT <= shifts@[x].2 <= COLUMN_SHIFT,
                    forall|x: int| 0 <= x < ranked@.len() ==> (#[trigger] ranked@[x]).1 < shifts@.len(),
                decreases shifts.len() - i,
            {
                let (k, suffix, d) = shifts[i];
                let to = if suffix { cols } else { k + 1 };
                let mut delta: Vec<i64> = Vec::new();
                let mut x: usize = 0;
                while x < cols
                    invariant
                        x <= cols,
                        -COLUMN_SHIFT <= d <= COLUMN_SHIFT,
                        delta@.len() == x,
                        forall|j: int| 0 <= j < x ==> -8 <= #[trigger] delta@[j] <= 8,
                    decreases cols - x,
                {
                    delta.push(if k <= x && x < to { d as i64 } else { 0 });
                    x += 1;
                }
                let m = self.cur.paths.measure(&delta);
                let key = (m.soft(), i);
                // Stable: the first of equal keys stays first.
                let mut pos: usize = ranked.len();
                while pos > 0 && (key.0 < ranked[pos - 1].0 || (key.0 == ranked[pos - 1].0 && key.1 < ranked[pos - 1].1))
                    invariant
                        pos <= ranked@.len(),
                    decreases pos,
                {
                    pos -= 1;
                }
                ranked.insert(pos, key);
                i += 1;
            }
            let mut improved = false;
            let mut q: usize = 0;
            while q < ranked.len() && !improved
                invariant
                    search_ok(ctx, l, gs, self),
                soft_of(self.cur) <= soft_of(c0),
                moved ==> soft_of(self.cur) < soft_of(c0),
                !moved ==> self.cur == c0 && self.ys == y0,
                self.left <= l0,
                c0 == old(self).cur,
                y0 == old(self).ys,
                l0 == old(self).left,
                    0 <= limit <= 1000000,
                    forall|c: int| 0 <= c < last@.len() ==> 0 <= #[trigger] last@[c] <= 1000000,
                    forall|x: int| 0 <= x < shifts@.len() ==> (#[trigger] shifts@[x]).0 < cols && -COLUMN_SHIFT <= shifts@[x].2 <= COLUMN_SHIFT,
                    forall|x: int| 0 <= x < ranked@.len() ==> (#[trigger] ranked@[x]).1 < shifts@.len(),
                    cols == l.columns@.len(),
                decreases ranked.len() - q,
            {
                let (k, suffix, d) = shifts[ranked[q].1];
                let mut t: i32 = 0;
                while t <= 1 && !improved
                    invariant
                        0 <= t <= 2,
                        search_ok(ctx, l, gs, self),
                soft_of(self.cur) <= soft_of(c0),
                moved ==> soft_of(self.cur) < soft_of(c0),
                !moved ==> self.cur == c0 && self.ys == y0,
                self.left <= l0,
                c0 == old(self).cur,
                y0 == old(self).ys,
                l0 == old(self).left,
                        0 <= limit <= 1000000,
                        forall|c: int| 0 <= c < last@.len() ==> 0 <= #[trigger] last@[c] <= 1000000,
                        -COLUMN_SHIFT <= d <= COLUMN_SHIFT,
                        k < l.columns@.len(),
                    decreases 2 - t,
                {
                    if let Some(ys) = column_shift(&self.ys, k, suffix, d, t, last, limit) {
                        if !crate::layout::place::same_rows(&ys, &self.ys) && rows_ok(&ys, l) {
                            let p = match self.measure(ctx, l, gs, &ys) {
                                Some(p) => p,
                                None => {
                                    return None;
                                },
                            };
                            if !p.paths.leaves_slot(&self.cur.paths) {
                                if self.step(ctx, l, gs, ys, p) {
                                    improved = true;
                                    moved = true;
                                }
                            }
                        }
                    }
                    t += 1;
                }
                q += 1;
            }
            if !improved {
                break;
            }
            pass += 1;
        }
        Some(moved)
    }
}

/// The winner once more with each fan centred on its extremes (see the
/// module). Never raises a count of either tier or the total, and grows the
/// height by at most the slots' allowance.
pub fn refine(ctx: &Ctx, l: &Layered, slots: bool, layout: Layout, s: Score) -> (r: (Layout, Score))
    requires
        ctx.ok(),
        ctx.layered_ok(l),
        drawn_ok(ctx, &layout, &s),
        layout.col_x@.len() == l.columns@.len(),
    ensures
        drawn_ok(ctx, &r.0, &r.1),
        r.0.col_x@.len() == l.columns@.len(),
        no_worse_spec(&r.1, &s),
        r.1.total <= s.total,
        r.1.height <= slot_ceiling_spec(s.height),
        r.1.total < s.total || (r.0 == layout && r.1 == s),
{
    let ghost layout0 = layout;
    let ghost s0 = s;
    let g = ctx.g;
    let gs = gaps(&l.columns, slots);
    proof {
        crate::layout::search::lemma_gaps_shape(ctx, l, gs@, slots);
    }
    let columns = cards(&l.columns);
    // Where the winner put each card.
    let mut ys0: Vec<Vec<i32>> = Vec::new();
    let mut c: usize = 0;
    while c < columns.len()
        invariant
            c <= columns@.len(),
            ys0@.len() == c,
        decreases columns.len() - c,
    {
        let mut col: Vec<i32> = Vec::new();
        let mut k: usize = 0;
        while k < columns[c].len()
            invariant
                k <= columns@[c as int]@.len(),
                c < columns@.len(),
            decreases columns@[c as int]@.len() - k,
        {
            let y = match layout.card(columns[c][k]) {
                Some(card) => card.y,
                None => 0,
            };
            col.push(y);
            k += 1;
        }
        ys0.push(col);
        c += 1;
    }
    if !rows_ok(&ys0, l) {
        return (layout, s);
    }
    let at = locate(&columns, g.nodes.len());
    let mut hs: Vec<Vec<i32>> = Vec::new();
    let mut last: Vec<i32> = Vec::new();
    let mut c: usize = 0;
    while c < columns.len()
        invariant
            c <= columns@.len(),
            hs@.len() == c,
            last@.len() == c,
            ctx.ok(),
            forall|x: int| 0 <= x < c ==> 0 <= #[trigger] last@[x] <= 1000000,
        decreases columns.len() - c,
    {
        let h = col_h(ctx.heights, &columns[c]);
        let v = if h.len() > 0 { h[h.len() - 1] } else { 0 };
        last.push(if 0 <= v && v <= 1000000 { v } else { 0 });
        hs.push(h);
        c += 1;
    }
    let m = if g.edges.len() == 0 { 1 } else { g.edges.len() };
    let mut draws = REFINE_DRAW_EDGES / m;
    if draws < 1 {
        draws = 1;
    }
    if draws > REFINE_DRAWS {
        draws = REFINE_DRAWS;
    }
    let mut geometries = REFINE_PROXY_EDGES / m;
    if geometries < 1 {
        geometries = 1;
    }
    // The starting placement is measured out of the same budget.
    let geo = geometry(g, l, &ys0, &gs, ctx.heights);
    let cur = proxy(g, ctx.ranked, l, &geo);
    let mut search = Search { left: geometries - 1, ys: ys0, cur, seen: Vec::new() };
    // Rows the cards and pass rows reach, without the lanes.
    let reach: i64 = s.height as i64 - layout.lanes as i64;
    let ceiling = slot_ceiling(s.height);
    let mut ri: usize = 0;
    while ri < 2
        invariant
            search_ok(ctx, l, &gs, &search),
            -65535 <= reach <= 65535,
            forall|x: int| 0 <= x < last@.len() ==> 0 <= #[trigger] last@[x] <= 1000000,
        decreases 2 - ri,
    {
        let rise: i32 = if ri == 0 { 0 } else { SLOT_RISE };
        if !search.sweeps(ctx, l, &gs, rise) {
            break;
        }
        // A nudge the height refused: what the rise is for.
        let mut held = false;
        let mut stop = false;
        let mut round: usize = 0;
        while round < REFINE_ROUNDS
            invariant
                search_ok(ctx, l, &gs, &search),
                -65535 <= reach <= 65535,
                0 <= rise <= 2,
                forall|x: int| 0 <= x < last@.len() ==> 0 <= #[trigger] last@[x] <= 1000000,
            decreases REFINE_ROUNDS - round,
        {
            let nudged = match search.nudges(ctx, l, &gs, &hs, &at, reach, rise as i64, &mut held) {
                Some(b) => b,
                None => {
                    stop = true;
                    break;
                },
            };
            let limit = reach + SLOT_RISE as i64;
            let shifted = if limit >= 0 {
                match search.columns(ctx, l, &gs, &last, limit) {
                    Some(b) => b,
                    None => {
                        stop = true;
                        break;
                    },
                }
            } else {
                false
            };
            if !nudged && !shifted {
                break;
            }
            round += 1;
        }
        if stop || !held {
            break;
        }
        ri += 1;
    }
    // Every accepted measure is below the one before it: best measure first,
    // ties in the order they came.
    let seen = search.seen;
    let mut order: Vec<usize> = Vec::new();
    let mut i: usize = 0;
    while i < seen.len()
        invariant
            i <= seen@.len(),
            order@.len() == i,
            forall|x: int| 0 <= x < order@.len() ==> #[trigger] order@[x] < i,
        decreases seen.len() - i,
    {
        let mut pos: usize = order.len();
        while pos > 0 && seen[i].0 < seen[order[pos - 1]].0
            invariant
                pos <= order@.len(),
                order@.len() == i,
                i < seen@.len(),
                forall|x: int| 0 <= x < order@.len() ==> #[trigger] order@[x] < i,
            decreases pos,
        {
            pos -= 1;
        }
        order.insert(pos, i);
        i += 1;
    }
    let mut best = layout;
    let mut best_s = s;
    let ghost first_s = best_s;
    proof {
        assert(no_worse_spec(&best_s, &first_s));
    }
    let mut q: usize = 0;
    while q < order.len() && q < draws
        invariant
            ctx.ok(),
            ctx.layered_ok(l),
            crate::layout::place::shape_ok_v(crate::layout::order::cards_spec(l.columns@), gs@),
            forall|x: int| 0 <= x < seen@.len() ==> rows_fit((#[trigger] seen@[x]).1@, l.columns@),
            forall|x: int| 0 <= x < order@.len() ==> #[trigger] order@[x] < seen@.len(),
            drawn_ok(ctx, &best, &best_s),
            best.col_x@.len() == l.columns@.len(),
            soft_ok(&best_s),
            no_worse_spec(&best_s, &first_s),
            best_s.total <= first_s.total,
            best_s.height <= slot_ceiling_spec(first_s.height),
            ceiling == slot_ceiling_spec(first_s.height),
            first_s == s0,
            best_s.total < first_s.total || (best == layout0 && best_s == s0),
        decreases order.len() - q,
    {
        let ys = &seen[order[q]].1;
        proof {
            assert(rows_fit(seen@[order@[q as int] as int].1@, l.columns@));
        }
        let (lay, sc) = draw(ctx, l, ys, &gs);
        if accept(&sc, &best_s, &best_s, ceiling) {
            best = lay;
            best_s = sc;
        }
        q += 1;
    }
    (best, best_s)
}

} // verus!
