//! Where pass slots sit in a column once a drawing says which rows their
//! edges want: between the two stacked cards whose gap adds the least
//! detour, as long as the column stays within reach of the tallest, else
//! above or below the stack.

use vstd::prelude::*;

use crate::layout::order::{LNode, Layered, cards_of, lnode_ok};
use crate::layout::place::{MAX_COL, SLOT_RISE, slot_gap, slot_gap_spec};
use crate::layout::{EdgeId, Layout, small};
use crate::view::{NodeId, ViewGraph};

verus! {

/// `(region, edge)` pairs before `b`: by region, then edge.
pub open spec fn region_le(a: (usize, EdgeId), b: (usize, EdgeId)) -> bool {
    a.0 < b.0 || (a.0 == b.0 && a.1.0 <= b.1.0)
}

/// The pairs sorted by region, then edge.
fn sort_regions(v: &Vec<(usize, EdgeId)>) -> (out: Vec<(usize, EdgeId)>)
    ensures
        out@.len() == v@.len(),
        out@.to_multiset() == v@.to_multiset(),
        forall|i: int, j: int| 0 <= i < j < out@.len() ==> region_le(out@[i], out@[j]),
{
    broadcast use vstd::seq_lib::group_to_multiset_ensures;
    let mut out: Vec<(usize, EdgeId)> = Vec::new();
    let mut i: usize = 0;
    while i < v.len()
        invariant
            i <= v@.len(),
            out@.len() == i,
            out@.to_multiset() == v@.take(i as int).to_multiset(),
            forall|a: int, b: int| 0 <= a < b < out@.len() ==> region_le(out@[a], out@[b]),
        decreases v.len() - i,
    {
        let x = v[i];
        let mut pos: usize = out.len();
        while pos > 0 && !region_le_exec(out[pos - 1], x)
            invariant
                pos <= out@.len(),
                forall|a: int| pos <= a < out@.len() ==> !region_le(out@[a], x),
            decreases pos,
        {
            pos -= 1;
        }
        let ghost before = out@;
        out.insert(pos, x);
        proof {
            assert(v@.take(i + 1) =~= v@.take(i as int).push(x));
            assert(out@ =~= before.insert(pos as int, x));
            vstd::seq_lib::to_multiset_insert(before, pos as int, x);
            assert(out@.to_multiset() == before.to_multiset().insert(x));
            v@.take(i as int).to_multiset_ensures();
            assert(v@.take(i + 1).to_multiset() == v@.take(i as int).to_multiset().insert(x));
            assert forall|a: int, b: int| 0 <= a < b < out@.len() implies region_le(out@[a], out@[b]) by {
                if a < pos && b == pos {
                    assert(region_le(before[a], before[pos - 1]) || a == pos - 1);
                } else if a == pos && b > pos {
                    assert(!region_le(before[b - 1], x));
                }
            }
        }
        i += 1;
    }
    proof {
        assert(v@.take(v@.len() as int) =~= v@);
    }
    out
}

fn region_le_exec(a: (usize, EdgeId), b: (usize, EdgeId)) -> (r: bool)
    ensures
        r == region_le(a, b),
{
    a.0 < b.0 || (a.0 == b.0 && a.1.0 <= b.1.0)
}

/// Edge `e` is named by one of the pairs.
pub open spec fn from_region(region: Seq<(usize, EdgeId)>, e: EdgeId) -> bool {
    exists|r: int| 0 <= r < region.len() && (#[trigger] region[r]).1 == e
}

/// Every slot of `out` is one of the cards or names an edge of one of the
/// pairs.
pub open spec fn drawn_from(out: Seq<LNode>, cards: Seq<NodeId>, region: Seq<(usize, EdgeId)>) -> bool {
    forall|j: int| 0 <= j < out.len() ==> match #[trigger] out[j] {
        LNode::Real(id) => cards.contains(id),
        LNode::Pass(e) => from_region(region, e),
    }
}

/// The column built from card `k` and sorted pair `p` on: the pairs of
/// region `k`, then card `k`, and so on; what pairs are left come last.
pub open spec fn woven(cards: Seq<NodeId>, sorted: Seq<(usize, EdgeId)>, k: nat, p: nat) -> Seq<LNode>
    decreases cards.len() - k + sorted.len() - p,
{
    if k > cards.len() || p > sorted.len() {
        Seq::empty()
    } else if p < sorted.len() && sorted[p as int].0 == k {
        seq![LNode::Pass(sorted[p as int].1)] + woven(cards, sorted, k, p + 1)
    } else if k < cards.len() {
        seq![LNode::Real(cards[k as int])] + woven(cards, sorted, k + 1, p)
    } else if p < sorted.len() {
        seq![LNode::Pass(sorted[p as int].1)] + woven(cards, sorted, k, p + 1)
    } else {
        Seq::empty()
    }
}

/// `out` is the cards woven with the pairs in sorted order.
pub open spec fn interleaved(out: Seq<LNode>, cards: Seq<NodeId>, region: Seq<(usize, EdgeId)>) -> bool {
    exists|sorted: Seq<(usize, EdgeId)>|
        sorted.to_multiset() == region.to_multiset() && (forall|i: int, j: int| 0 <= i < j < sorted.len() ==> region_le(sorted[i], sorted[j]))
            && out == #[trigger] woven(cards, sorted, 0, 0)
}

/// The column with each pass slot in its region: 0 above the first card,
/// `k` under card `k - 1`, `cards.len()` below the last; by edge id within
/// a region.
pub fn interleave(cards: &Vec<NodeId>, region: &Vec<(usize, EdgeId)>) -> (out: Vec<LNode>)
    requires
        forall|q: int| 0 <= q < region@.len() ==> (#[trigger] region@[q]).0 <= cards@.len(),
    ensures
        out@.len() == cards@.len() + region@.len(),
        cards_of(out@) == cards@,
        drawn_from(out@, cards@, region@),
        interleaved(out@, cards@, region@),
{
    broadcast use vstd::seq_lib::group_to_multiset_ensures;
    let sorted = sort_regions(region);
    proof {
        assert forall|q: int| 0 <= q < sorted@.len() implies (#[trigger] sorted@[q]).0 <= cards@.len() && from_region(region@, sorted@[q].1) by {
            let x = sorted@[q];
            assert(sorted@.contains(x));
            assert(sorted@.to_multiset().count(x) > 0);
            assert(region@.to_multiset().count(x) > 0);
            assert(region@.contains(x));
            let r = choose|r: int| 0 <= r < region@.len() && region@[r] == x;
            assert(region@[r].1 == x.1);
        }
    }
    let n = cards.len();
    let mut out: Vec<LNode> = Vec::new();
    let mut p: usize = 0;
    let mut k: usize = 0;
    while k < n
        invariant
            k <= n,
            n == cards@.len(),
            p <= sorted@.len(),
            sorted@.len() == region@.len(),
            forall|q: int| 0 <= q < sorted@.len() ==> (#[trigger] sorted@[q]).0 <= n,
            forall|a: int, b: int| 0 <= a < b < sorted@.len() ==> region_le(sorted@[a], sorted@[b]),
            forall|q: int| p <= q < sorted@.len() ==> (#[trigger] sorted@[q]).0 >= k,
            out@.len() == k + p,
            cards_of(out@) == cards@.take(k as int),
            forall|q: int| 0 <= q < sorted@.len() ==> from_region(region@, (#[trigger] sorted@[q]).1),
            drawn_from(out@, cards@, region@),
            out@ + woven(cards@, sorted@, k as nat, p as nat) == woven(cards@, sorted@, 0, 0),
        decreases n - k,
    {
        while p < sorted.len() && sorted[p].0 == k
            invariant
                p <= sorted@.len(),
                k < n,
                n == cards@.len(),
                forall|q: int| p <= q < sorted@.len() ==> (#[trigger] sorted@[q]).0 >= k,
                forall|a: int, b: int| 0 <= a < b < sorted@.len() ==> region_le(sorted@[a], sorted@[b]),
                out@.len() == k + p,
                cards_of(out@) == cards@.take(k as int),
                forall|q: int| 0 <= q < sorted@.len() ==> from_region(region@, (#[trigger] sorted@[q]).1),
                drawn_from(out@, cards@, region@),
                out@ + woven(cards@, sorted@, k as nat, p as nat) == woven(cards@, sorted@, 0, 0),
            decreases sorted.len() - p,
        {
            let ghost before = out@;
            out.push(LNode::Pass(sorted[p].1));
            proof {
                assert(out@ + woven(cards@, sorted@, k as nat, (p + 1) as nat) =~= before + woven(cards@, sorted@, k as nat, p as nat));
                assert(out@.drop_last() =~= before);
                assert(from_region(region@, sorted@[p as int].1));
                assert forall|q: int| p + 1 <= q < sorted@.len() implies (#[trigger] sorted@[q]).0 >= k by {
                    assert(region_le(sorted@[p as int], sorted@[q]));
                }
            }
            p += 1;
        }
        proof {
            assert forall|q: int| p <= q < sorted@.len() implies (#[trigger] sorted@[q]).0 >= k + 1 by {
                if sorted@[q].0 == k {
                    if p < q {
                        assert(region_le(sorted@[p as int], sorted@[q]));
                    }
                }
            }
        }
        let ghost before = out@;
        out.push(LNode::Real(cards[k]));
        proof {
            assert(!(p < sorted@.len() && sorted@[p as int].0 == k));
            assert(out@ + woven(cards@, sorted@, (k + 1) as nat, p as nat) =~= before + woven(cards@, sorted@, k as nat, p as nat));
            assert(out@.drop_last() =~= before);
            assert(cards@.take(k + 1) =~= cards@.take(k as int).push(cards@[k as int]));
            assert(cards@.contains(cards@[k as int]));
        }
        k += 1;
    }
    while p < sorted.len()
        invariant
            p <= sorted@.len(),
            n == cards@.len(),
            out@.len() == n + p,
            cards_of(out@) == cards@,
            forall|q: int| 0 <= q < sorted@.len() ==> from_region(region@, (#[trigger] sorted@[q]).1),
            drawn_from(out@, cards@, region@),
            out@ + woven(cards@, sorted@, n as nat, p as nat) == woven(cards@, sorted@, 0, 0),
        decreases sorted.len() - p,
    {
        let ghost before = out@;
        out.push(LNode::Pass(sorted[p].1));
        proof {
            assert(out@ + woven(cards@, sorted@, n as nat, (p + 1) as nat) =~= before + woven(cards@, sorted@, n as nat, p as nat));
            assert(out@.drop_last() =~= before);
            assert(from_region(region@, sorted@[p as int].1));
        }
        p += 1;
    }
    proof {
        assert(cards@.take(n as int) =~= cards@);
        assert(woven(cards@, sorted@, n as nat, p as nat) =~= Seq::<LNode>::empty());
        assert(out@ =~= woven(cards@, sorted@, 0, 0));
        assert(interleaved(out@, cards@, region@));
    }
    out
}

/// The top row and height of a node's card, `(0, 0)` without one.
pub open spec fn card_at_spec(layout: &Layout, id: NodeId) -> (int, int) {
    match crate::layout::route::first_card(layout.cards@, id.0 as int) {
        Some(k) => (k.y as int, k.h as int),
        None => (0, 0),
    }
}

/// Whether a card in column `c` covers row `r`, its margins included.
pub open spec fn covers(layout: &Layout, c: usize, r: int) -> bool {
    exists|i: int|
        0 <= i < layout.cards@.len() && (#[trigger] layout.cards@[i]).col == c && layout.cards@[i].y - 1 <= r
            <= layout.cards@[i].y + layout.cards@[i].h
}

/// From entry `p` on: the columns of the first pass entry of `e` other than
/// `here` are clear of cards at row `r`.
pub open spec fn clear_from(passes: Seq<(EdgeId, Vec<usize>)>, layout: &Layout, e: EdgeId, here: usize, r: int, p: nat) -> bool
    decreases passes.len() - p,
{
    if p >= passes.len() {
        true
    } else if passes[p as int].0 == e {
        forall|q: int|
            0 <= q < passes[p as int].1@.len() && #[trigger] passes[p as int].1@[q] != here ==> !covers(
                layout,
                passes[p as int].1@[q],
                r,
            )
    } else {
        clear_from(passes, layout, e, here, r, p + 1)
    }
}

/// The top row and height of a node's card in a drawing; nothing for a node
/// without one.
fn card_at(layout: &Layout, id: NodeId) -> (r: (i64, i64))
    ensures
        i32::MIN <= r.0 <= i32::MAX,
        0 <= r.1 <= u16::MAX,
        (r.0 as int, r.1 as int) == card_at_spec(layout, id),
{
    match layout.card(id) {
        Some(k) => (k.y as i64, k.h as i64),
        None => (0, 0),
    }
}

/// The middle row of a node's card.
fn mid_row(layout: &Layout, id: NodeId) -> (r: i64)
    ensures
        i32::MIN <= r <= i32::MAX + u16::MAX,
        r == card_at_spec(layout, id).0 + card_at_spec(layout, id).1 / 2,
{
    let (y, h) = card_at(layout, id);
    y + h / 2
}

/// Whether a card in column `c` covers row `r`, its margins included.
fn covered(layout: &Layout, c: usize, r: i64) -> (b: bool)
    ensures
        b == covers(layout, c, r as int),
{
    let mut i: usize = 0;
    while i < layout.cards.len()
        invariant
            i <= layout.cards@.len(),
            forall|j: int|
                0 <= j < i ==> !((#[trigger] layout.cards@[j]).col == c && layout.cards@[j].y - 1 <= r
                    <= layout.cards@[j].y + layout.cards@[j].h),
        decreases layout.cards.len() - i,
    {
        let k = &layout.cards[i];
        if k.col == c && r >= k.y as i64 - 1 && r <= k.y as i64 + k.h as i64 {
            return true;
        }
        i += 1;
    }
    false
}

/// Whether row `r` is clear of cards in every column but `here` that the
/// pass slots of edge `e` sit in.
fn clear_for(l: &Layered, layout: &Layout, e: EdgeId, here: usize, r: i64) -> (b: bool)
    ensures
        b == clear_from(l.passes@, layout, e, here, r as int, 0),
{
    let mut p: usize = 0;
    while p < l.passes.len()
        invariant
            p <= l.passes@.len(),
            clear_from(l.passes@, layout, e, here, r as int, 0) == clear_from(l.passes@, layout, e, here, r as int, p as nat),
        decreases l.passes.len() - p,
    {
        if l.passes[p].0 == e {
            let cs = &l.passes[p].1;
            let mut q: usize = 0;
            while q < cs.len()
                invariant
                    q <= cs@.len(),
                    p < l.passes@.len(),
                    cs@ == l.passes@[p as int].1@,
                    l.passes@[p as int].0 == e,
                    clear_from(l.passes@, layout, e, here, r as int, 0) == clear_from(l.passes@, layout, e, here, r as int, p as nat),
                    forall|j: int| 0 <= j < q && #[trigger] cs@[j] != here ==> !covers(layout, cs@[j], r as int),
                decreases cs.len() - q,
            {
                if cs[q] != here && covered(layout, cs[q], r) {
                    assert(l.passes@[p as int].1@[q as int] != here);
                    assert(!clear_from(l.passes@, layout, e, here, r as int, p as nat));
                    return false;
                }
                q += 1;
            }
            return true;
        }
        p += 1;
    }
    true
}

fn abs64(x: i64) -> (r: i64)
    requires
        x > i64::MIN,
    ensures
        r == if x < 0 { -x } else { x as int },
{
    if x < 0 { -x } else { x }
}

/// `(detour, distance, edge)` before another: lexicographically.
pub open spec fn inside_le(a: (i64, i64, EdgeId, usize, i64), b: (i64, i64, EdgeId, usize, i64)) -> bool {
    a.0 < b.0 || (a.0 == b.0 && (a.1 < b.1 || (a.1 == b.1 && a.2.0 <= b.2.0)))
}

fn inside_le_exec(a: (i64, i64, EdgeId, usize, i64), b: (i64, i64, EdgeId, usize, i64)) -> (r: bool)
    ensures
        r == inside_le(a, b),
{
    a.0 < b.0 || (a.0 == b.0 && (a.1 < b.1 || (a.1 == b.1 && a.2.0 <= b.2.0)))
}

/// The entries sorted by detour, then distance from the wanted row, then edge.
fn sort_inside(v: &Vec<(i64, i64, EdgeId, usize, i64)>) -> (out: Vec<(i64, i64, EdgeId, usize, i64)>)
    ensures
        out@.len() == v@.len(),
        forall|i: int| 0 <= i < out@.len() ==> v@.contains(#[trigger] out@[i]),
        out@.to_multiset() == v@.to_multiset(),
        forall|i: int, j: int| 0 <= i < j < out@.len() ==> inside_le(out@[i], out@[j]),
{
    broadcast use vstd::seq_lib::group_to_multiset_ensures;
    let mut out: Vec<(i64, i64, EdgeId, usize, i64)> = Vec::new();
    let mut i: usize = 0;
    while i < v.len()
        invariant
            i <= v@.len(),
            out@.len() == i,
            forall|a: int| 0 <= a < out@.len() ==> v@.contains(#[trigger] out@[a]),
            out@.to_multiset() == v@.take(i as int).to_multiset(),
            forall|a: int, b: int| 0 <= a < b < out@.len() ==> inside_le(out@[a], out@[b]),
        decreases v.len() - i,
    {
        let x = v[i];
        let mut pos: usize = out.len();
        while pos > 0 && !inside_le_exec(out[pos - 1], x)
            invariant
                pos <= out@.len(),
                forall|a: int| pos <= a < out@.len() ==> !inside_le(out@[a], x),
            decreases pos,
        {
            pos -= 1;
        }
        let ghost before = out@;
        out.insert(pos, x);
        proof {
            assert(v@.contains(v@[i as int]));
            assert forall|a: int| 0 <= a < out@.len() implies v@.contains(#[trigger] out@[a]) by {
                if a < pos {
                    assert(out@[a] == before[a]);
                } else if a > pos {
                    assert(out@[a] == before[a - 1]);
                }
            }
            assert(v@.take(i + 1) =~= v@.take(i as int).push(x));
            assert(out@ =~= before.insert(pos as int, x));
            vstd::seq_lib::to_multiset_insert(before, pos as int, x);
            v@.take(i as int).to_multiset_ensures();
            assert(v@.take(i + 1).to_multiset() == v@.take(i as int).to_multiset().insert(x));
            assert forall|a: int, b: int| 0 <= a < b < out@.len() implies inside_le(out@[a], out@[b]) by {
                if a < pos && b == pos {
                    assert(inside_le(before[a], before[pos - 1]) || a == pos - 1);
                } else if a == pos && b > pos {
                    assert(!inside_le(before[b - 1], x));
                }
            }
        }
        i += 1;
    }
    proof {
        assert(v@.take(v@.len() as int) =~= v@);
    }
    out
}

/// The middle row of a node's card.
pub open spec fn mid_spec(layout: &Layout, id: NodeId) -> int {
    card_at_spec(layout, id).0 + card_at_spec(layout, id).1 / 2
}

/// The row a pass slot of edge `e` wants: its target's middle row when it
/// is one branch of a fan-out into a node with no other input, else its
/// source's.
pub open spec fn want_of(g: &ViewGraph, l: &Layered, layout: &Layout, e: EdgeId) -> int {
    let edge = g.edges@[e.0 as int];
    if l.out_deg@[edge.from.0 as int] >= 2 && l.in_deg@[edge.to.0 as int] == 1 {
        mid_spec(layout, edge.to)
    } else {
        mid_spec(layout, edge.from)
    }
}

/// Among the first `k` gaps under the cards, the one that suits a pass of
/// edge `e` best: clear in every other column it passes, the least detour
/// from its ends' rows, then nearest its wanted row, then the first; with
/// that detour, that distance and one past the card it sits under.
pub open spec fn best_gap(g: &ViewGraph, l: &Layered, layout: &Layout, here: usize, e: EdgeId, gaps: Seq<i64>, k: int) -> Option<(i64, i64, usize)>
    decreases k,
{
    if k <= 0 {
        None
    } else {
        let prev = best_gap(g, l, layout, here, e, gaps, k - 1);
        let r = gaps[k - 1] as int;
        if clear_from(l.passes@, layout, e, here, r, 0) {
            let edge = g.edges@[e.0 as int];
            let src = mid_spec(layout, edge.from);
            let dst = mid_spec(layout, edge.to);
            let lo = if src < dst { src } else { dst };
            let hi = if src < dst { dst } else { src };
            let want = want_of(g, l, layout, e);
            let key0 = (if lo - r > 0 { lo - r } else { 0 }) + (if r - hi > 0 { r - hi } else { 0 });
            let key1 = if r - want < 0 { want - r } else { r - want };
            let better = match prev {
                None => true,
                Some(u) => key0 < u.0 || (key0 == u.0 && key1 < u.1),
            };
            if better { Some((key0 as i64, key1 as i64, k as usize)) } else { prev }
        } else {
            prev
        }
    }
}

/// Above the stack (0) or below it (`n`), whichever is nearer `want`.
pub open spec fn outside_of(want: int, top: int, bottom: int, n: int) -> usize {
    (if want - top > bottom - want { n } else { 0 }) as usize
}

/// The passes among the first `j` slots of `col` whose wanted row lies
/// within the stack and that have a usable gap, with that gap's keys.
pub open spec fn inside_upto(
    g: &ViewGraph,
    l: &Layered,
    layout: &Layout,
    here: usize,
    col: Seq<LNode>,
    gaps: Seq<i64>,
    top: int,
    bottom: int,
    j: int,
) -> Seq<(i64, i64, EdgeId, usize, i64)>
    decreases j,
{
    if j <= 0 {
        Seq::empty()
    } else {
        let prev = inside_upto(g, l, layout, here, col, gaps, top, bottom, j - 1);
        match col[j - 1] {
            LNode::Pass(e) => {
                let want = want_of(g, l, layout, e);
                match best_gap(g, l, layout, here, e, gaps, gaps.len() as int) {
                    Some(u) => if top <= want < bottom { prev.push((u.0, u.1, e, u.2, want as i64)) } else { prev },
                    None => prev,
                }
            },
            LNode::Real(_) => prev,
        }
    }
}

/// The passes among the first `j` slots of `col` that go above or below
/// the stack whatever the room, with where they go.
pub open spec fn outside_upto(
    g: &ViewGraph,
    l: &Layered,
    layout: &Layout,
    here: usize,
    col: Seq<LNode>,
    gaps: Seq<i64>,
    top: int,
    bottom: int,
    n: int,
    j: int,
) -> Seq<(usize, EdgeId)>
    decreases j,
{
    if j <= 0 {
        Seq::empty()
    } else {
        let prev = outside_upto(g, l, layout, here, col, gaps, top, bottom, n, j - 1);
        match col[j - 1] {
            LNode::Pass(e) => {
                let want = want_of(g, l, layout, e);
                let inside = best_gap(g, l, layout, here, e, gaps, gaps.len() as int) is Some && top <= want < bottom;
                if inside { prev } else { prev.push((outside_of(want, top, bottom, n), e)) }
            },
            LNode::Real(_) => prev,
        }
    }
}

/// The gaps taken in order of the first `t` sorted inside passes: a pass
/// gets its gap while the widened gaps stay within `room`, else goes above
/// or below. The passes per gap, the rows added, and where each went.
pub open spec fn take_gaps(
    sorted: Seq<(i64, i64, EdgeId, usize, i64)>,
    n: int,
    room: int,
    top: int,
    bottom: int,
    t: int,
) -> (Seq<int>, int, Seq<(usize, EdgeId)>)
    decreases t,
{
    if t <= 0 {
        (Seq::new(n as nat, |i: int| 0int), 0, Seq::empty())
    } else {
        let (count, extra, placed) = take_gaps(sorted, n, room, top, bottom, t - 1);
        let x = sorted[t - 1];
        let k = x.3 as int;
        let grown = extra - slot_gap_spec(count[k]) + slot_gap_spec(count[k] + 1);
        if grown <= room {
            (count.update(k, count[k] + 1), grown, placed.push((x.3, x.2)))
        } else {
            (count, extra, placed.push((outside_of(x.4 as int, top, bottom, n), x.2)))
        }
    }
}

/// Column `here` once reslotted: unchanged with fewer than two cards; else
/// its cards woven with each pass in the gap it was given or above or below.
pub open spec fn reslotted(g: &ViewGraph, l: &Layered, layout: &Layout, here: usize, cards_h: int, out: Seq<LNode>) -> bool {
    let col = l.columns@[here as int]@;
    let cards = cards_of(col);
    let n = cards.len() as int;
    if n < 2 {
        out == col
    } else {
        let top = card_at_spec(layout, cards[0]).0;
        let bottom = card_at_spec(layout, cards[n - 1]).0 + card_at_spec(layout, cards[n - 1]).1;
        let room = cards_h + SLOT_RISE - (bottom - top);
        let gaps = Seq::new((n - 1) as nat, |k: int| (card_at_spec(layout, cards[k]).0 + card_at_spec(layout, cards[k]).1) as i64);
        let inside = inside_upto(g, l, layout, here, col, gaps, top, bottom, col.len() as int);
        exists|sorted: Seq<(i64, i64, EdgeId, usize, i64)>|
            #[trigger] sorted.to_multiset() == inside.to_multiset() && (forall|i: int, j: int|
                0 <= i < j < sorted.len() ==> inside_le(sorted[i], sorted[j])) && interleaved(
                out,
                cards,
                outside_upto(g, l, layout, here, col, gaps, top, bottom, n, col.len() as int) + take_gaps(
                    sorted,
                    n,
                    room,
                    top,
                    bottom,
                    sorted.len() as int,
                ).2,
            )
    }
}

/// One column of `reslot`.
fn reslot_column(g: &ViewGraph, l: &Layered, layout: &Layout, here: usize, cards_h: i64) -> (out: Vec<LNode>)
    requires
        small(g),
        l.wf_for(g),
        here < l.columns@.len(),
        l.columns@[here as int]@.len() <= MAX_COL,
        0 <= cards_h <= u16::MAX,
    ensures
        out@.len() == l.columns@[here as int]@.len(),
        cards_of(out@) == cards_of(l.columns@[here as int]@),
        forall|j: int| 0 <= j < out@.len() ==> lnode_ok(g, #[trigger] out@[j]),
        reslotted(g, l, layout, here, cards_h as int, out@),
{
    let col = &l.columns[here];
    let mut cards: Vec<NodeId> = Vec::new();
    let mut j: usize = 0;
    while j < col.len()
        invariant
            j <= col@.len(),
            col@ == l.columns@[here as int]@,
            small(g),
            l.wf_for(g),
            here < l.columns@.len(),
            cards@ == cards_of(col@.take(j as int)),
            cards@.len() <= j,
            forall|i: int| 0 <= i < cards@.len() ==> (#[trigger] cards@[i]).0 < g.nodes@.len(),
        decreases col.len() - j,
    {
        proof {
            assert(col@.take(j + 1).drop_last() =~= col@.take(j as int));
            assert(lnode_ok(g, col@[j as int]));
        }
        if let LNode::Real(id) = col[j] {
            cards.push(id);
        }
        j += 1;
    }
    proof {
        assert(col@.take(col@.len() as int) =~= col@);
    }
    if cards.len() < 2 {
        let mut same: Vec<LNode> = Vec::new();
        let mut j: usize = 0;
        while j < col.len()
            invariant
                j <= col@.len(),
                same@ == col@.take(j as int),
            decreases col.len() - j,
        {
            same.push(col[j]);
            proof {
                assert(same@ =~= col@.take(j + 1));
            }
            j += 1;
        }
        proof {
            assert(col@.take(col@.len() as int) =~= col@);
            assert(same@ == l.columns@[here as int]@);
            assert forall|j: int| 0 <= j < same@.len() implies lnode_ok(g, #[trigger] same@[j]) by {
                assert(lnode_ok(g, l.columns@[here as int]@[j]));
            }
        }
        return same;
    }
    let n = cards.len();
    let (top, _) = card_at(layout, cards[0]);
    let (ly, lh) = card_at(layout, cards[n - 1]);
    let bottom = ly + lh;
    let room = cards_h + SLOT_RISE as i64 - (bottom - top);
    // Blank row under each card but the last: the gap it heads.
    let mut gap_row: Vec<i64> = Vec::new();
    let mut k: usize = 0;
    while k + 1 < n
        invariant
            k < n,
            n == cards@.len(),
            gap_row@.len() == k,
            forall|i: int| 0 <= i < k ==> i32::MIN <= #[trigger] gap_row@[i] <= i32::MAX + u16::MAX,
            forall|i: int| 0 <= i < k ==> #[trigger] gap_row@[i] == card_at_spec(layout, cards@[i]).0 + card_at_spec(layout, cards@[i]).1,
        decreases n - k,
    {
        let (y, h) = card_at(layout, cards[k]);
        gap_row.push(y + h);
        k += 1;
    }
    let ghost gaps_spec = gap_row@;
    proof {
        assert(gaps_spec =~= Seq::new((n - 1) as nat, |k: int| (card_at_spec(layout, cards@[k]).0 + card_at_spec(layout, cards@[k]).1) as i64));
    }
    let mut inside: Vec<(i64, i64, EdgeId, usize, i64)> = Vec::new();
    let mut region: Vec<(usize, EdgeId)> = Vec::new();
    let mut j: usize = 0;
    while j < col.len()
        invariant
            j <= col@.len(),
            col@ == l.columns@[here as int]@,
            col@.len() <= MAX_COL,
            small(g),
            l.wf_for(g),
            here < l.columns@.len(),
            n == cards@.len(),
            n >= 2,
            cards@ == cards_of(col@),
            gap_row@.len() == n - 1,
            forall|i: int| 0 <= i < gap_row@.len() ==> i32::MIN <= #[trigger] gap_row@[i] <= i32::MAX + u16::MAX,
            i32::MIN <= top <= i32::MAX,
            i32::MIN <= bottom <= i32::MAX + u16::MAX,
            region@.len() + inside@.len() + cards_of(col@.take(j as int)).len() == j,
            forall|q: int| 0 <= q < region@.len() ==> (#[trigger] region@[q]).0 <= n,
            forall|q: int| 0 <= q < region@.len() ==> (#[trigger] region@[q]).1.0 < g.edges@.len(),
            forall|q: int| 0 <= q < inside@.len() ==> 1 <= (#[trigger] inside@[q]).3 < n,
            forall|q: int| 0 <= q < inside@.len() ==> (#[trigger] inside@[q]).2.0 < g.edges@.len(),
            forall|q: int| 0 <= q < inside@.len() ==> i32::MIN <= (#[trigger] inside@[q]).4 <= i32::MAX + u16::MAX,
            gap_row@ == gaps_spec,
            top == card_at_spec(layout, cards@[0]).0,
            bottom == card_at_spec(layout, cards@[n - 1]).0 + card_at_spec(layout, cards@[n - 1]).1,
            inside@ == inside_upto(g, l, layout, here, col@, gaps_spec, top as int, bottom as int, j as int),
            region@ == outside_upto(g, l, layout, here, col@, gaps_spec, top as int, bottom as int, n as int, j as int),
        decreases col.len() - j,
    {
        proof {
            assert(col@.take(j + 1).drop_last() =~= col@.take(j as int));
            assert(lnode_ok(g, col@[j as int]));
        }
        if let LNode::Pass(e) = col[j] {
            let edge = &g.edges[e.0 as usize];
            let src = mid_row(layout, edge.from);
            let dst = mid_row(layout, edge.to);
            let want = if l.out_deg[edge.from.0 as usize] >= 2 && l.in_deg[edge.to.0 as usize] == 1 { dst } else { src };
            let lo = if src < dst { src } else { dst };
            let hi = if src < dst { dst } else { src };
            // A gap this edge can use: its row is clear of cards in every
            // other column the edge passes, as one row serves them all.
            let mut usable: Option<(i64, i64, usize)> = None;
            let mut k: usize = 0;
            while k < gap_row.len()
                invariant
                    k <= gap_row@.len(),
                    gap_row@.len() == n - 1,
                    forall|i: int| 0 <= i < gap_row@.len() ==> i32::MIN <= #[trigger] gap_row@[i] <= i32::MAX + u16::MAX,
                    i32::MIN <= lo <= hi <= i32::MAX + u16::MAX,
                    i32::MIN <= want <= i32::MAX + u16::MAX,
                    usable matches Some(u) ==> 1 <= u.2 < n,
                    gap_row@ == gaps_spec,
                    want == want_of(g, l, layout, e),
                    src == mid_spec(layout, edge.from),
                    dst == mid_spec(layout, edge.to),
                    *edge == g.edges@[e.0 as int],
                    usable == best_gap(g, l, layout, here, e, gap_row@, k as int),
                    lo == (if src < dst { src } else { dst }),
                    hi == (if src < dst { dst } else { src }),
                decreases gap_row.len() - k,
            {
                proof {
                    assert(gap_row@[k as int] == gaps_spec[k as int]);
                }
                let r = gap_row[k];
                if clear_for(l, layout, e, here, r) {
                    let below = if lo - r > 0 { lo - r } else { 0 };
                    let above = if r - hi > 0 { r - hi } else { 0 };
                    let key = (below + above, abs64(r - want));
                    let better = match usable {
                        None => true,
                        Some(u) => key.0 < u.0 || (key.0 == u.0 && key.1 < u.1),
                    };
                    if better {
                        usable = Some((key.0, key.1, k + 1));
                    }
                }
                k += 1;
            }
            let outside = if want - top > bottom - want { n } else { 0 };
            match usable {
                Some(u) => {
                    if want >= top && want < bottom {
                        inside.push((u.0, u.1, e, u.2, want));
                    } else {
                        region.push((outside, e));
                    }
                },
                None => {
                    region.push((outside, e));
                },
            }
        }
        j += 1;
    }
    proof {
        assert(col@.take(col@.len() as int) =~= col@);
    }
    let ghost outs = region@;
    let sorted = sort_inside(&inside);
    let mut count: Vec<usize> = Vec::new();
    let mut k: usize = 0;
    while k < n
        invariant
            k <= n,
            count@.len() == k,
            forall|i: int| 0 <= i < k ==> #[trigger] count@[i] == 0,
        decreases n - k,
    {
        count.push(0);
        k += 1;
    }
    let mut extra: i64 = 0;
    let mut t: usize = 0;
    while t < sorted.len()
        invariant
            t <= sorted@.len(),
            sorted@.len() == inside@.len(),
            inside@.len() <= MAX_COL,
            forall|i: int| 0 <= i < sorted@.len() ==> inside@.contains(#[trigger] sorted@[i]),
            forall|q: int| 0 <= q < inside@.len() ==> 1 <= (#[trigger] inside@[q]).3 < n,
            forall|q: int| 0 <= q < inside@.len() ==> (#[trigger] inside@[q]).2.0 < g.edges@.len(),
            forall|q: int| 0 <= q < inside@.len() ==> i32::MIN <= (#[trigger] inside@[q]).4 <= i32::MAX + u16::MAX,
            count@.len() == n,
            forall|i: int| 0 <= i < n ==> #[trigger] count@[i] <= t,
            0 <= extra <= 2 * t,
            forall|i: int| 0 <= i < n ==> #[trigger] count@[i] as int == take_gaps(sorted@, n as int, room as int, top as int, bottom as int, t as int).0[i],
            extra == take_gaps(sorted@, n as int, room as int, top as int, bottom as int, t as int).1,
            region@ == outs + take_gaps(sorted@, n as int, room as int, top as int, bottom as int, t as int).2,
            take_gaps(sorted@, n as int, room as int, top as int, bottom as int, t as int).0.len() == n,
            i32::MIN <= top <= i32::MAX,
            i32::MIN <= bottom <= i32::MAX + u16::MAX,
            region@.len() + (inside@.len() - t) == col@.len() - n,
            forall|q: int| 0 <= q < region@.len() ==> (#[trigger] region@[q]).0 <= n,
            forall|q: int| 0 <= q < region@.len() ==> (#[trigger] region@[q]).1.0 < g.edges@.len(),
        decreases sorted.len() - t,
    {
        let x = sorted[t];
        proof {
            assert(inside@.contains(sorted@[t as int]));
            let q = choose|q: int| 0 <= q < inside@.len() && inside@[q] == x;
            assert(1 <= inside@[q].3 < n);
        }
        let k = x.3;
        proof {
            let c = count@[k as int] as int;
            assert(slot_gap_spec(c) <= slot_gap_spec(c + 1) <= slot_gap_spec(c) + 2);
        }
        let grown = extra - slot_gap(count[k]) as i64 + slot_gap(count[k] + 1) as i64;
        let want = x.4;
        if grown <= room {
            let c = count[k] + 1;
            count.set(k, c);
            extra = grown;
            region.push((k, x.2));
        } else {
            let outside = if want - top > bottom - want { n } else { 0 };
            region.push((outside, x.2));
        }
        t += 1;
    }
    let out = interleave(&cards, &region);
    proof {
        assert forall|j: int| 0 <= j < out@.len() implies lnode_ok(g, #[trigger] out@[j]) by {
            match out@[j] {
                LNode::Real(id) => {
                    assert(cards@.contains(id));
                    let i = choose|i: int| 0 <= i < cards@.len() && cards@[i] == id;
                    assert(cards@[i].0 < g.nodes@.len());
                },
                LNode::Pass(e) => {
                    assert(crate::layout::slots::from_region(region@, e));
                    let q = choose|q: int| 0 <= q < region@.len() && (#[trigger] region@[q]).1 == e;
                    assert(region@[q].1.0 < g.edges@.len());
                },
            }
        }
    }
    out
}

/// The column order with every pass slot in the gap the drawn rows say it
/// needs, `layout` being the order drawn without slots. A pass whose wanted
/// row falls inside a column's stack of cards goes between the pair whose
/// gap adds the least detour, nearest the wanted row; one above or below the
/// stack goes above or below it. Each gap widens by a row per pass, so a
/// column takes them in that order only while it stays within `SLOT_RISE`
/// of the tallest column; the rest go above or below, whichever is nearer.
/// Only pass slots move: every column keeps its cards, in their order, and
/// its length.
pub fn reslot(g: &ViewGraph, l: &Layered, layout: &Layout) -> (out: Vec<Vec<LNode>>)
    requires
        small(g),
        l.wf_for(g),
        forall|c: int| 0 <= c < l.columns@.len() ==> (#[trigger] l.columns@[c])@.len() <= MAX_COL,
    ensures
        out@.len() == l.columns@.len(),
        forall|c: int| 0 <= c < out@.len() ==> (#[trigger] out@[c])@.len() == l.columns@[c]@.len(),
        forall|c: int| 0 <= c < out@.len() ==> cards_of((#[trigger] out@[c])@) == cards_of(l.columns@[c]@),
        forall|c: int, j: int| 0 <= c < out@.len() && 0 <= j < out@[c]@.len() ==> lnode_ok(g, #[trigger] out@[c]@[j]),
        forall|c: int|
            0 <= c < out@.len() ==> reslotted(
                g,
                l,
                layout,
                c as usize,
                if layout.height >= layout.lanes { layout.height - layout.lanes } else { 0 },
                #[trigger] out@[c]@,
            ),
{
    // Rows the cards and pass rows reach, without the lanes.
    let cards_h: i64 = if layout.height >= layout.lanes { (layout.height - layout.lanes) as i64 } else { 0 };
    let mut out: Vec<Vec<LNode>> = Vec::new();
    let mut c: usize = 0;
    while c < l.columns.len()
        invariant
            c <= l.columns@.len(),
            small(g),
            l.wf_for(g),
            forall|x: int| 0 <= x < l.columns@.len() ==> (#[trigger] l.columns@[x])@.len() <= MAX_COL,
            0 <= cards_h <= u16::MAX,
            out@.len() == c,
            forall|x: int| 0 <= x < c ==> (#[trigger] out@[x])@.len() == l.columns@[x]@.len(),
            forall|x: int| 0 <= x < c ==> cards_of((#[trigger] out@[x])@) == cards_of(l.columns@[x]@),
            forall|x: int, j: int| 0 <= x < c && 0 <= j < out@[x]@.len() ==> lnode_ok(g, #[trigger] out@[x]@[j]),
            cards_h == (if layout.height >= layout.lanes { layout.height - layout.lanes } else { 0 }),
            forall|x: int| 0 <= x < c ==> reslotted(g, l, layout, x as usize, cards_h as int, #[trigger] out@[x]@),
        decreases l.columns.len() - c,
    {
        let col = reslot_column(g, l, layout, c, cards_h);
        out.push(col);
        c += 1;
    }
    out
}

} // verus!
