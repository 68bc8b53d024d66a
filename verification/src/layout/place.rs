//! Card rows per column: the gaps between stacked cards, every column
//! centred on the tallest, and sweeps that put each card on the median row
//! of its neighbours.

use vstd::prelude::*;

use crate::layout::order::{LNode, Layered, cards, cards_of, cards_spec, cards_view};
use crate::layout::MAX_NODES;
use crate::view::{NodeId, ViewGraph};

verus! {

/// Blank rows between stacked slots in a column.
pub const SLOT_GAP: i32 = 1;

/// Rows a layout may grow past its tallest column for pass slots between
/// stacked cards.
pub const SLOT_RISE: i32 = 2;

/// Placement sweeps tried after the centred layout: left-to-right, then
/// right-to-left, alternating.
pub const SWEEPS: usize = 4;

/// Tallest card.
pub const MAX_CARD_H: i32 = 4096;

/// Most blank rows between two stacked cards.
pub const MAX_GAP_ROWS: i32 = 5200;

/// Most slots in one column: every node and a pass slot of every edge.
pub const MAX_COL: usize = 5120;

/// Rows any column, and so any layout, stays within.
pub const MAX_ROWS: i32 = 134217728;

/// Rows between a pair of stacked cards holding `n` pass slots: a margin, a
/// row per pass, a margin, and one more when `n` is even so the column stays
/// an odd height.
pub open spec fn slot_gap_spec(n: int) -> int {
    if n == 0 {
        SLOT_GAP as int
    } else {
        SLOT_GAP + 1 + n + if n % 2 == 0 { 1int } else { 0int }
    }
}

pub fn slot_gap(n: usize) -> (r: i32)
    requires
        n <= MAX_COL,
    ensures
        r == slot_gap_spec(n as int),
        1 <= r <= MAX_GAP_ROWS,
{
    if n == 0 {
        SLOT_GAP
    } else {
        SLOT_GAP + 1 + n as i32 + if n % 2 == 0 { 1 } else { 0 }
    }
}

/// The gaps under each card of a column but the last, and the cards and
/// trailing pass slots seen so far.
pub open spec fn gap_fold(col: Seq<LNode>, slots: bool) -> (Seq<i32>, nat, nat)
    decreases col.len(),
{
    if col.len() == 0 {
        (Seq::empty(), 0, 0)
    } else {
        let (out, cards, pass) = gap_fold(col.drop_last(), slots);
        match col.last() {
            LNode::Pass(_) => (out, cards, pass + 1),
            LNode::Real(_) => {
                let out2 = if cards > 0 {
                    out.push(if slots { slot_gap_spec(pass as int) as i32 } else { SLOT_GAP })
                } else {
                    out
                };
                (out2, cards + 1, 0)
            },
        }
    }
}

/// One blank row between stacked cards, or with `slots` room for the pass
/// slots the column order puts between them.
pub open spec fn gaps_spec(columns: Seq<Vec<LNode>>, slots: bool) -> Seq<Seq<i32>> {
    columns.map_values(|c: Vec<LNode>| gap_fold(c@, slots).0)
}

pub open spec fn gaps_view(g: Seq<Vec<i32>>) -> Seq<Seq<i32>> {
    g.map_values(|c: Vec<i32>| c@)
}

proof fn lemma_gap_fold(col: Seq<LNode>, slots: bool)
    requires
        col.len() <= MAX_COL,
    ensures
        gap_fold(col, slots).1 == cards_of(col).len(),
        gap_fold(col, slots).0.len() == if cards_of(col).len() == 0 { 0 } else { cards_of(col).len() - 1 },
        gap_fold(col, slots).2 <= col.len(),
        forall|k: int| 0 <= k < gap_fold(col, slots).0.len() ==> 1 <= #[trigger] gap_fold(col, slots).0[k] <= MAX_GAP_ROWS,
    decreases col.len(),
{
    if col.len() > 0 {
        lemma_gap_fold(col.drop_last(), slots);
    }
}

/// Blank rows between each pair of stacked cards, per column. One blank row
/// keeps every column an odd height, so a card placed on the median of its
/// neighbours sits exactly between two of them. With `slots`, a pair the
/// column order puts pass slots between gets `slot_gap` of them, which keeps
/// the parity.
pub fn gaps(columns: &Vec<Vec<LNode>>, slots: bool) -> (out: Vec<Vec<i32>>)
    requires
        forall|c: int| 0 <= c < columns@.len() ==> (#[trigger] columns@[c])@.len() <= MAX_COL,
    ensures
        gaps_view(out@) == gaps_spec(columns@, slots),
        out@.len() == columns@.len(),
        forall|c: int|
            0 <= c < out@.len() ==> (#[trigger] out@[c])@.len() == if cards_of(columns@[c]@).len() == 0 {
                0
            } else {
                cards_of(columns@[c]@).len() - 1
            },
        forall|c: int, k: int| 0 <= c < out@.len() && 0 <= k < out@[c]@.len() ==> 1 <= #[trigger] out@[c]@[k] <= MAX_GAP_ROWS,
{
    let mut out: Vec<Vec<i32>> = Vec::new();
    let mut c: usize = 0;
    while c < columns.len()
        invariant
            c <= columns@.len(),
            forall|x: int| 0 <= x < columns@.len() ==> (#[trigger] columns@[x])@.len() <= MAX_COL,
            out@.len() == c,
            forall|x: int| 0 <= x < c ==> (#[trigger] out@[x])@ == gap_fold(columns@[x]@, slots).0,
        decreases columns.len() - c,
    {
        let col = &columns[c];
        let mut g: Vec<i32> = Vec::new();
        let mut cards: usize = 0;
        let mut pass: usize = 0;
        let mut i: usize = 0;
        while i < col.len()
            invariant
                i <= col@.len(),
                col@.len() <= MAX_COL,
                (g@, cards as nat, pass as nat) == gap_fold(col@.take(i as int), slots),
                cards <= i,
                pass <= i,
            decreases col.len() - i,
        {
            proof {
                assert(col@.take(i + 1).drop_last() =~= col@.take(i as int));
            }
            match col[i] {
                LNode::Pass(_) => {
                    pass += 1;
                },
                LNode::Real(_) => {
                    if cards > 0 {
                        g.push(if slots { slot_gap(pass) } else { SLOT_GAP });
                    }
                    cards += 1;
                    pass = 0;
                },
            }
            i += 1;
        }
        proof {
            assert(col@.take(i as int) =~= col@);
        }
        out.push(g);
        c += 1;
    }
    proof {
        assert(gaps_view(out@) =~= gaps_spec(columns@, slots));
        assert forall|x: int| 0 <= x < out@.len() implies (#[trigger] out@[x])@.len() == if cards_of(columns@[x]@).len() == 0 {
            0
        } else {
            cards_of(columns@[x]@).len() - 1
        } by {
            lemma_gap_fold(columns@[x]@, slots);
        }
        assert forall|x: int, k: int| 0 <= x < out@.len() && 0 <= k < out@[x]@.len() implies 1 <= #[trigger] out@[x]@[k] <= MAX_GAP_ROWS by {
            lemma_gap_fold(columns@[x]@, slots);
        }
    }
    out
}

pub open spec fn sum(s: Seq<i32>) -> int
    decreases s.len(),
{
    if s.len() == 0 {
        0
    } else {
        sum(s.drop_last()) + s.last()
    }
}

/// Card heights within bounds.
pub open spec fn heights_ok(h: Seq<i32>) -> bool {
    forall|i: int| 0 <= i < h.len() ==> 0 <= #[trigger] h[i] <= MAX_CARD_H
}

/// Gaps within bounds.
pub open spec fn gaps_ok(g: Seq<i32>) -> bool {
    forall|i: int| 0 <= i < g.len() ==> 1 <= #[trigger] g[i] <= MAX_GAP_ROWS
}

proof fn lemma_sum_bound(s: Seq<i32>, lo: int, hi: int)
    requires
        forall|i: int| 0 <= i < s.len() ==> lo <= #[trigger] s[i] <= hi,
        lo >= 0,
    ensures
        lo * s.len() <= sum(s) <= hi * s.len(),
    decreases s.len(),
{
    if s.len() > 0 {
        lemma_sum_bound(s.drop_last(), lo, hi);
        assert(lo * s.len() == lo * (s.len() - 1) + lo) by (nonlinear_arith);
        assert(hi * s.len() == hi * (s.len() - 1) + hi) by (nonlinear_arith);
    }
}

/// The height of a stacked column.
pub open spec fn height_spec(hs: Seq<i32>, gs: Seq<i32>) -> int {
    sum(hs) + sum(gs)
}

proof fn lemma_height_bound(hs: Seq<i32>, gs: Seq<i32>)
    requires
        heights_ok(hs),
        gaps_ok(gs),
        hs.len() <= MAX_COL,
        gs.len() <= MAX_COL,
    ensures
        0 <= height_spec(hs, gs) <= MAX_COL * (MAX_CARD_H + MAX_GAP_ROWS),
{
    lemma_sum_bound(hs, 0, MAX_CARD_H as int);
    lemma_sum_bound(gs, 1, MAX_GAP_ROWS as int);
    assert(MAX_CARD_H * hs.len() + MAX_GAP_ROWS * gs.len() <= MAX_COL * (MAX_CARD_H + MAX_GAP_ROWS)) by (nonlinear_arith)
        requires hs.len() <= MAX_COL, gs.len() <= MAX_COL;
}

fn sum_exec(s: &Vec<i32>, hi: i32) -> (r: i32)
    requires
        forall|i: int| 0 <= i < s@.len() ==> 0 <= #[trigger] s@[i] <= hi,
        0 <= hi,
        s@.len() * hi <= i32::MAX,
    ensures
        r == sum(s@),
{
    let mut acc: i32 = 0;
    let mut i: usize = 0;
    while i < s.len()
        invariant
            i <= s@.len(),
            forall|x: int| 0 <= x < s@.len() ==> 0 <= #[trigger] s@[x] <= hi,
            0 <= hi,
            s@.len() * hi <= i32::MAX,
            acc == sum(s@.take(i as int)),
            0 <= acc <= i * hi,
        decreases s.len() - i,
    {
        proof {
            assert(s@.take(i + 1).drop_last() =~= s@.take(i as int));
            assert(i * hi + hi <= s@.len() * hi) by (nonlinear_arith)
                requires i < s@.len(), 0 <= hi;
            assert(i * hi + hi == (i + 1) * hi) by (nonlinear_arith);
        }
        acc = acc + s[i];
        i += 1;
    }
    proof {
        assert(s@.take(i as int) =~= s@);
    }
    acc
}

pub fn height_of(hs: &Vec<i32>, gs: &Vec<i32>) -> (r: i32)
    requires
        heights_ok(hs@),
        gaps_ok(gs@),
        hs@.len() <= MAX_COL,
        gs@.len() <= MAX_COL,
    ensures
        r == height_spec(hs@, gs@),
        0 <= r <= MAX_COL * (MAX_CARD_H + MAX_GAP_ROWS),
{
    proof {
        lemma_height_bound(hs@, gs@);
        assert(hs@.len() * MAX_CARD_H <= MAX_COL * MAX_CARD_H) by (nonlinear_arith)
            requires hs@.len() <= MAX_COL;
        assert(gs@.len() * MAX_GAP_ROWS <= MAX_COL * MAX_GAP_ROWS) by (nonlinear_arith)
            requires gs@.len() <= MAX_COL;
    }
    sum_exec(hs, MAX_CARD_H) + sum_exec(gs, MAX_GAP_ROWS)
}

/// The heights of one column's cards, top to bottom.
pub open spec fn col_h_spec(h: Seq<i32>, col: Seq<NodeId>) -> Seq<i32> {
    col.map_values(|n: NodeId| if (n.0 as int) < h.len() { h[n.0 as int] } else { 0i32 })
}

pub fn col_h(h: &Vec<i32>, col: &Vec<NodeId>) -> (out: Vec<i32>)
    requires
        heights_ok(h@),
    ensures
        out@ == col_h_spec(h@, col@),
        heights_ok(out@),
{
    let mut out: Vec<i32> = Vec::new();
    let mut i: usize = 0;
    while i < col.len()
        invariant
            i <= col@.len(),
            heights_ok(h@),
            out@ == col_h_spec(h@, col@).take(i as int),
        decreases col.len() - i,
    {
        let n = col[i].0 as usize;
        out.push(if n < h.len() { h[n] } else { 0 });
        proof {
            assert(out@ =~= col_h_spec(h@, col@).take(i + 1));
        }
        i += 1;
    }
    proof {
        assert(col_h_spec(h@, col@).take(i as int) =~= col_h_spec(h@, col@));
    }
    out
}

/// Cards of each column, with gaps to match and each column within the
/// node count.
pub open spec fn shape_ok(cards: Seq<Vec<NodeId>>, gaps: Seq<Vec<i32>>) -> bool {
    &&& cards.len() == gaps.len()
    &&& cards.len() <= MAX_NODES
    &&& forall|c: int| 0 <= c < cards.len() ==> (#[trigger] cards[c])@.len() <= MAX_COL
    &&& forall|c: int|
        0 <= c < cards.len() ==> (#[trigger] gaps[c])@.len() == if cards[c]@.len() == 0 { 0 } else { cards[c]@.len() - 1 }
    &&& forall|c: int| 0 <= c < gaps.len() ==> gaps_ok((#[trigger] gaps[c])@)
}

/// The height of column `c`.
pub open spec fn column_height(cards: Seq<Vec<NodeId>>, gaps: Seq<Vec<i32>>, h: Seq<i32>, c: int) -> int {
    height_spec(col_h_spec(h, cards[c]@), gaps[c]@)
}

/// The tallest of the first `n` columns' heights.
pub open spec fn tallest_spec_upto(cards: Seq<Vec<NodeId>>, gaps: Seq<Vec<i32>>, h: Seq<i32>, n: int) -> int
    decreases n,
{
    if n <= 0 {
        0
    } else {
        let t = tallest_spec_upto(cards, gaps, h, n - 1);
        let x = column_height(cards, gaps, h, n - 1);
        if n == 1 || x > t { x } else { t }
    }
}

/// The tallest column's height.
pub open spec fn tallest_spec(cards: Seq<Vec<NodeId>>, gaps: Seq<Vec<i32>>, h: Seq<i32>) -> int {
    tallest_spec_upto(cards, gaps, h, cards.len() as int)
}

/// The tallest column.
pub fn tallest(cards: &Vec<Vec<NodeId>>, gaps: &Vec<Vec<i32>>, h: &Vec<i32>) -> (t: i32)
    requires
        shape_ok(cards@, gaps@),
        heights_ok(h@),
    ensures
        0 <= t <= MAX_COL * (MAX_CARD_H + MAX_GAP_ROWS),
        t == tallest_spec(cards@, gaps@, h@),
        forall|c: int| 0 <= c < cards@.len() ==> column_height(cards@, gaps@, h@, c) <= t,
        cards@.len() > 0 ==> exists|c: int| 0 <= c < cards@.len() && column_height(cards@, gaps@, h@, c) == t,
{
    let mut best: i32 = 0;
    let mut c: usize = 0;
    while c < cards.len()
        invariant
            c <= cards@.len(),
            shape_ok(cards@, gaps@),
            heights_ok(h@),
            0 <= best <= MAX_COL * (MAX_CARD_H + MAX_GAP_ROWS),
            forall|x: int| 0 <= x < c ==> column_height(cards@, gaps@, h@, x) <= best,
            c > 0 ==> exists|x: int| 0 <= x < c && column_height(cards@, gaps@, h@, x) == best,
            c == 0 ==> best == 0,
            best == tallest_spec_upto(cards@, gaps@, h@, c as int),
        decreases cards.len() - c,
    {
        let hs = col_h(h, &cards[c]);
        proof {
            assert(gaps@[c as int]@.len() <= MAX_COL);
        }
        let x = height_of(&hs, &gaps[c]);
        assert(column_height(cards@, gaps@, h@, c as int) == x);
        if c == 0 || x > best {
            best = x;
        }
        c += 1;
    }
    best
}

/// Rows from the top of a tight stack to the top of card `k`.
pub open spec fn prefix(hs: Seq<i32>, gs: Seq<i32>, k: int) -> int {
    sum(hs.take(k)) + sum(gs.take(k))
}

proof fn lemma_sum_take(s: Seq<i32>, k: int)
    requires
        0 <= k < s.len(),
    ensures
        sum(s.take(k + 1)) == sum(s.take(k)) + s[k],
{
    assert(s.take(k + 1).drop_last() =~= s.take(k));
}

/// A column's rows: in order, a gap's worth apart at least, inside
/// `0..height`.
pub open spec fn stacked(ys: Seq<i32>, hs: Seq<i32>, gs: Seq<i32>, height: int) -> bool {
    &&& ys.len() == hs.len()
    &&& forall|k: int| 0 <= k < ys.len() ==> 0 <= #[trigger] ys[k]
    &&& forall|k: int| 0 <= k < ys.len() ==> ys[k] + hs[k] <= height
    &&& forall|k: int| 0 <= k && k + 1 < ys.len() ==> #[trigger] ys[k] + hs[k] + gs[k] <= ys[k + 1]
}

/// The gaps of a column of `n` cards.
pub open spec fn gaps_fit(n: int, gs: Seq<i32>) -> bool {
    gs.len() == if n == 0 { 0 } else { n - 1 }
}

/// Press a stacked column into rows `0..height`, keeping order and moving
/// each card as little as possible.
/// Row `i` after the upward press: no card below `height`, each above the
/// next by its height and gap.
pub open spec fn pressed_up(col: Seq<i32>, gaps: Seq<i32>, hs: Seq<i32>, height: int, i: int) -> int
    decreases col.len() - i,
{
    if i < 0 || i >= col.len() {
        0
    } else {
        let limit = if i + 1 < col.len() { pressed_up(col, gaps, hs, height, i + 1) - hs[i] - gaps[i] } else { height - hs[i] };
        if limit < col[i] { limit } else { col[i] as int }
    }
}

/// Row `k` after the downward press that follows: none above row 0, each
/// below the one before by its height and gap.
pub open spec fn pressed(col: Seq<i32>, gaps: Seq<i32>, hs: Seq<i32>, height: int, k: int) -> int
    decreases k,
{
    if k <= 0 {
        let up = pressed_up(col, gaps, hs, height, 0);
        if 0 > up { 0 } else { up }
    } else {
        let up = pressed_up(col, gaps, hs, height, k);
        let limit = pressed(col, gaps, hs, height, k - 1) + hs[k - 1] + gaps[k - 1];
        if limit > up { limit } else { up }
    }
}

pub fn fit(col: &mut Vec<i32>, gaps: &Vec<i32>, hs: &Vec<i32>, height: i32)
    requires
        old(col)@.len() == hs@.len(),
        hs@.len() <= MAX_COL,
        gaps_fit(hs@.len() as int, gaps@),
        heights_ok(hs@),
        gaps_ok(gaps@),
        height_spec(hs@, gaps@) <= height <= MAX_ROWS,
        forall|k: int| 0 <= k < old(col)@.len() ==> -4 * MAX_ROWS <= #[trigger] old(col)@[k] <= 4 * MAX_ROWS,
    ensures
        final(col)@.len() == old(col)@.len(),
        stacked(final(col)@, hs@, gaps@, height as int),
        forall|k: int| 0 <= k < final(col)@.len() ==> #[trigger] final(col)@[k] == pressed(old(col)@, gaps@, hs@, height as int, k),
{
    let ghost c0 = col@;
    let n = col.len();
    let ghost total = height_spec(hs@, gaps@);
    proof {
        lemma_height_bound(hs@, gaps@);
    }
    let mut k: usize = n;
    while k > 0
        invariant
            k <= n,
            n == col@.len(),
            n == hs@.len(),
            n <= MAX_COL,
            gaps_fit(n as int, gaps@),
            heights_ok(hs@),
            gaps_ok(gaps@),
            total == height_spec(hs@, gaps@),
            0 <= total <= height <= MAX_ROWS,
            forall|j: int| 0 <= j < k ==> -4 * MAX_ROWS <= #[trigger] col@[j] <= 4 * MAX_ROWS,
            forall|j: int| k <= j < n ==> #[trigger] col@[j] <= height - (total - prefix(hs@, gaps@, j)),
            forall|j: int| k <= j < n ==> -4 * MAX_ROWS - (n - j) * (MAX_CARD_H + MAX_GAP_ROWS) <= #[trigger] col@[j],
            forall|j: int| k <= j && j + 1 < n ==> #[trigger] col@[j] + hs@[j] + gaps@[j] <= col@[j + 1],
            c0.len() == n,
            forall|j: int| 0 <= j < k ==> #[trigger] col@[j] == c0[j],
            forall|j: int| k <= j < n ==> #[trigger] col@[j] == pressed_up(c0, gaps@, hs@, height as int, j),
        decreases k,
    {
        let i = k - 1;
        proof {
            lemma_sum_take(hs@, i as int);
            if i + 1 < n {
                lemma_sum_take(gaps@, i as int);
            } else {
                assert(gaps@.take(i as int) =~= gaps@);
            }
            lemma_prefix_bound(hs@, gaps@, i as int);
            assert((n - i) * (MAX_CARD_H + MAX_GAP_ROWS) == (n - (i + 1)) * (MAX_CARD_H + MAX_GAP_ROWS) + (MAX_CARD_H + MAX_GAP_ROWS)) by (nonlinear_arith);
            assert((n - i) * (MAX_CARD_H + MAX_GAP_ROWS) <= MAX_COL * (MAX_CARD_H + MAX_GAP_ROWS)) by (nonlinear_arith)
                requires n - i <= MAX_COL;
        }
        let limit = if i + 1 < n {
            col[i + 1] - hs[i] - gaps[i]
        } else {
            height - hs[i]
        };
        if limit < col[i] {
            col.set(i, limit);
        }
        k = i;
    }
    proof {
        assert forall|j: int| 0 <= j < n implies -5 * MAX_ROWS <= #[trigger] col@[j] by {
            assert((n - j) * (MAX_CARD_H + MAX_GAP_ROWS) <= MAX_COL * (MAX_CARD_H + MAX_GAP_ROWS)) by (nonlinear_arith)
                requires n - j <= MAX_COL;
        }
    }
    let mut k: usize = 0;
    while k < n
        invariant
            k <= n,
            n == col@.len(),
            n == hs@.len(),
            n <= MAX_COL,
            gaps_fit(n as int, gaps@),
            heights_ok(hs@),
            gaps_ok(gaps@),
            total == height_spec(hs@, gaps@),
            0 <= total <= height <= MAX_ROWS,
            forall|j: int| 0 <= j < n ==> #[trigger] col@[j] <= height - (total - prefix(hs@, gaps@, j)),
            forall|j: int| 0 <= j < n ==> -5 * MAX_ROWS <= #[trigger] col@[j],
            forall|j: int| 0 <= j < k ==> prefix(hs@, gaps@, j) <= #[trigger] col@[j],
            forall|j: int| 0 <= j && j + 1 < k ==> #[trigger] col@[j] + hs@[j] + gaps@[j] <= col@[j + 1],
            c0.len() == n,
            forall|j: int| 0 <= j < k ==> #[trigger] col@[j] == pressed(c0, gaps@, hs@, height as int, j),
            forall|j: int| k <= j < n ==> #[trigger] col@[j] == pressed_up(c0, gaps@, hs@, height as int, j),
        decreases n - k,
    {
        proof {
            if k > 0 {
                lemma_sum_take(hs@, k - 1);
                lemma_sum_take(gaps@, k - 1);
            }
            lemma_prefix_bound(hs@, gaps@, k as int);
        }
        let limit = if k > 0 {
            col[k - 1] + hs[k - 1] + gaps[k - 1]
        } else {
            0
        };
        if limit > col[k] {
            col.set(k, limit);
        }
        k += 1;
    }
    proof {
        assert forall|j: int| 0 <= j < n implies 0 <= #[trigger] col@[j] by {
            lemma_prefix_bound(hs@, gaps@, j);
        }
        assert forall|j: int| 0 <= j < n implies col@[j] + hs@[j] <= height by {
            lemma_prefix_bound(hs@, gaps@, j);
        }
    }
}

proof fn lemma_prefix_bound(hs: Seq<i32>, gs: Seq<i32>, k: int)
    requires
        heights_ok(hs),
        gaps_ok(gs),
        0 <= k < hs.len(),
        gaps_fit(hs.len() as int, gs),
        hs.len() <= MAX_COL,
    ensures
        0 <= prefix(hs, gs, k),
        prefix(hs, gs, k) + hs[k] <= height_spec(hs, gs),
    decreases hs.len() - k,
{
    lemma_take_sum_nonneg(hs, k);
    lemma_take_sum_nonneg(gs, k);
    if k + 1 < hs.len() {
        lemma_prefix_bound(hs, gs, k + 1);
        lemma_sum_take(hs, k);
        lemma_sum_take(gs, k);
    } else {
        lemma_sum_take(hs, k);
        assert(hs.take(k + 1) =~= hs);
        assert(gs.take(k) =~= gs);
    }
}

proof fn lemma_take_sum_nonneg(s: Seq<i32>, k: int)
    requires
        0 <= k <= s.len(),
        forall|i: int| 0 <= i < s.len() ==> 0 <= #[trigger] s[i],
    ensures
        0 <= sum(s.take(k)),
    decreases k,
{
    if k > 0 {
        lemma_take_sum_nonneg(s, k - 1);
        lemma_sum_take(s, k - 1);
    }
}

/// Every column's cards as heights, top to bottom.
pub open spec fn hs_spec(cards: Seq<Vec<NodeId>>, h: Seq<i32>) -> Seq<Seq<i32>> {
    cards.map_values(|c: Vec<NodeId>| col_h_spec(h, c@))
}

/// Each column stacked inside `0..height`, card by card, gap by gap.
pub open spec fn placed(ys: Seq<Vec<i32>>, cards: Seq<Vec<NodeId>>, gaps: Seq<Vec<i32>>, h: Seq<i32>, height: int) -> bool {
    &&& ys.len() == cards.len()
    &&& forall|c: int| 0 <= c < ys.len() ==> stacked((#[trigger] ys[c])@, col_h_spec(h, cards[c]@), gaps[c]@, height)
}

/// Every column centred on the tallest.
pub fn centred(cards: &Vec<Vec<NodeId>>, gaps: &Vec<Vec<i32>>, h: &Vec<i32>) -> (ys: Vec<Vec<i32>>)
    requires
        shape_ok(cards@, gaps@),
        heights_ok(h@),
    ensures
        placed(ys@, cards@, gaps@, h@, tallest_spec(cards@, gaps@, h@)),
        forall|c: int, k: int|
            0 <= c < ys@.len() && 0 <= k < ys@[c]@.len() ==> #[trigger] ys@[c]@[k] == (tallest_spec(cards@, gaps@, h@)
                - column_height(cards@, gaps@, h@, c)) / 2 + prefix(col_h_spec(h@, cards@[c]@), gaps@[c]@, k),
{
    let t = tallest(cards, gaps, h);
    let mut out: Vec<Vec<i32>> = Vec::new();
    let mut c: usize = 0;
    while c < cards.len()
        invariant
            c <= cards@.len(),
            shape_ok(cards@, gaps@),
            heights_ok(h@),
            t == tallest_spec(cards@, gaps@, h@),
            0 <= t <= MAX_COL * (MAX_CARD_H + MAX_GAP_ROWS),
            forall|x: int| 0 <= x < cards@.len() ==> column_height(cards@, gaps@, h@, x) <= t,
            out@.len() == c,
            forall|x: int| 0 <= x < c ==> stacked((#[trigger] out@[x])@, col_h_spec(h@, cards@[x]@), gaps@[x]@, t as int),
            forall|x: int, k: int|
                0 <= x < c && 0 <= k < out@[x]@.len() ==> #[trigger] out@[x]@[k] == (t - column_height(cards@, gaps@, h@, x)) / 2
                    + prefix(col_h_spec(h@, cards@[x]@), gaps@[x]@, k),
        decreases cards.len() - c,
    {
        let hs = col_h(h, &cards[c]);
        let g = &gaps[c];
        let ch = height_of(&hs, g);
        let ghost hc = column_height(cards@, gaps@, h@, c as int);
        assert(ch == hc);
        let mut y: i32 = (t - ch) / 2;
        let mut col: Vec<i32> = Vec::new();
        let mut k: usize = 0;
        while k < hs.len()
            invariant
                k <= hs@.len(),
                hs@ == col_h_spec(h@, cards@[c as int]@),
                heights_ok(hs@),
                hs@.len() <= MAX_COL,
                gaps_fit(hs@.len() as int, g@),
                gaps_ok(g@),
                0 <= hc <= t <= MAX_COL * (MAX_CARD_H + MAX_GAP_ROWS),
                hc == height_spec(hs@, g@),
                col@.len() == k,
                k < hs@.len() ==> y == (t - hc) / 2 + prefix(hs@, g@, k as int),
                forall|j: int| 0 <= j < k ==> #[trigger] col@[j] == (t - hc) / 2 + prefix(hs@, g@, j),
            decreases hs.len() - k,
        {
            proof {
                lemma_prefix_bound(hs@, g@, k as int);
            }
            let top = y;
            col.push(top);
            if k + 1 < hs.len() {
                proof {
                    lemma_sum_take(hs@, k as int);
                    lemma_sum_take(g@, k as int);
                    lemma_prefix_bound(hs@, g@, k + 1);
                }
                y = y + hs[k] + g[k];
            }
            k += 1;
        }
        proof {
            assert forall|j: int| 0 <= j < col@.len() implies 0 <= #[trigger] col@[j] by {
                lemma_prefix_bound(hs@, g@, j);
            }
            assert forall|j: int| 0 <= j < col@.len() implies col@[j] + hs@[j] <= t by {
                lemma_prefix_bound(hs@, g@, j);
            }
            assert forall|j: int| 0 <= j && j + 1 < col@.len() implies #[trigger] col@[j] + hs@[j] + g@[j] <= col@[j + 1] by {
                lemma_sum_take(hs@, j);
                lemma_sum_take(g@, j);
            }
        }
        out.push(col);
        c += 1;
    }
    out
}

/// Every value of `s` within `lo..=hi`.
pub open spec fn within(s: Seq<i32>, lo: int, hi: int) -> bool {
    forall|i: int| 0 <= i < s.len() ==> lo <= #[trigger] s[i] <= hi
}

pub open spec fn ascending(s: Seq<i32>) -> bool {
    forall|i: int, j: int| 0 <= i <= j < s.len() ==> #[trigger] s[i] <= #[trigger] s[j]
}

/// The values in ascending order.
pub fn sort_rows(v: &Vec<i32>) -> (out: Vec<i32>)
    ensures
        out@.to_multiset() == v@.to_multiset(),
        out@.len() == v@.len(),
        ascending(out@),
        forall|lo: int, hi: int| within(v@, lo, hi) ==> within(out@, lo, hi),
{
    let mut out: Vec<i32> = Vec::new();
    let mut j: usize = 0;
    proof {
        assert(out@ =~= v@.take(0));
    }
    while j < v.len()
        invariant
            j <= v@.len(),
            out@.to_multiset() == v@.take(j as int).to_multiset(),
            out@.len() == j,
            ascending(out@),
        decreases v.len() - j,
    {
        let x = v[j];
        let mut pos: usize = out.len();
        while pos > 0 && out[pos - 1] > x
            invariant
                pos <= out@.len(),
                forall|i: int| pos <= i < out@.len() ==> x < #[trigger] out@[i],
            decreases pos,
        {
            pos -= 1;
        }
        let ghost o = out@;
        proof {
            vstd::seq_lib::to_multiset_insert(o, pos as int, x);
            assert(v@.take(j + 1) =~= v@.take(j as int).push(x));
            vstd::seq_lib::to_multiset_build(v@.take(j as int), x);
        }
        out.insert(pos, x);
        proof {
            assert forall|a: int, b: int| 0 <= a <= b < out@.len() implies #[trigger] out@[a] <= #[trigger] out@[b] by {
                if a == b {
                } else if b < pos {
                    assert(out@[a] == o[a] && out@[b] == o[b]);
                } else if b == pos {
                    assert(out@[a] == o[a]);
                    assert(o[a] <= o[pos - 1]);
                } else if a == pos {
                    assert(out@[b] == o[b - 1]);
                } else if a < pos {
                    assert(out@[a] == o[a] && out@[b] == o[b - 1]);
                } else {
                    assert(out@[a] == o[a - 1] && out@[b] == o[b - 1]);
                }
            }
        }
        j += 1;
    }
    proof {
        assert(v@.take(j as int) =~= v@);
        assert forall|lo: int, hi: int| within(v@, lo, hi) implies within(out@, lo, hi) by {
            assert forall|i: int| 0 <= i < out@.len() implies lo <= #[trigger] out@[i] <= hi by {
                vstd::seq_lib::to_multiset_contains(out@, out@[i]);
                vstd::seq_lib::to_multiset_contains(v@, out@[i]);
                assert(out@.contains(out@[i]));
                assert(v@.contains(out@[i]));
                let k = choose|k: int| 0 <= k < v@.len() && v@[k] == out@[i];
            }
        }
    }
    out
}

/// `(a + b) / 2` rounded towards zero.
pub open spec fn midpoint(a: int, b: int) -> int {
    let s = a + b;
    if s >= 0 { s / 2 } else { -((-s) / 2) }
}

/// Middle value of a sorted list; the midpoint of the two middle ones,
/// rounded towards zero, when even.
pub open spec fn median_spec(s: Seq<i32>) -> Option<int> {
    let n = s.len() as int;
    if n == 0 {
        None
    } else if n % 2 == 1 {
        Some(s[n / 2] as int)
    } else {
        Some(midpoint(s[n / 2 - 1] as int, s[n / 2] as int))
    }
}

pub fn median(sorted: &Vec<i32>) -> (m: Option<i32>)
    requires
        within(sorted@, -4 * MAX_ROWS, 4 * MAX_ROWS),
        ascending(sorted@),
    ensures
        match m {
            Some(x) => median_spec(sorted@) == Some(x as int),
            None => median_spec(sorted@) is None,
        },
        forall|lo: int, hi: int| within(sorted@, lo, hi) && m is Some ==> lo <= m->0 <= hi,
{
    let n = sorted.len();
    if n == 0 {
        return None;
    }
    if n % 2 == 1 {
        Some(sorted[n / 2])
    } else {
        let a = sorted[n / 2 - 1] as i64;
        let b = sorted[n / 2] as i64;
        let s = a + b;
        let r = if s >= 0 { s / 2 } else { -((-s) / 2) };
        Some(r as i32)
    }
}

/// How a sweep centres a card on a sorted list of neighbour rows.
#[derive(Debug, Clone, Copy, PartialEq, Eq, Structural)]
pub enum Centre {
    /// The median: what the eye expects of a stack of neighbours.
    Median,
    /// The midpoint of the first and last, rounded down: a fan is symmetric
    /// when its bus row is the midpoint of its outermost rows.
    Low,
    /// The same midpoint, rounded up.
    High,
}

/// Midpoint of the first and last of a sorted list, rounded down or `up`.
pub open spec fn extremes_spec(s: Seq<i32>, up: bool) -> Option<int> {
    if s.len() == 0 {
        None
    } else {
        Some((s[0] + s.last() + if up { 1int } else { 0int }) / 2)
    }
}

pub open spec fn centre_spec(s: Seq<i32>, c: Centre) -> Option<int> {
    match c {
        Centre::Median => median_spec(s),
        Centre::Low => extremes_spec(s, false),
        Centre::High => extremes_spec(s, true),
    }
}

/// The centre of a sorted list, as `c` takes it.
pub fn centre_of(sorted: &Vec<i32>, c: Centre) -> (m: Option<i32>)
    requires
        within(sorted@, -4 * MAX_ROWS, 4 * MAX_ROWS),
        ascending(sorted@),
    ensures
        match m {
            Some(x) => centre_spec(sorted@, c) == Some(x as int),
            None => centre_spec(sorted@, c) is None,
        },
        forall|lo: int, hi: int| within(sorted@, lo, hi) && m is Some ==> lo <= m->0 <= hi,
{
    match c {
        Centre::Median => median(sorted),
        _ => {
            let n = sorted.len();
            if n == 0 {
                return None;
            }
            let lo = sorted[0] as i64;
            let hi = sorted[n - 1] as i64;
            let up: i64 = if c == Centre::High { 1 } else { 0 };
            let t = lo + hi + up;
            let r = if t >= 0 { t / 2 } else { -((-t + 1) / 2) };
            proof {
                assert(sorted@[0] <= sorted@[n - 1]);
                assert forall|a: int, b: int| within(sorted@, a, b) implies a <= r <= b by {
                    assert(a <= sorted@[0]);
                    assert(sorted@[n - 1] <= b);
                }
            }
            Some(r as i32)
        },
    }
}

/// Columns of cards and gaps from a layered graph: the cards of each
/// column, each known to sit somewhere.
pub open spec fn at_ok(at: Seq<Option<(usize, usize)>>, cards: Seq<Vec<NodeId>>) -> bool {
    forall|n: int|
        0 <= n < at.len() ==> match #[trigger] at[n] {
            Some(p) => p.0 < cards.len() && p.1 < cards[p.0 as int]@.len(),
            None => true,
        }
}

pub fn locate(cards: &Vec<Vec<NodeId>>, n: usize) -> (at: Vec<Option<(usize, usize)>>)
    ensures
        at@.len() == n,
        at_ok(at@, cards@),
{
    let mut at: Vec<Option<(usize, usize)>> = Vec::new();
    let mut i: usize = 0;
    while i < n
        invariant
            i <= n,
            at@.len() == i,
            forall|x: int| 0 <= x < i ==> (#[trigger] at@[x]) is None,
        decreases n - i,
    {
        at.push(None);
        i += 1;
    }
    let mut c: usize = 0;
    while c < cards.len()
        invariant
            c <= cards@.len(),
            at@.len() == n,
            at_ok(at@, cards@),
        decreases cards.len() - c,
    {
        let mut k: usize = 0;
        while k < cards[c].len()
            invariant
                k <= cards@[c as int]@.len(),
                c < cards@.len(),
                at@.len() == n,
                at_ok(at@, cards@),
            decreases cards@[c as int]@.len() - k,
        {
            let id = cards[c][k].0 as usize;
            if id < n {
                at.set(id, Some((c, k)));
            }
            k += 1;
        }
        c += 1;
    }
    at
}

pub fn copy_rows(ys: &Vec<Vec<i32>>) -> (out: Vec<Vec<i32>>)
    ensures
        out@.len() == ys@.len(),
        forall|c: int| 0 <= c < ys@.len() ==> (#[trigger] out@[c])@ == ys@[c]@,
{
    let mut out: Vec<Vec<i32>> = Vec::new();
    let mut c: usize = 0;
    while c < ys.len()
        invariant
            c <= ys@.len(),
            out@.len() == c,
            forall|x: int| 0 <= x < c ==> (#[trigger] out@[x])@ == ys@[x]@,
        decreases ys.len() - c,
    {
        let src = &ys[c];
        let mut col: Vec<i32> = Vec::new();
        let mut i: usize = 0;
        while i < src.len()
            invariant
                i <= src@.len(),
                col@ == src@.take(i as int),
            decreases src.len() - i,
        {
            col.push(src[i]);
            proof {
                assert(col@ =~= src@.take(i + 1));
            }
            i += 1;
        }
        proof {
            assert(src@.take(i as int) =~= src@);
        }
        out.push(col);
        c += 1;
    }
    out
}

pub fn same_rows(a: &Vec<Vec<i32>>, b: &Vec<Vec<i32>>) -> (r: bool)
    ensures
        r == (a@.len() == b@.len() && forall|c: int| 0 <= c < a@.len() ==> (#[trigger] a@[c])@ == b@[c]@),
{
    if a.len() != b.len() {
        return false;
    }
    let mut c: usize = 0;
    while c < a.len()
        invariant
            c <= a@.len(),
            a@.len() == b@.len(),
            forall|x: int| 0 <= x < c ==> (#[trigger] a@[x])@ == b@[x]@,
        decreases a.len() - c,
    {
        let x = &a[c];
        let y = &b[c];
        assert(x@ == a@[c as int]@ && y@ == b@[c as int]@);
        if x.len() != y.len() {
            assert(a@[c as int]@ != b@[c as int]@);
            return false;
        }
        let mut i: usize = 0;
        while i < x.len()
            invariant
                i <= x@.len(),
                x@.len() == y@.len(),
                x@.take(i as int) == y@.take(i as int),
                c < a@.len(),
                a@.len() == b@.len(),
                x@ == a@[c as int]@,
                y@ == b@[c as int]@,
            decreases x.len() - i,
        {
            if x[i] != y[i] {
                assert(x@[i as int] != y@[i as int]);
                assert(a@[c as int]@ != b@[c as int]@);
                return false;
            }
            proof {
                assert(x@.take(i + 1) =~= x@.take(i as int).push(x@[i as int]));
                assert(y@.take(i + 1) =~= y@.take(i as int).push(y@[i as int]));
            }
            i += 1;
        }
        proof {
            assert(x@.take(i as int) =~= x@);
            assert(y@.take(i as int) =~= y@);
        }
        c += 1;
    }
    true
}

/// The middle rows of card `id`'s neighbours over the first `e` hops: in
/// the previous column (`down`) or the next.
pub open spec fn neighbour_rows(
    ys: Seq<Vec<i32>>,
    hs: Seq<Vec<i32>>,
    at: Seq<Option<(usize, usize)>>,
    hops: Seq<(NodeId, NodeId)>,
    id: NodeId,
    down: bool,
    e: int,
) -> Seq<i32>
    decreases e,
{
    if e <= 0 {
        Seq::empty()
    } else {
        let prev = neighbour_rows(ys, hs, at, hops, id, down, e - 1);
        let (from, to) = hops[e - 1];
        let hit = if down { to == id } else { from == id };
        let o = (if down { from } else { to }).0 as int;
        if hit && o < at.len() && at[o] is Some {
            let (c2, k2) = at[o]->0;
            prev.push((ys[c2 as int]@[k2 as int] + hs[c2 as int]@[k2 as int] / 2) as i32)
        } else {
            prev
        }
    }
}

/// `sorted` holds the values of `s`, ascending.
pub open spec fn sorted_of(sorted: Seq<i32>, s: Seq<i32>) -> bool {
    sorted.to_multiset() == s.to_multiset() && ascending(sorted)
}

/// A wanted row as an integer.
pub open spec fn want_int(w: Option<i32>) -> Option<int> {
    match w {
        Some(v) => Some(v as int),
        None => None,
    }
}

/// Row `k` of the column stacked on the wanted rows: each card on its wanted
/// middle row, never above the one before and its gap.
pub open spec fn stack_row(desired: Seq<Option<i32>>, chs: Seq<i32>, cg: Seq<i32>, k: int) -> int
    decreases k,
{
    let floor = if k <= 0 { 0 } else { stack_row(desired, chs, cg, k - 1) + chs[k - 1] + cg[k - 1] };
    match desired[k] {
        Some(w) => {
            let v = w - chs[k] / 2;
            if v > floor { v } else { floor }
        },
        None => floor,
    }
}

/// What the first `k` cards with a wanted row still want once stacked.
pub open spec fn residuals(desired: Seq<Option<i32>>, chs: Seq<i32>, cg: Seq<i32>, k: int) -> Seq<i32>
    decreases k,
{
    if k <= 0 {
        Seq::empty()
    } else {
        let prev = residuals(desired, chs, cg, k - 1);
        match desired[k - 1] {
            Some(w) => prev.push((w - (stack_row(desired, chs, cg, k - 1) + chs[k - 1] / 2)) as i32),
            None => prev,
        }
    }
}

/// `d / 2` rounded toward zero.
pub open spec fn half_toward_zero(d: int) -> int {
    if d >= 0 { d / 2 } else { -((-d) / 2) }
}

/// How far the stacked column moves: the centre of what its cards still
/// want, or, with none wanting any, half the room left below it.
pub open spec fn column_shift_of(desired: Seq<Option<i32>>, chs: Seq<i32>, cg: Seq<i32>, rsorted: Seq<i32>, centre: Centre, height: int) -> int {
    let n = chs.len() as int;
    match centre_spec(rsorted, centre) {
        Some(v) => v,
        None => {
            let bottom = if n > 0 { stack_row(desired, chs, cg, n - 1) + chs[n - 1] } else { 0 };
            half_toward_zero(height - bottom)
        },
    }
}

/// Column `c` of `after` is that of `before` swept with the wanted rows
/// `desired` and the sorted residuals `rsorted`.
pub open spec fn rows_swept(
    before: Seq<Vec<i32>>,
    after: Seq<Vec<i32>>,
    c: int,
    down: bool,
    centre: Centre,
    cards: Seq<Vec<NodeId>>,
    gaps: Seq<Vec<i32>>,
    hs: Seq<Vec<i32>>,
    at: Seq<Option<(usize, usize)>>,
    hops: Seq<(NodeId, NodeId)>,
    height: int,
    desired: Seq<Option<i32>>,
    rsorted: Seq<i32>,
) -> bool {
    let n = cards[c]@.len() as int;
    let chs = hs[c]@;
    let cg = gaps[c]@;
    &&& desired.len() == n
    &&& forall|k: int|
        0 <= k < n ==> exists|sorted: Seq<i32>|
            sorted_of(sorted, neighbour_rows(before, hs, at, hops, cards[c]@[k], down, hops.len() as int)) && centre_spec(sorted, centre)
                == want_int(#[trigger] desired[k])
    &&& sorted_of(rsorted, residuals(desired, chs, cg, n))
    &&& after[c]@.len() == n
    &&& forall|k: int|
        0 <= k < n ==> #[trigger] after[c]@[k] == pressed(
            Seq::new(n as nat, |j: int| (stack_row(desired, chs, cg, j) + column_shift_of(desired, chs, cg, rsorted, centre, height)) as i32),
            cg,
            chs,
            height,
            k,
        )
}

/// One sweep of column `c`: each card on the median row of its neighbours
/// in the previous column (`down`) or the next, stacked in order, the column
/// shifted by the median of what its cards still want, then pressed into
/// `0..height`.
#[verifier::spinoff_prover]
#[verifier::rlimit(60)]
fn sweep_rows(
    ys: &mut Vec<Vec<i32>>,
    c: usize,
    down: bool,
    centre: Centre,
    cards: &Vec<Vec<NodeId>>,
    gaps: &Vec<Vec<i32>>,
    h: &Vec<i32>,
    hs: &Vec<Vec<i32>>,
    at: &Vec<Option<(usize, usize)>>,
    hops: &Vec<(NodeId, NodeId)>,
    height: i32,
)
    requires
        c < cards@.len(),
        shape_ok(cards@, gaps@),
        heights_ok(h@),
        hs@.len() == cards@.len(),
        forall|x: int| 0 <= x < hs@.len() ==> (#[trigger] hs@[x])@ == col_h_spec(h@, cards@[x]@),
        at_ok(at@, cards@),
        tallest_spec(cards@, gaps@, h@) <= height <= MAX_ROWS,
        forall|x: int| 0 <= x < cards@.len() ==> column_height(cards@, gaps@, h@, x) <= height,
        placed(old(ys)@, cards@, gaps@, h@, height as int),
    ensures
        placed(final(ys)@, cards@, gaps@, h@, height as int),
        final(ys)@.len() == old(ys)@.len(),
        forall|x: int| 0 <= x < old(ys)@.len() && x != c ==> #[trigger] final(ys)@[x] == old(ys)@[x],
        exists|desired: Seq<Option<i32>>, rsorted: Seq<i32>|
            #[trigger] rows_swept(old(ys)@, final(ys)@, c as int, down, centre, cards@, gaps@, hs@, at@, hops@, height as int, desired, rsorted),
{
    let col_ids = &cards[c];
    let chs = &hs[c];
    let cg = &gaps[c];
    let n = col_ids.len();
    proof {
        lemma_height_bound(chs@, cg@);
        assert(chs@ == col_h_spec(h@, cards@[c as int]@));
        assert(column_height(cards@, gaps@, h@, c as int) <= height);
        assert(height_spec(chs@, cg@) <= height);
    }
    // The row each card wants: the median of its neighbours' middle rows.
    let mut desired: Vec<Option<i32>> = Vec::new();
    let mut k: usize = 0;
    while k < n
        invariant
            k <= n,
            n == col_ids@.len(),
            c < cards@.len(),
            col_ids == cards@[c as int],
            shape_ok(cards@, gaps@),
            heights_ok(h@),
            hs@.len() == cards@.len(),
            forall|x: int| 0 <= x < hs@.len() ==> (#[trigger] hs@[x])@ == col_h_spec(h@, cards@[x]@),
            at_ok(at@, cards@),
            height <= MAX_ROWS,
            placed(ys@, cards@, gaps@, h@, height as int),
            desired@.len() == k,
            forall|j: int| 0 <= j < k ==> match #[trigger] desired@[j] {
                Some(w) => 0 <= w <= MAX_ROWS,
                None => true,
            },
            ys@ == old(ys)@,
            forall|j: int| 0 <= j < k ==> exists|sorted: Seq<i32>| sorted_of(
                sorted,
                neighbour_rows(old(ys)@, hs@, at@, hops@, cards@[c as int]@[j], down, hops@.len() as int),
            ) && centre_spec(sorted, centre) == want_int(#[trigger] desired@[j]),
        decreases n - k,
    {
        let id = col_ids[k];
        let mut rows: Vec<i32> = Vec::new();
        let mut e: usize = 0;
        while e < hops.len()
            invariant
                e <= hops@.len(),
                shape_ok(cards@, gaps@),
                heights_ok(h@),
                hs@.len() == cards@.len(),
                forall|x: int| 0 <= x < hs@.len() ==> (#[trigger] hs@[x])@ == col_h_spec(h@, cards@[x]@),
                at_ok(at@, cards@),
                height <= MAX_ROWS,
                placed(ys@, cards@, gaps@, h@, height as int),
                within(rows@, 0, MAX_ROWS as int),
                rows@ == neighbour_rows(ys@, hs@, at@, hops@, id, down, e as int),
            decreases hops.len() - e,
        {
            let (from, to) = hops[e];
            let (hit, other) = if down { (to == id, from) } else { (from == id, to) };
            if hit {
                let o = other.0 as usize;
                if o < at.len() {
                    if let Some((c2, k2)) = at[o] {
                        proof {
                            assert(match at@[o as int] {
                                Some(p) => p.0 < cards@.len() && p.1 < cards@[p.0 as int]@.len(),
                                None => true,
                            });
                            assert(stacked(ys@[c2 as int]@, col_h_spec(h@, cards@[c2 as int]@), gaps@[c2 as int]@, height as int));
                            assert(hs@[c2 as int]@ == col_h_spec(h@, cards@[c2 as int]@));
                        }
                        let y = ys[c2][k2];
                        let kh = hs[c2][k2];
                        rows.push(y + kh / 2);
                    }
                }
            }
            e += 1;
        }
        let sorted = sort_rows(&rows);
        let want = centre_of(&sorted, centre);
        let ghost d0 = desired@;
        desired.push(want);
        proof {
            assert(sorted_of(sorted@, rows@));
            assert(centre_spec(sorted@, centre) == want_int(desired@[k as int]));
            assert forall|j: int| 0 <= j < k + 1 implies exists|sorted: Seq<i32>| sorted_of(
                sorted,
                neighbour_rows(old(ys)@, hs@, at@, hops@, cards@[c as int]@[j], down, hops@.len() as int),
            ) && centre_spec(sorted, centre) == want_int(#[trigger] desired@[j]) by {
                if j < k {
                    assert(desired@[j] == d0[j]);
                }
            }
        }
        k += 1;
    }
    let ghost before = ys@;
    let mut col: Vec<i32> = Vec::new();
    let mut bottom: i32 = 0;
    let mut k: usize = 0;
    while k < n
        invariant
            k <= n,
            n == col_ids@.len(),
            n == chs@.len(),
            n <= MAX_COL,
            heights_ok(chs@),
            gaps_fit(n as int, cg@),
            gaps_ok(cg@),
            desired@.len() == n,
            forall|j: int| 0 <= j < n ==> match #[trigger] desired@[j] {
                Some(w) => 0 <= w <= MAX_ROWS,
                None => true,
            },
            col@.len() == k,
            forall|j: int| 0 <= j < k ==> 0 <= #[trigger] col@[j] <= MAX_ROWS + j * (MAX_CARD_H + MAX_GAP_ROWS),
            k == 0 ==> bottom == 0,
            k > 0 ==> bottom == col@[k - 1] + chs@[k - 1],
            forall|j: int| 0 <= j < k ==> #[trigger] col@[j] == stack_row(desired@, chs@, cg@, j),
        decreases n - k,
    {
        proof {
            assert(k * (MAX_CARD_H + MAX_GAP_ROWS) <= MAX_COL * (MAX_CARD_H + MAX_GAP_ROWS)) by (nonlinear_arith)
                requires k <= MAX_COL;
            if k > 0 {
                assert((k - 1) * (MAX_CARD_H + MAX_GAP_ROWS) + (MAX_CARD_H + MAX_GAP_ROWS) == k * (MAX_CARD_H + MAX_GAP_ROWS)) by (nonlinear_arith);
            }
        }
        let floor = if k == 0 { 0 } else { bottom + cg[k - 1] };
        let y = match desired[k] {
            Some(w) => {
                let v = w - chs[k] / 2;
                if v > floor { v } else { floor }
            },
            None => floor,
        };
        col.push(y);
        bottom = y + chs[k];
        k += 1;
    }
    proof {
        assert(n * (MAX_CARD_H + MAX_GAP_ROWS) <= MAX_COL * (MAX_CARD_H + MAX_GAP_ROWS)) by (nonlinear_arith)
            requires n <= MAX_COL;
        if n > 0 {
            assert((n - 1) * (MAX_CARD_H + MAX_GAP_ROWS) <= MAX_COL * (MAX_CARD_H + MAX_GAP_ROWS)) by (nonlinear_arith)
                requires n <= MAX_COL;
        }
    }
    let mut residual: Vec<i32> = Vec::new();
    let mut k: usize = 0;
    while k < n
        invariant
            k <= n,
            n == chs@.len(),
            n <= MAX_COL,
            heights_ok(chs@),
            desired@.len() == n,
            forall|j: int| 0 <= j < n ==> match #[trigger] desired@[j] {
                Some(w) => 0 <= w <= MAX_ROWS,
                None => true,
            },
            col@.len() == n,
            forall|j: int| 0 <= j < n ==> 0 <= #[trigger] col@[j] <= 2 * MAX_ROWS,
            within(residual@, -3 * MAX_ROWS, MAX_ROWS as int),
            0 <= bottom <= 2 * MAX_ROWS + MAX_CARD_H,
            forall|j: int| 0 <= j < n ==> #[trigger] col@[j] == stack_row(desired@, chs@, cg@, j),
            residual@ == residuals(desired@, chs@, cg@, k as int),
            bottom == (if n > 0 { stack_row(desired@, chs@, cg@, n - 1) + chs@[n - 1] } else { 0 }),
        decreases n - k,
    {
        if let Some(w) = desired[k] {
            residual.push(w - (col[k] + chs[k] / 2));
        }
        k += 1;
    }
    let sorted = sort_rows(&residual);
    let shift = match centre_of(&sorted, centre) {
        Some(s) => s,
        None => {
            let d = height - bottom;
            let half = d / 2;
            assert(-3 * MAX_ROWS <= half <= MAX_ROWS);
            half
        },
    };
    let mut k: usize = 0;
    while k < n
        invariant
            k <= n,
            col@.len() == n,
            -3 * MAX_ROWS <= shift <= MAX_ROWS,
            forall|j: int| 0 <= j < k ==> -4 * MAX_ROWS <= #[trigger] col@[j] <= 4 * MAX_ROWS,
            forall|j: int| k <= j < n ==> 0 <= #[trigger] col@[j] <= 2 * MAX_ROWS,
            forall|j: int| 0 <= j < k ==> #[trigger] col@[j] == stack_row(desired@, chs@, cg@, j) + shift,
            forall|j: int| k <= j < n ==> #[trigger] col@[j] == stack_row(desired@, chs@, cg@, j),
        decreases n - k,
    {
        let y = col[k] + shift;
        col.set(k, y);
        k += 1;
    }
    let ghost shifted = col@;
    proof {
        assert(shift == column_shift_of(desired@, chs@, cg@, sorted@, centre, height as int));
        assert(shifted =~= Seq::new(n as nat, |j: int| (stack_row(desired@, chs@, cg@, j) + column_shift_of(desired@, chs@, cg@, sorted@, centre, height as int)) as i32));
    }
    fit(&mut col, cg, chs, height);
    ys.set(c, col);
    proof {
        assert forall|x: int| 0 <= x < ys@.len() implies stacked((#[trigger] ys@[x])@, col_h_spec(h@, cards@[x]@), gaps@[x]@, height as int) by {
            if x != c {
                assert(ys@[x] == before[x]);
            }
        }
    }
    proof {
        assert(chs@ == hs@[c as int]@);
        assert(cg@ == gaps@[c as int]@);
        assert(sorted_of(sorted@, residuals(desired@, chs@, cg@, n as int)));
        assert(rows_swept(old(ys)@, ys@, c as int, down, centre, cards@, gaps@, hs@, at@, hops@, height as int, desired@, sorted@));
    }
}

/// Candidate placements, the plain one first: every column centred on the
/// tallest; then cards placed by their neighbours. A left-to-right sweep
/// puts each card on the median row of its sources in the previous column,
/// a right-to-left sweep on the median of its targets in the next column; a
/// long edge counts as its real endpoint. Every candidate keeps each column
/// stacked in order inside the tallest column's height plus `rise`.
/// Two placements give every card the same row.
pub open spec fn same_rows_spec(a: Seq<Vec<i32>>, b: Seq<Vec<i32>>) -> bool {
    a.len() == b.len() && forall|c: int| 0 <= c < a.len() ==> (#[trigger] a[c])@ == b[c]@
}

/// With `cs` the cards of the columns: `plain` is every column centred on
/// the tallest; every candidate keeps each column stacked within the
/// tallest plus `rise`, and differs from `plain` and from every other one.
pub open spec fn placements_from(
    cs: Seq<Vec<NodeId>>,
    columns: Seq<Vec<LNode>>,
    gaps: Seq<Vec<i32>>,
    heights: Seq<i32>,
    rise: int,
    plain: Seq<Vec<i32>>,
    cands: Seq<Vec<Vec<i32>>>,
) -> bool {
    let t = tallest_spec(cs, gaps, heights);
    &&& cards_view(cs) == cards_spec(columns)
    &&& plain.len() == cs.len()
    &&& forall|c: int, k: int|
        0 <= c < plain.len() && 0 <= k < plain[c]@.len() ==> #[trigger] plain[c]@[k] == (t - column_height(cs, gaps, heights, c)) / 2 + prefix(
            col_h_spec(heights, cs[c]@),
            gaps[c]@,
            k,
        )
    &&& forall|i: int| 0 <= i < cands.len() ==> placed((#[trigger] cands[i])@, cs, gaps, heights, t + rise)
    &&& forall|i: int| 0 <= i < cands.len() ==> !same_rows_spec((#[trigger] cands[i])@, plain)
    &&& forall|i: int, j: int| 0 <= i < j < cands.len() ==> !same_rows_spec((#[trigger] cands[i])@, (#[trigger] cands[j])@)
}

pub fn placements(
    g: &ViewGraph,
    l: &Layered,
    gaps: &Vec<Vec<i32>>,
    heights: &Vec<i32>,
    centres: &Vec<Centre>,
    rise: i32,
) -> (r: (Vec<Vec<i32>>, Vec<Vec<Vec<i32>>>))
    requires
        shape_ok_v(cards_spec(l.columns@), gaps@),
        heights_ok(heights@),
        0 <= rise <= SLOT_RISE,
        forall|s: int| 0 <= s < l.segments@.len() ==> (#[trigger] l.segments@[s]).edge.0 < g.edges@.len(),
    ensures
        rows_fit(r.0@, l.columns@),
        forall|i: int| 0 <= i < r.1@.len() ==> rows_fit((#[trigger] r.1@[i])@, l.columns@),
        exists|cs: Seq<Vec<NodeId>>| #[trigger] placements_from(cs, l.columns@, gaps@, heights@, rise as int, r.0@, r.1@),
{
    let cards = cards(&l.columns);
    proof {
        lemma_cards_exec(l.columns@, cards@, gaps@);
    }
    assert(cards@.len() == l.columns@.len());
    let t = tallest(&cards, gaps, heights);
    let height = t + rise;
    let cols = cards.len();
    let mut hs: Vec<Vec<i32>> = Vec::new();
    let mut c: usize = 0;
    while c < cols
        invariant
            c <= cols,
            cols == cards@.len(),
            heights_ok(heights@),
            hs@.len() == c,
            forall|x: int| 0 <= x < c ==> (#[trigger] hs@[x])@ == col_h_spec(heights@, cards@[x]@),
        decreases cols - c,
    {
        hs.push(col_h(heights, &cards[c]));
        c += 1;
    }
    let at = locate(&cards, g.nodes.len());
    // Forward edges as `(from, to)`; a long edge pulls on its real endpoints.
    let mut hops: Vec<(NodeId, NodeId)> = Vec::new();
    let mut s: usize = 0;
    while s < l.segments.len()
        invariant
            s <= l.segments@.len(),
            forall|x: int| 0 <= x < l.segments@.len() ==> (#[trigger] l.segments@[x]).edge.0 < g.edges@.len(),
        decreases l.segments.len() - s,
    {
        let e = &g.edges[l.segments[s].edge.0 as usize];
        let hop = (e.from, e.to);
        let n = hops.len();
        if n == 0 || hops[n - 1].0 != hop.0 || hops[n - 1].1 != hop.1 {
            hops.push(hop);
        }
        s += 1;
    }
    let plain = centred(&cards, gaps, heights);
    proof {
        assert(placed(plain@, cards@, gaps@, heights@, t as int)) by {
            assert forall|x: int| 0 <= x < plain@.len() implies stacked((#[trigger] plain@[x])@, col_h_spec(heights@, cards@[x]@), gaps@[x]@, t as int) by {
                assert(stacked(plain@[x]@, col_h_spec(heights@, cards@[x]@), gaps@[x]@, t as int));
            }
        }
    }
    let mut out: Vec<Vec<Vec<i32>>> = Vec::new();
    let mut ci: usize = 0;
    while ci < centres.len()
        invariant
            cols == cards@.len(),
            shape_ok(cards@, gaps@),
            heights_ok(heights@),
            hs@.len() == cards@.len(),
            forall|x: int| 0 <= x < hs@.len() ==> (#[trigger] hs@[x])@ == col_h_spec(heights@, cards@[x]@),
            at_ok(at@, cards@),
            t == tallest_spec(cards@, gaps@, heights@),
            0 <= t <= MAX_COL * (MAX_CARD_H + MAX_GAP_ROWS),
            height == t + rise,
            0 <= rise <= SLOT_RISE,
            forall|x: int| 0 <= x < cards@.len() ==> column_height(cards@, gaps@, heights@, x) <= t,
            plain@.len() == cols,
            placed(plain@, cards@, gaps@, heights@, t as int),
            forall|x: int| 0 <= x < cols ==> (#[trigger] cards@[x])@ == cards_of(l.columns@[x]@),
            cols == l.columns@.len(),
            forall|i: int| 0 <= i < out@.len() ==> rows_fit((#[trigger] out@[i])@, l.columns@),
            forall|i: int| 0 <= i < out@.len() ==> placed((#[trigger] out@[i])@, cards@, gaps@, heights@, height as int),
            forall|i: int| 0 <= i < out@.len() ==> !same_rows_spec((#[trigger] out@[i])@, plain@),
            forall|i: int, j: int| 0 <= i < j < out@.len() ==> !same_rows_spec((#[trigger] out@[i])@, (#[trigger] out@[j])@),
        decreases centres.len() - ci,
    {
        let centre = centres[ci];
        let mut ys = copy_rows(&plain);
        proof {
            assert(placed(ys@, cards@, gaps@, heights@, height as int)) by {
                assert forall|x: int| 0 <= x < ys@.len() implies stacked((#[trigger] ys@[x])@, col_h_spec(heights@, cards@[x]@), gaps@[x]@, height as int) by {
                    assert(ys@[x]@ == plain@[x]@);
                    assert(stacked(plain@[x]@, col_h_spec(heights@, cards@[x]@), gaps@[x]@, t as int));
                }
            }
        }
        let mut pass: usize = 0;
        while pass < SWEEPS
            invariant
                cols == cards@.len(),
                shape_ok(cards@, gaps@),
                heights_ok(heights@),
                hs@.len() == cards@.len(),
                forall|x: int| 0 <= x < hs@.len() ==> (#[trigger] hs@[x])@ == col_h_spec(heights@, cards@[x]@),
                at_ok(at@, cards@),
                t == tallest_spec(cards@, gaps@, heights@),
                0 <= t <= MAX_COL * (MAX_CARD_H + MAX_GAP_ROWS),
                height == t + rise,
                0 <= rise <= SLOT_RISE,
                forall|x: int| 0 <= x < cards@.len() ==> column_height(cards@, gaps@, heights@, x) <= t,
                placed(ys@, cards@, gaps@, heights@, height as int),
                plain@.len() == cols,
                forall|x: int| 0 <= x < cols ==> (#[trigger] cards@[x])@ == cards_of(l.columns@[x]@),
                cols == l.columns@.len(),
                forall|i: int| 0 <= i < out@.len() ==> rows_fit((#[trigger] out@[i])@, l.columns@),
                forall|i: int| 0 <= i < out@.len() ==> placed((#[trigger] out@[i])@, cards@, gaps@, heights@, height as int),
                forall|i: int| 0 <= i < out@.len() ==> !same_rows_spec((#[trigger] out@[i])@, plain@),
                forall|i: int, j: int| 0 <= i < j < out@.len() ==> !same_rows_spec((#[trigger] out@[i])@, (#[trigger] out@[j])@),
            decreases SWEEPS - pass,
        {
            if pass % 2 == 0 {
                let mut c: usize = 0;
                while c < cols
                    invariant
                        cols == cards@.len(),
                        shape_ok(cards@, gaps@),
                        heights_ok(heights@),
                        hs@.len() == cards@.len(),
                        forall|x: int| 0 <= x < hs@.len() ==> (#[trigger] hs@[x])@ == col_h_spec(heights@, cards@[x]@),
                        at_ok(at@, cards@),
                        t == tallest_spec(cards@, gaps@, heights@),
                        0 <= t <= MAX_COL * (MAX_CARD_H + MAX_GAP_ROWS),
                        height == t + rise,
                        0 <= rise <= SLOT_RISE,
                        forall|x: int| 0 <= x < cards@.len() ==> column_height(cards@, gaps@, heights@, x) <= t,
                        placed(ys@, cards@, gaps@, heights@, height as int),
                    decreases cols - c,
                {
                    sweep_rows(&mut ys, c, true, centre, &cards, gaps, heights, &hs, &at, &hops, height);
                    c += 1;
                }
            } else {
                let mut c: usize = cols;
                while c > 1
                    invariant
                        c <= cols,
                        cols == cards@.len(),
                        shape_ok(cards@, gaps@),
                        heights_ok(heights@),
                        hs@.len() == cards@.len(),
                        forall|x: int| 0 <= x < hs@.len() ==> (#[trigger] hs@[x])@ == col_h_spec(heights@, cards@[x]@),
                        at_ok(at@, cards@),
                        t == tallest_spec(cards@, gaps@, heights@),
                        0 <= t <= MAX_COL * (MAX_CARD_H + MAX_GAP_ROWS),
                        height == t + rise,
                        0 <= rise <= SLOT_RISE,
                        forall|x: int| 0 <= x < cards@.len() ==> column_height(cards@, gaps@, heights@, x) <= t,
                        placed(ys@, cards@, gaps@, heights@, height as int),
                    decreases c,
                {
                    sweep_rows(&mut ys, c - 2, false, centre, &cards, gaps, heights, &hs, &at, &hops, height);
                    c -= 1;
                }
            }
            let mut seen = same_rows(&ys, &plain);
            let mut i: usize = 0;
            while i < out.len() && !seen
                invariant
                    i <= out@.len(),
                    !seen ==> !same_rows_spec(ys@, plain@) && forall|j: int| 0 <= j < i ==> !same_rows_spec(ys@, #[trigger] out@[j]@),
                decreases out.len() - i,
            {
                if same_rows(&ys, &out[i]) {
                    seen = true;
                }
                i += 1;
            }
            if !seen {
                let copy = copy_rows(&ys);
                proof {
                    lemma_placed_fit(ys@, cards@, gaps@, heights@, height as int, l.columns@);
                    assert forall|x: int| 0 <= x < copy@.len() implies (#[trigger] copy@[x])@ == ys@[x]@ by {}
                    assert(placed(copy@, cards@, gaps@, heights@, height as int)) by {
                        assert forall|x: int| 0 <= x < copy@.len() implies stacked((#[trigger] copy@[x])@, col_h_spec(heights@, cards@[x]@), gaps@[x]@, height as int) by {
                            assert(copy@[x]@ == ys@[x]@);
                        }
                    }
                    assert forall|j: int| 0 <= j < out@.len() implies !same_rows_spec(out@[j]@, copy@) by {
                        if same_rows_spec(out@[j]@, copy@) {
                            assert forall|x: int| 0 <= x < ys@.len() implies (#[trigger] ys@[x])@ == out@[j]@[x]@ by {
                                assert(copy@[x]@ == ys@[x]@);
                            }
                            assert(same_rows_spec(ys@, out@[j]@));
                        }
                    }
                    assert(!same_rows_spec(copy@, plain@)) by {
                        if same_rows_spec(copy@, plain@) {
                            assert forall|x: int| 0 <= x < ys@.len() implies (#[trigger] ys@[x])@ == plain@[x]@ by {
                                assert(copy@[x]@ == ys@[x]@);
                            }
                            assert(same_rows_spec(ys@, plain@));
                        }
                    }
                }
                let ghost o0 = out@;
                out.push(copy);
                proof {
                    assert forall|i: int, j: int| 0 <= i < j < out@.len() implies !same_rows_spec((#[trigger] out@[i])@, (#[trigger] out@[j])@) by {
                        if j == o0.len() {
                            assert(out@[i] == o0[i]);
                        } else {
                            assert(out@[i] == o0[i] && out@[j] == o0[j]);
                        }
                    }
                }
            }
            pass += 1;
        }
        ci += 1;
    }
    proof {
        lemma_placed_fit(plain@, cards@, gaps@, heights@, t as int, l.columns@);
        assert(placements_from(cards@, l.columns@, gaps@, heights@, rise as int, plain@, out@));
    }
    let r = (plain, out);
    assert(placements_from(cards@, l.columns@, gaps@, heights@, rise as int, r.0@, r.1@));
    r
}

pub proof fn lemma_cards_exec_pub(columns: Seq<Vec<LNode>>, out: Seq<Vec<NodeId>>, gaps: Seq<Vec<i32>>)
    requires
        cards_view(out) == cards_spec(columns),
        shape_ok_v(cards_spec(columns), gaps),
    ensures
        out.len() == columns.len(),
        forall|c: int| 0 <= c < out.len() ==> (#[trigger] out[c])@ == cards_of(columns[c]@),
        shape_ok(out, gaps),
{
    lemma_cards_exec(columns, out, gaps);
}

/// Every column centred on the tallest, as rows per column.
pub fn plain_rows(l: &Layered, gaps: &Vec<Vec<i32>>, heights: &Vec<i32>) -> (ys: Vec<Vec<i32>>)
    requires
        shape_ok_v(cards_spec(l.columns@), gaps@),
        heights_ok(heights@),
    ensures
        rows_fit(ys@, l.columns@),
{
    let cards = cards(&l.columns);
    proof {
        lemma_cards_exec(l.columns@, cards@, gaps@);
    }
    let ys = centred(&cards, gaps, heights);
    let t = tallest(&cards, gaps, heights);
    proof {
        lemma_placed_fit(ys@, cards@, gaps@, heights@, t as int, l.columns@);
    }
    ys
}

/// A row per card of every column, each inside the row limit.
pub open spec fn rows_fit(ys: Seq<Vec<i32>>, columns: Seq<Vec<LNode>>) -> bool {
    &&& ys.len() == columns.len()
    &&& forall|c: int| 0 <= c < ys.len() ==> (#[trigger] ys[c])@.len() == cards_of(columns[c]@).len()
    &&& forall|c: int, k: int| 0 <= c < ys.len() && 0 <= k < ys[c]@.len() ==> 0 <= #[trigger] ys[c]@[k] <= MAX_ROWS
}

proof fn lemma_placed_fit(ys: Seq<Vec<i32>>, cards: Seq<Vec<NodeId>>, gaps: Seq<Vec<i32>>, h: Seq<i32>, height: int, columns: Seq<Vec<LNode>>)
    requires
        placed(ys, cards, gaps, h, height),
        height <= MAX_ROWS,
        heights_ok(h),
        cards.len() == columns.len(),
        forall|x: int| 0 <= x < cards.len() ==> (#[trigger] cards[x])@ == cards_of(columns[x]@),
    ensures
        rows_fit(ys, columns),
{
    assert forall|c: int| 0 <= c < ys.len() implies (#[trigger] ys[c])@.len() == cards_of(columns[c]@).len() by {
        assert(stacked(ys[c]@, col_h_spec(h, cards[c]@), gaps[c]@, height));
        assert(cards[c]@ == cards_of(columns[c]@));
    }
    assert forall|c: int, k: int| 0 <= c < ys.len() && 0 <= k < ys[c]@.len() implies 0 <= #[trigger] ys[c]@[k] <= MAX_ROWS by {
        assert(stacked(ys[c]@, col_h_spec(h, cards[c]@), gaps[c]@, height));
        assert(col_h_spec(h, cards[c]@)[k] >= 0);
    }
}

/// `shape_ok` of the cards a column order holds.
pub open spec fn shape_ok_v(cards: Seq<Seq<NodeId>>, gaps: Seq<Vec<i32>>) -> bool {
    &&& cards.len() == gaps.len()
    &&& cards.len() <= MAX_NODES
    &&& forall|c: int| 0 <= c < cards.len() ==> (#[trigger] cards[c]).len() <= MAX_COL
    &&& forall|c: int|
        0 <= c < cards.len() ==> (#[trigger] gaps[c])@.len() == if cards[c].len() == 0 { 0 } else { cards[c].len() - 1 }
    &&& forall|c: int| 0 <= c < gaps.len() ==> gaps_ok((#[trigger] gaps[c])@)
}

proof fn lemma_cards_exec(columns: Seq<Vec<LNode>>, out: Seq<Vec<NodeId>>, gaps: Seq<Vec<i32>>)
    requires
        cards_view(out) == cards_spec(columns),
        shape_ok_v(cards_spec(columns), gaps),
    ensures
        out.len() == columns.len(),
        forall|c: int| 0 <= c < out.len() ==> (#[trigger] out[c])@ == cards_of(columns[c]@),
        shape_ok(out, gaps),
{
    assert(cards_view(out).len() == cards_spec(columns).len());
    assert forall|c: int| 0 <= c < out.len() implies (#[trigger] out[c])@ == cards_of(columns[c]@) by {
        assert(cards_view(out)[c] == cards_spec(columns)[c]);
    }
    assert forall|c: int| 0 <= c < out.len() implies (#[trigger] out[c])@.len() <= MAX_COL by {
        assert(cards_view(out)[c] == cards_spec(columns)[c]);
        assert(cards_spec(columns)[c].len() <= MAX_COL);
    }
    assert forall|c: int| 0 <= c < out.len() implies (#[trigger] gaps[c])@.len() == if out[c]@.len() == 0 { 0 } else { out[c]@.len() - 1 } by {
        assert(cards_view(out)[c] == cards_spec(columns)[c]);
        assert(gaps[c]@.len() == if cards_spec(columns)[c].len() == 0 { 0 } else { cards_spec(columns)[c].len() - 1 });
    }
}

} // verus!
