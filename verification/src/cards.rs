//! What the card view is drawn with: where a drawing is scrolled to, the
//! palette, which box the keys move, and how a card's tag badges wrap.

use vstd::prelude::*;

use core::ops::Range;

use crate::layout::label_of;
use crate::style::Palette;
use crate::text::chars_of;
use crate::view::{ViewGraph, join, push_number, right, signed};

verus! {

/// Where a drawing bigger than its box is scrolled to.
#[derive(Debug, Clone, Copy, PartialEq, Eq, Structural)]
pub struct Scroll {
    /// Leftmost visible card column.
    pub column: usize,
    /// Topmost visible row, in cells.
    pub row: i32,
}

impl Default for Scroll {
    fn default() -> (s: Self)
        ensures
            s.column == 0,
            s.row == 0,
    {
        Scroll { column: 0, row: 0 }
    }
}

/// How the card view is drawn right now: where it is scrolled to, in what
/// colours, and how far through the animation anything that moves is.
#[derive(Debug, Clone, Copy)]
pub struct Paint {
    pub scroll: Scroll,
    pub palette: Palette,
    /// Frame counter; a ticker moves on it.
    pub spin: usize,
}

impl Default for Paint {
    fn default() -> (p: Self)
        ensures
            p.scroll == (Scroll { column: 0, row: 0 }),
            p.palette@ == (true, crate::style::CrossingStyle::Bridge),
            p.spin == 0,
    {
        Paint { scroll: Scroll::default(), palette: Palette::default(), spin: 0 }
    }
}

/// Which box of the detail panel the arrow keys move.
#[derive(Debug, Clone, Copy, PartialEq, Eq, Structural)]
pub enum Focus {
    Flow,
    Edges,
}

impl Default for Focus {
    fn default() -> (f: Self)
        ensures
            f == Focus::Flow,
    {
        Focus::Flow
    }
}

/// Rows of badges of the given widths, filled greedily into lines `width`
/// wide with one blank between badges, over the first `i` badges: the rows
/// closed so far, the first badge of the open row and the width it uses.
pub open spec fn rows_fold(ws: Seq<nat>, width: nat, i: int) -> (Seq<(nat, nat)>, nat, nat)
    decreases i,
{
    if i <= 0 {
        (Seq::empty(), 0, 0)
    } else {
        let (rows, start, used) = rows_fold(ws, width, i - 1);
        let w = ws[i - 1];
        let gap: nat = if used > 0 { 1 } else { 0 };
        if used > 0 && used + gap + w > width {
            (rows.push((start, (i - 1) as nat)), (i - 1) as nat, w)
        } else {
            (rows, start, used + gap + w)
        }
    }
}

/// The rows the badges of these widths take: none for no badges or no room,
/// else the closed rows and the last one.
pub open spec fn badge_rows_spec(ws: Seq<nat>, width: nat) -> Seq<(nat, nat)> {
    if ws.len() == 0 || width == 0 {
        Seq::empty()
    } else {
        let (rows, start, _) = rows_fold(ws, width, ws.len() as int);
        rows.push((start, ws.len()))
    }
}

/// The width of each label, in characters.
pub open spec fn label_widths(labels: Seq<String>) -> Seq<nat> {
    labels.map_values(|s: String| s@.len())
}

/// The badges of one card, split into the rows they take at `width`. Whole
/// badges only: a tag is never broken across two lines. The painter draws
/// these rows and the card is given a text line per row, so a card is as tall
/// as its tags.
pub fn badge_rows(labels: &[String], width: usize) -> (rows: Vec<Range<usize>>)
    ensures
        rows@.len() == badge_rows_spec(label_widths(labels@), width as nat).len(),
        forall|k: int|
            0 <= k < rows@.len() ==> (#[trigger] rows@[k]).start == badge_rows_spec(label_widths(labels@), width as nat)[k].0
                && rows@[k].end == badge_rows_spec(label_widths(labels@), width as nat)[k].1,
{
    let ghost ws = label_widths(labels@);
    let mut rows: Vec<Range<usize>> = Vec::new();
    if labels.len() == 0 || width == 0 {
        return rows;
    }
    let mut start: usize = 0;
    let mut used: usize = 0;
    let mut i: usize = 0;
    while i < labels.len()
        invariant
            i <= labels@.len(),
            ws == label_widths(labels@),
            rows@.len() == rows_fold(ws, width as nat, i as int).0.len(),
            forall|k: int|
                0 <= k < rows@.len() ==> (#[trigger] rows@[k]).start == rows_fold(ws, width as nat, i as int).0[k].0
                    && rows@[k].end == rows_fold(ws, width as nat, i as int).0[k].1,
            start == rows_fold(ws, width as nat, i as int).1,
            used == rows_fold(ws, width as nat, i as int).2,
        decreases labels.len() - i,
    {
        let w = chars_of(labels[i].as_str()).len();
        proof {
            assert(ws[i as int] == w);
        }
        let gap: usize = if used > 0 { 1 } else { 0 };
        if used > 0 && used as u128 + gap as u128 + w as u128 > width as u128 {
            rows.push(start..i);
            start = i;
            used = w;
        } else {
            used = used + gap + w;
        }
        i += 1;
    }
    rows.push(start..labels.len());
    rows
}

/// The width badges `a..b` take on one line, one blank between two badges
/// that are not both empty so far.
pub open spec fn row_span(ws: Seq<nat>, a: int, b: int) -> nat
    decreases b - a,
{
    if b <= a {
        0
    } else {
        let u = row_span(ws, a, b - 1);
        u + (if u > 0 { 1nat } else { 0nat }) + ws[b - 1]
    }
}

/// What the greedy fill keeps true over the first `i` badges: the closed
/// rows follow each other from badge 0 to the open row, none is empty, and
/// every closed row of two or more badges fits the width (when no badge is
/// empty).
pub open spec fn fold_ok(ws: Seq<nat>, width: nat, i: int) -> bool {
    let (rows, start, used) = rows_fold(ws, width, i);
    &&& start <= i
    &&& used == row_span(ws, start as int, i)
    &&& (forall|j: int| 0 <= j < ws.len() ==> ws[j] > 0) ==> (i - start >= 2 ==> used <= width)
    &&& rows.len() == 0 ==> start == 0
    &&& rows.len() > 0 ==> rows[0].0 == 0 && rows.last().1 == start
    &&& forall|k: int| 0 <= k < rows.len() - 1 ==> (#[trigger] rows[k]).1 == rows[k + 1].0
    &&& forall|k: int| 0 <= k < rows.len() ==> (#[trigger] rows[k]).0 < rows[k].1
    &&& (forall|j: int| 0 <= j < ws.len() ==> ws[j] > 0) ==> forall|k: int|
        0 <= k < rows.len() && (#[trigger] rows[k]).1 - rows[k].0 >= 2 ==> row_span(ws, rows[k].0 as int, rows[k].1 as int)
            <= width
}

proof fn lemma_fold_ok(ws: Seq<nat>, width: nat, i: int)
    requires
        0 <= i <= ws.len(),
    ensures
        fold_ok(ws, width, i),
    decreases i,
{
    if i > 0 {
        lemma_fold_ok(ws, width, i - 1);
        let (rows, start, used) = rows_fold(ws, width, i - 1);
        let (rows2, start2, used2) = rows_fold(ws, width, i);
        assert(row_span(ws, i - 1, i - 1) == 0);
        if used > 0 {
            assert(start < i - 1 || row_span(ws, start as int, i - 1) == 0);
        }
        assert(row_span(ws, start as int, i) == used + (if used > 0 { 1nat } else { 0nat }) + ws[i - 1]);
        assert(row_span(ws, i - 1, i) == ws[i - 1]);
        if rows2.len() > rows.len() {
            assert(rows2 == rows.push((start, (i - 1) as nat)));
            assert(start < i - 1);
            assert forall|k: int| 0 <= k < rows2.len() - 1 implies (#[trigger] rows2[k]).1 == rows2[k + 1].0 by {
                if k < rows.len() - 1 {
                    assert(rows2[k] == rows[k] && rows2[k + 1] == rows[k + 1]);
                }
            }
            assert forall|k: int| 0 <= k < rows2.len() implies (#[trigger] rows2[k]).0 < rows2[k].1 by {
                if k < rows.len() {
                    assert(rows2[k] == rows[k]);
                }
            }
            if forall|j: int| 0 <= j < ws.len() ==> ws[j] > 0 {
                assert forall|k: int|
                    0 <= k < rows2.len() && (#[trigger] rows2[k]).1 - rows2[k].0 >= 2 implies row_span(
                    ws,
                    rows2[k].0 as int,
                    rows2[k].1 as int,
                ) <= width by {
                    if k < rows.len() {
                        assert(rows2[k] == rows[k]);
                    }
                }
            }
        } else {
            assert(rows2 == rows);
            if forall|j: int| 0 <= j < ws.len() ==> ws[j] > 0 {
                if i - start >= 2 {
                    assert(ws[i - 2] > 0);
                    assert(row_span(ws, start as int, i - 1) >= ws[i - 2]);
                }
            }
        }
    }
}

/// The badge rows cover the badges in order: the first starts at badge 0,
/// each starts where the one before ends, the last ends after the last
/// badge, and none is empty.
pub proof fn lemma_badge_rows_cover(ws: Seq<nat>, width: nat)
    requires
        ws.len() > 0,
        width > 0,
    ensures
        ({
            let rows = badge_rows_spec(ws, width);
            &&& rows.len() > 0
            &&& rows[0].0 == 0
            &&& rows.last().1 == ws.len()
            &&& forall|k: int| 0 <= k < rows.len() - 1 ==> (#[trigger] rows[k]).1 == rows[k + 1].0
            &&& forall|k: int| 0 <= k < rows.len() ==> (#[trigger] rows[k]).0 < rows[k].1
        }),
{
    let n = ws.len() as int;
    lemma_fold_ok(ws, width, n);
    let (rows, start, used) = rows_fold(ws, width, n);
    let out = badge_rows_spec(ws, width);
    assert(out == rows.push((start, ws.len())));
    if start == n {
        assert(row_span(ws, n, n) == 0);
        assert(false) by {
            lemma_fold_start_below(ws, width, n);
        }
    }
    assert forall|k: int| 0 <= k < out.len() - 1 implies (#[trigger] out[k]).1 == out[k + 1].0 by {
        if k < rows.len() - 1 {
            assert(out[k] == rows[k] && out[k + 1] == rows[k + 1]);
        } else {
            assert(out[k] == rows[k]);
        }
    }
    assert forall|k: int| 0 <= k < out.len() implies (#[trigger] out[k]).0 < out[k].1 by {
        if k < rows.len() {
            assert(out[k] == rows[k]);
        }
    }
}

/// After at least one badge the open row holds one.
proof fn lemma_fold_start_below(ws: Seq<nat>, width: nat, i: int)
    requires
        0 < i <= ws.len(),
    ensures
        rows_fold(ws, width, i).1 < i,
    decreases i,
{
    if i > 1 {
        lemma_fold_start_below(ws, width, i - 1);
    }
    let prev = rows_fold(ws, width, i - 1);
    assert(prev.1 <= i - 1);
    assert(rows_fold(ws, width, i).1 == prev.1 || rows_fold(ws, width, i).1 == i - 1);
}

/// A row of two or more badges fits the width, when no badge is empty.
pub proof fn lemma_badge_rows_fit(ws: Seq<nat>, width: nat)
    requires
        forall|j: int| 0 <= j < ws.len() ==> ws[j] > 0,
    ensures
        ({
            let rows = badge_rows_spec(ws, width);
            forall|k: int|
                0 <= k < rows.len() && (#[trigger] rows[k]).1 - rows[k].0 >= 2 ==> row_span(ws, rows[k].0 as int, rows[k].1 as int)
                    <= width
        }),
{
    if ws.len() > 0 && width > 0 {
        let n = ws.len() as int;
        lemma_fold_ok(ws, width, n);
        let (rows, start, used) = rows_fold(ws, width, n);
        let out = badge_rows_spec(ws, width);
        assert(out == rows.push((start, ws.len())));
        assert forall|k: int|
            0 <= k < out.len() && (#[trigger] out[k]).1 - out[k].0 >= 2 implies row_span(ws, out[k].0 as int, out[k].1 as int)
            <= width by {
            if k < rows.len() {
                assert(out[k] == rows[k]);
            }
        }
    }
}

/// Borders, name row, numbers row, badge row: odd, so edges meet a middle row.
pub const CARD_HEIGHT: u16 = 5;

/// Fits `999.9/s pend 999` inside the borders.
pub const MIN_CARD: u16 = 17;

/// Fits `999.9/s  pending 9999`.
pub const FULL_CARD: u16 = 24;

/// However long the tags, a card stops growing here and wraps them instead.
pub const WIDEST_CARD: u16 = 34;

/// Columns between two card columns.
pub const GAP: u16 = 5;

/// The columns a string takes on a terminal, as `UnicodeWidthStr::width`
/// counts them.
pub uninterp spec fn text_width_of(s: Seq<char>) -> nat;

/// `UnicodeWidthStr::width` of unicode-width: the string's displayed width
/// in columns, ambiguous characters counted as one. A function of the text
/// alone; its value is not stated here.
#[verifier::external_body]
pub(crate) fn text_width(s: &str) -> (w: usize)
    ensures
        w == text_width_of(s@),
{
    unicode_width::UnicodeWidthStr::width(s)
}

/// The card width for a widest content of `want` columns: between
/// `FULL_CARD` and `WIDEST_CARD`; narrower, down to `MIN_CARD`, when that
/// many columns of cards would not fit in `width`; past that the panel
/// scrolls instead of squeezing further.
pub open spec fn card_width_spec(want: int, ranks: int, width: int) -> int {
    let want = if want > u16::MAX { u16::MAX as int } else { want };
    let want = if want < FULL_CARD { FULL_CARD as int } else if want > WIDEST_CARD { WIDEST_CARD as int } else { want };
    let n = if ranks == 0 || ranks > u16::MAX { 1 } else { ranks };
    let room = if width < GAP * (n - 1) { 0 } else { width - GAP * (n - 1) };
    let fits = room / n;
    if fits >= want { want } else if fits > MIN_CARD { fits } else { MIN_CARD as int }
}

/// The card width for contents `want` columns wide, `ranks` columns of cards
/// and `width` columns of room.
pub fn pick_card_width(want: usize, ranks: usize, width: u16) -> (w: u16)
    requires
        ranks <= 13108 || ranks > u16::MAX,
    ensures
        w == card_width_spec(want as int, ranks as int, width as int),
{
    let capped: u16 = if want > u16::MAX as usize { u16::MAX } else { want as u16 };
    let want = if capped < FULL_CARD { FULL_CARD } else if capped > WIDEST_CARD { WIDEST_CARD } else { capped };
    let n: u16 = if ranks == 0 || ranks > u16::MAX as usize { 1 } else { ranks as u16 };
    let used = GAP * (n - 1);
    let room = if width < used { 0 } else { width - used };
    let fits = room / n;
    if fits >= want { want } else if fits > MIN_CARD { fits } else { MIN_CARD }
}

/// The labels of the tag combinations arriving at node `v` over the first
/// `i` edges: each edge's tags joined by `, `, each label once, in arrival
/// order.
pub open spec fn labels_at(g: ViewGraph, v: int, i: int) -> Seq<Seq<char>>
    decreases i,
{
    if i <= 0 {
        Seq::empty()
    } else {
        let prev = labels_at(g, v, i - 1);
        let e = g.edges@[i - 1];
        if e.to.0 == v && e.tags@.len() > 0 && !prev.contains(label_of(e)) {
            prev.push(label_of(e))
        } else {
            prev
        }
    }
}

/// The width one node's card wants: its label with its kind and borders, or
/// its tag badges side by side with borders, whichever is wider.
pub open spec fn node_width(g: ViewGraph, v: int) -> int {
    let n = g.nodes@[v];
    let label = text_width_of(n.label@) + n.kind.word().len() + 6;
    let ls = labels_at(g, v, g.edges@.len() as int);
    let tags = if ls.len() > 0 { text_width_of(join(ls, " "@)) + 2 } else { 0 };
    if label > tags { label as int } else { tags as int }
}

/// The widest card content of the first `k` nodes.
pub open spec fn content_width_upto(g: ViewGraph, k: int) -> int
    decreases k,
{
    if k <= 0 {
        0
    } else {
        let rest = content_width_upto(g, k - 1);
        let here = node_width(g, k - 1);
        if here > rest { here } else { rest }
    }
}

/// The widest card content of a view graph.
pub open spec fn content_width(g: ViewGraph) -> int {
    content_width_upto(g, g.nodes@.len() as int)
}

/// Where the content widths stop counting: past it every card is as wide
/// as it gets.
pub const WANT_CAP: usize = 100000;

fn node_labels(g: &ViewGraph, v: usize) -> (out: Vec<Vec<char>>)
    ensures
        out@.map_values(|x: Vec<char>| x@) == labels_at(*g, v as int, g.edges@.len() as int),
{
    let sep = chars_of(", ");
    let mut out: Vec<Vec<char>> = Vec::new();
    let mut i: usize = 0;
    while i < g.edges.len()
        invariant
            i <= g.edges@.len(),
            sep@ == ", "@,
            out@.map_values(|x: Vec<char>| x@) == labels_at(*g, v as int, i as int),
        decreases g.edges.len() - i,
    {
        let e = &g.edges[i];
        let ghost prev = labels_at(*g, v as int, i as int);
        if e.to.0 as usize == v && e.tags.len() > 0 {
            let ts = crate::view::strings_chars(&e.tags);
            let label = crate::view::join_chars(&ts, &sep);
            proof {
                assert(label@ == label_of(*e));
            }
            let mut found = false;
            let mut k: usize = 0;
            while k < out.len()
                invariant
                    k <= out@.len(),
                    out@.map_values(|x: Vec<char>| x@) == prev,
                    found <==> exists|j: int| 0 <= j < k && (#[trigger] prev[j]) == label@,
                decreases out.len() - k,
            {
                proof {
                    assert(prev[k as int] == out@[k as int]@);
                }
                if crate::text::same(&out[k], &label) {
                    found = true;
                }
                k += 1;
            }
            proof {
                if prev.contains(label@) {
                    let j = choose|j: int| 0 <= j < prev.len() && prev[j] == label@;
                    assert(prev[j] == label@);
                }
            }
            if !found {
                out.push(label);
                proof {
                    assert(out@.map_values(|x: Vec<char>| x@) =~= prev.push(label_of(*e)));
                }
            }
        }
        i += 1;
    }
    out
}

/// Card width for a view graph: the widest of the label rows and the tag
/// rows its cards carry, fitted to `ranks` columns of cards in `width`.
pub fn card_width(g: &ViewGraph, ranks: usize, width: u16) -> (w: u16)
    requires
        ranks <= 13108 || ranks > u16::MAX,
    ensures
        w == card_width_spec(content_width(*g), ranks as int, width as int),
{
    let mut want: usize = 0;
    let mut v: usize = 0;
    while v < g.nodes.len()
        invariant
            v <= g.nodes@.len(),
            want == if content_width_upto(*g, v as int) > WANT_CAP { WANT_CAP as int } else { content_width_upto(*g, v as int) },
        decreases g.nodes.len() - v,
    {
        let n = &g.nodes[v];
        let label = text_width(n.label.as_str());
        let word = n.kind.as_str();
        let lw: usize = if label > WANT_CAP { WANT_CAP } else { label };
        let lw = lw + word.unicode_len() + 6;
        proof {
            assert(word@.len() <= 6);
        }
        let labels = node_labels(g, v);
        let tw: usize = if labels.len() > 0 {
            let joined = crate::view::join_chars(&labels, &chars_of(" "));
            let text = crate::text::string_of(&joined);
            let t = text_width(text.as_str());
            if t > WANT_CAP { WANT_CAP } else { t + 2 }
        } else {
            0
        };
        let here = if lw > tw { lw } else { tw };
        let here = if here > WANT_CAP { WANT_CAP } else { here };
        if here > want {
            want = here;
        }
        v += 1;
    }
    pick_card_width(want, ranks, width)
}

/// The last column whose right edge fits in `width` when column `first` is
/// at the left edge, and at least `first`.
pub open spec fn last_visible_spec(col_x: Seq<i32>, card_w: int, first: int, width: int) -> int
    decreases col_x.len(),
{
    let x0 = if 0 <= first < col_x.len() { col_x[first] as int } else { 0 };
    last_fitting(col_x, x0, card_w, width, first, col_x.len() as int)
}

/// Among the first `k` columns, the last whose right edge fits, or `first`.
pub open spec fn last_fitting(col_x: Seq<i32>, x0: int, card_w: int, width: int, first: int, k: int) -> int
    decreases k,
{
    if k <= 0 {
        first
    } else if col_x[k - 1] - x0 + card_w <= width {
        if k - 1 > first { k - 1 } else { first }
    } else {
        last_fitting(col_x, x0, card_w, width, first, k - 1)
    }
}

/// The last column whose right edge fits in `width` when column `first` is
/// at the left edge, and at least `first`.
pub fn last_visible(col_x: &Vec<i32>, card_w: u16, first: usize, width: u16) -> (k: usize)
    ensures
        k == last_visible_spec(col_x@, card_w as int, first as int, width as int),
{
    let x0: i64 = if first < col_x.len() { col_x[first] as i64 } else { 0 };
    let mut k: usize = col_x.len();
    while k > 0
        invariant
            k <= col_x@.len(),
            x0 == if (first as int) < col_x@.len() { col_x@[first as int] as int } else { 0 },
            last_visible_spec(col_x@, card_w as int, first as int, width as int) == last_fitting(
                col_x@,
                x0 as int,
                card_w as int,
                width as int,
                first as int,
                k as int,
            ),
        decreases k,
    {
        if col_x[k - 1] as i64 - x0 + card_w as i64 <= width as i64 {
            return if k - 1 > first { k - 1 } else { first };
        }
        k -= 1;
    }
    first
}

/// A count as a card writes it: `-` when there is none.
pub open spec fn count_text(v: Option<i64>) -> Seq<char> {
    match v {
        Some(n) => signed(n as int),
        None => "-"@,
    }
}

/// A count as a card writes it: `-` when there is none.
pub fn fmt_i64(v: Option<i64>) -> (s: String)
    ensures
        s@ == count_text(v),
{
    let mut s = String::new();
    match v {
        Some(n) => {
            push_number(&mut s, n as i128, 0);
            proof {
                assert(right(signed(n as int), 0) == signed(n as int));
                assert(s@ =~= count_text(v));
            }
        },
        None => crate::text::push_str(&mut s, "-"),
    }
    s
}

} // verus!
