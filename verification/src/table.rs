//! Content-fitted column widths: each column as wide as its widest cell, the
//! last one taking the rest, and a variant whose growing columns share out
//! the room left over so that the columns span a given width.

use vstd::prelude::*;

use crate::cards::{text_width, text_width_of};

verus! {

/// How wide a table column is drawn: exactly so many cells, or at least so
/// many.
#[derive(Debug, Clone, Copy, PartialEq, Eq, Structural)]
pub enum Column {
    Length(u16),
    Min(u16),
}

impl Column {
    /// The number of cells either variant carries.
    pub open spec fn spec_cells(self) -> u16 {
        match self {
            Column::Length(x) => x,
            Column::Min(x) => x,
        }
    }

    /// The number of cells either variant carries.
    pub fn cells(self) -> (x: u16)
        ensures
            x == self.spec_cells(),
    {
        match self {
            Column::Length(x) => x,
            Column::Min(x) => x,
        }
    }
}

/// The header cells as characters.
pub open spec fn header_view(header: Seq<&str>) -> Seq<Seq<char>> {
    header.map_values(|h: &str| h@)
}

/// The body cells as characters, row by row.
pub open spec fn rows_view(rows: Seq<Vec<String>>) -> Seq<Seq<Seq<char>>> {
    rows.map_values(|r: Vec<String>| r@.map_values(|c: String| c@))
}

/// The widest cell of column `i` over the header and the first `r` rows; a
/// row with fewer cells adds nothing to the columns it lacks.
pub open spec fn widest(header: Seq<Seq<char>>, rows: Seq<Seq<Seq<char>>>, i: int, r: int) -> nat
    decreases r,
{
    if r <= 0 {
        text_width_of(header[i])
    } else {
        let prev = widest(header, rows, i, r - 1);
        let row = rows[r - 1];
        if i < row.len() && text_width_of(row[i]) > prev {
            text_width_of(row[i])
        } else {
            prev
        }
    }
}

/// Column `i`'s width: its widest cell, capped at what a `u16` holds.
pub open spec fn fitted(header: Seq<Seq<char>>, rows: Seq<Seq<Seq<char>>>, i: int) -> u16 {
    let x = widest(header, rows, i, rows.len() as int);
    if x > u16::MAX {
        u16::MAX
    } else {
        x as u16
    }
}

/// One column per header cell, each as wide as its widest cell; the last
/// one is a minimum and takes whatever is left.
pub open spec fn fit_spec(header: Seq<Seq<char>>, rows: Seq<Seq<Seq<char>>>) -> Seq<Column> {
    Seq::new(
        header.len(),
        |i: int|
            if i + 1 == header.len() {
                Column::Min(fitted(header, rows, i))
            } else {
                Column::Length(fitted(header, rows, i))
            },
    )
}

/// The fitted width of every column.
fn widths(header: &[&str], rows: &[Vec<String>]) -> (w: Vec<u16>)
    ensures
        w@.len() == header@.len(),
        forall|i: int|
            0 <= i < w@.len() ==> w@[i] == fitted(header_view(header@), rows_view(rows@), i),
{
    let ghost hv = header_view(header@);
    let ghost rv = rows_view(rows@);
    let n = header.len();
    let mut w: Vec<usize> = Vec::new();
    let mut i: usize = 0;
    while i < n
        invariant
            n == header@.len(),
            hv == header_view(header@),
            i <= n,
            w@.len() == i,
            forall|j: int| 0 <= j < i ==> w@[j] == widest(hv, rv, j, 0),
        decreases n - i,
    {
        let x = text_width(header[i]);
        proof {
            assert(hv[i as int] == header@[i as int]@);
        }
        w.push(x);
        i += 1;
    }
    let mut r: usize = 0;
    while r < rows.len()
        invariant
            n == header@.len(),
            rv == rows_view(rows@),
            r <= rows@.len(),
            w@.len() == n,
            forall|j: int| 0 <= j < n ==> w@[j] == widest(hv, rv, j, r as int),
        decreases rows.len() - r,
    {
        let row = &rows[r];
        proof {
            assert(rv[r as int] == row@.map_values(|c: String| c@));
        }
        let mut c: usize = 0;
        while c < row.len() && c < n
            invariant
                n == header@.len(),
                rv == rows_view(rows@),
                r < rows@.len(),
                *row == rows@[r as int],
                rv[r as int] == row@.map_values(|c: String| c@),
                c <= n,
                c <= row@.len(),
                w@.len() == n,
                forall|j: int| 0 <= j < c ==> w@[j] == widest(hv, rv, j, r + 1),
                forall|j: int| c <= j < n ==> w@[j] == widest(hv, rv, j, r as int),
            decreases n - c,
        {
            let x = text_width(row[c].as_str());
            proof {
                assert(rv[r as int][c as int] == row@[c as int]@);
            }
            if x > w[c] {
                w.set(c, x);
            }
            c += 1;
        }
        proof {
            assert forall|j: int| 0 <= j < n implies w@[j] == widest(hv, rv, j, r + 1) by {
                if j >= c {
                    assert(j >= rv[r as int].len());
                }
            }
        }
        r += 1;
    }
    let mut out: Vec<u16> = Vec::new();
    let mut k: usize = 0;
    while k < n
        invariant
            n == header@.len(),
            hv == header_view(header@),
            rv == rows_view(rows@),
            w@.len() == n,
            forall|j: int| 0 <= j < n ==> w@[j] == widest(hv, rv, j, rows@.len() as int),
            k <= n,
            out@.len() == k,
            forall|j: int| 0 <= j < k ==> out@[j] == fitted(hv, rv, j),
        decreases n - k,
    {
        let x: u16 = if w[k] > u16::MAX as usize { u16::MAX } else { w[k] as u16 };
        out.push(x);
        k += 1;
    }
    out
}

/// `header` and `rows` are the cell texts; one column per header cell, each
/// as wide as its widest cell, the last one as a minimum.
pub fn fit(header: &[&str], rows: &[Vec<String>]) -> (out: Vec<Column>)
    ensures
        out@ == fit_spec(header_view(header@), rows_view(rows@)),
{
    let w = widths(header, rows);
    let n = w.len();
    let mut out: Vec<Column> = Vec::new();
    let mut i: usize = 0;
    while i < n
        invariant
            n == w@.len(),
            n == header@.len(),
            forall|j: int|
                0 <= j < n ==> w@[j] == fitted(header_view(header@), rows_view(rows@), j),
            i <= n,
            out@.len() == i,
            forall|j: int|
                0 <= j < i ==> out@[j] == fit_spec(header_view(header@), rows_view(rows@))[j],
        decreases n - i,
    {
        if i + 1 == n {
            out.push(Column::Min(w[i]));
        } else {
            out.push(Column::Length(w[i]));
        }
        i += 1;
    }
    proof {
        assert(out@ =~= fit_spec(header_view(header@), rows_view(rows@)));
    }
    out
}

/// Every column's fitted width, as integers.
pub open spec fn fitted_all(header: Seq<Seq<char>>, rows: Seq<Seq<Seq<char>>>) -> Seq<int> {
    Seq::new(header.len(), |i: int| fitted(header, rows, i) as int)
}

/// The sum of the first `k` widths.
pub open spec fn total(w: Seq<int>, k: int) -> int
    decreases k,
{
    if k <= 0 {
        0
    } else {
        total(w, k - 1) + w[k - 1]
    }
}

/// The sum of the widths of the growing columns among the first `k` entries
/// of `grow`; an index past the last column counts nothing.
pub open spec fn grown_total(w: Seq<int>, grow: Seq<usize>, k: int) -> int
    decreases k,
{
    if k <= 0 {
        0
    } else {
        grown_total(w, grow, k - 1) + if (grow[k - 1] as int) < w.len() {
            w[grow[k - 1] as int]
        } else {
            0
        }
    }
}

/// The spacings between `n` columns: one fewer than the columns, or none
/// where that count does not fit a `u16`.
pub open spec fn gaps(n: int) -> int {
    let p = if n == 0 {
        0
    } else {
        n - 1
    };
    if p > u16::MAX {
        0
    } else {
        p
    }
}

/// What the columns take before any growing: their widths and the spacing
/// between them.
pub open spec fn used(w: Seq<int>, spacing: int) -> int {
    total(w, w.len() as int) + spacing * gaps(w.len() as int)
}

/// The room left over in `width`, none when the columns already take more.
pub open spec fn leftover(w: Seq<int>, width: int, spacing: int) -> int {
    if width >= used(w, spacing) {
        width - used(w, spacing)
    } else {
        0
    }
}

/// What the growing columns' shares are taken in proportion to: their
/// widths together, and at least one.
pub open spec fn basis(w: Seq<int>, grow: Seq<usize>) -> int {
    let b = grown_total(w, grow, grow.len() as int);
    if b < 1 {
        1
    } else {
        b
    }
}

/// The widths after the first `k` entries of `grow` have taken their share,
/// what has been given out so far, and whether every step stayed within a
/// `u16`. Each growing column but the last takes `leftover * width / basis`
/// of its width at that point; the last takes what remains.
pub open spec fn shared(w: Seq<int>, grow: Seq<usize>, leftover: int, basis: int, k: int) -> (
    Seq<int>,
    int,
    bool,
)
    decreases k,
{
    if k <= 0 {
        (w, 0, true)
    } else {
        let prev = shared(w, grow, leftover, basis, k - 1);
        let cur = prev.0;
        let given = prev.1;
        let i = grow[k - 1] as int;
        if i >= cur.len() {
            prev
        } else {
            let last = k == grow.len();
            let share = if last {
                leftover - given
            } else {
                leftover * cur[i] / basis
            };
            let fine = (last || leftover * cur[i] <= u16::MAX) && 0 <= share && cur[i] + share
                <= u16::MAX && given + share <= u16::MAX;
            (cur.update(i, cur[i] + share), given + share, prev.2 && fine)
        }
    }
}

/// Whether sharing out the room stays within `u16` arithmetic all the way:
/// the widths and spacings added up, the growing columns' widths added up,
/// and every share and every grown width.
pub open spec fn fill_fits(w: Seq<int>, width: int, spacing: int, grow: Seq<usize>) -> bool {
    &&& total(w, w.len() as int) <= u16::MAX
    &&& spacing * gaps(w.len() as int) <= u16::MAX
    &&& used(w, spacing) <= u16::MAX
    &&& grown_total(w, grow, grow.len() as int) <= u16::MAX
    &&& shared(w, grow, leftover(w, width, spacing), basis(w, grow), grow.len() as int).2
}

/// The widths once the growing columns have shared out the room left over.
pub open spec fn filled(w: Seq<int>, width: int, spacing: int, grow: Seq<usize>) -> Seq<int> {
    shared(w, grow, leftover(w, width, spacing), basis(w, grow), grow.len() as int).0
}

/// A partial sum never exceeds a longer one when no width is negative.
proof fn lemma_total_grows(w: Seq<int>, j: int, k: int)
    requires
        0 <= j <= k <= w.len(),
        forall|i: int| 0 <= i < w.len() ==> w[i] >= 0,
    ensures
        total(w, j) <= total(w, k),
    decreases k - j,
{
    if j < k {
        lemma_total_grows(w, j, k - 1);
    }
}

/// The same for the growing columns' widths.
proof fn lemma_grown_total_grows(w: Seq<int>, grow: Seq<usize>, j: int, k: int)
    requires
        0 <= j <= k <= grow.len(),
        forall|i: int| 0 <= i < w.len() ==> w[i] >= 0,
    ensures
        grown_total(w, grow, j) <= grown_total(w, grow, k),
    decreases k - j,
{
    if j < k {
        lemma_grown_total_grows(w, grow, j, k - 1);
    }
}

/// Once a step has left `u16` arithmetic, the sharing as a whole has.
proof fn lemma_shared_stays_failed(w: Seq<int>, grow: Seq<usize>, leftover: int, basis: int, j: int, k: int)
    requires
        0 <= j <= k <= grow.len(),
        !shared(w, grow, leftover, basis, j).2,
    ensures
        !shared(w, grow, leftover, basis, k).2,
    decreases k - j,
{
    if j < k {
        lemma_shared_stays_failed(w, grow, leftover, basis, j, k - 1);
    }
}

/// The widths shared out, or `None` where the sharing would leave `u16`
/// arithmetic.
fn checked_fill(w: &Vec<u16>, width: u16, spacing: u16, grow: &[usize]) -> (r: Option<Vec<u16>>)
    ensures
        r is Some <==> fill_fits(w@.map_values(|x: u16| x as int), width as int, spacing as int, grow@),
        r is Some ==> r->0@.map_values(|x: u16| x as int) == filled(
            w@.map_values(|x: u16| x as int),
            width as int,
            spacing as int,
            grow@,
        ),
{
    let ghost ws = w@.map_values(|x: u16| x as int);
    let n = w.len();
    let mut sum: u32 = 0;
    let mut j: usize = 0;
    while j < n
        invariant
            n == w@.len(),
            ws == w@.map_values(|x: u16| x as int),
            j <= n,
            sum == total(ws, j as int),
            sum <= u16::MAX,
        decreases n - j,
    {
        let s = sum + w[j] as u32;
        if s > u16::MAX as u32 {
            proof {
                lemma_total_grows(ws, j + 1, n as int);
            }
            return None;
        }
        sum = s;
        j += 1;
    }
    let pairs: usize = if n == 0 { 0 } else { n - 1 };
    let pairs: u32 = if pairs > u16::MAX as usize { 0 } else { pairs as u32 };
    assert(spacing as u32 * pairs <= 0xffff * 0xffff) by (nonlinear_arith)
        requires
            spacing <= 0xffff,
            pairs <= 0xffff,
    ;
    let apart: u32 = spacing as u32 * pairs;
    if apart > u16::MAX as u32 {
        return None;
    }
    let taken: u32 = sum + apart;
    if taken > u16::MAX as u32 {
        return None;
    }
    let room: u32 = if width as u32 >= taken { width as u32 - taken } else { 0 };
    let mut b: u32 = 0;
    let mut k: usize = 0;
    while k < grow.len()
        invariant
            n == w@.len(),
            ws == w@.map_values(|x: u16| x as int),
            k <= grow@.len(),
            b == grown_total(ws, grow@, k as int),
            b <= u16::MAX,
        decreases grow.len() - k,
    {
        let i = grow[k];
        if i < n {
            let s = b + w[i] as u32;
            if s > u16::MAX as u32 {
                proof {
                    lemma_grown_total_grows(ws, grow@, k + 1, grow@.len() as int);
                }
                return None;
            }
            b = s;
        }
        k += 1;
    }
    let base: u32 = if b < 1 { 1 } else { b };
    let ghost lo = leftover(ws, width as int, spacing as int);
    let ghost bs = basis(ws, grow@);
    assert(room == lo);
    assert(base == bs);
    let mut cur: Vec<u16> = w.clone();
    let mut given: u32 = 0;
    let mut k: usize = 0;
    while k < grow.len()
        invariant
            n == w@.len(),
            cur@.len() == n,
            ws == w@.map_values(|x: u16| x as int),
            lo == leftover(ws, width as int, spacing as int),
            bs == basis(ws, grow@),
            room == lo,
            room <= u16::MAX,
            base == bs,
            base >= 1,
            k <= grow@.len(),
            cur@.map_values(|x: u16| x as int) == shared(ws, grow@, lo, bs, k as int).0,
            given == shared(ws, grow@, lo, bs, k as int).1,
            given <= u16::MAX,
            shared(ws, grow@, lo, bs, k as int).2,
        decreases grow.len() - k,
    {
        let i = grow[k];
        let ghost prev = shared(ws, grow@, lo, bs, k as int);
        if i < n {
            let col: u32 = cur[i] as u32;
            proof {
                assert(prev.0[i as int] == col);
            }
            let share: u32;
            if k + 1 == grow.len() {
                if given > room {
                    proof {
                        lemma_shared_stays_failed(ws, grow@, lo, bs, k + 1, grow@.len() as int);
                    }
                    return None;
                }
                share = room - given;
            } else {
                assert(room * col <= 0xffff * 0xffff) by (nonlinear_arith)
                    requires
                        room <= 0xffff,
                        col <= 0xffff,
                ;
                let prod: u32 = room * col;
                if prod > u16::MAX as u32 {
                    proof {
                        lemma_shared_stays_failed(ws, grow@, lo, bs, k + 1, grow@.len() as int);
                    }
                    return None;
                }
                share = prod / base;
            }
            if col + share > u16::MAX as u32 || given + share > u16::MAX as u32 {
                proof {
                    lemma_shared_stays_failed(ws, grow@, lo, bs, k + 1, grow@.len() as int);
                }
                return None;
            }
            cur.set(i, (col + share) as u16);
            given = given + share;
            proof {
                assert(cur@.map_values(|x: u16| x as int) =~= prev.0.update(i as int, prev.0[i as int] + share));
            }
        }
        k += 1;
    }
    proof {
        assert(ws.len() == n);
    }
    Some(cur)
}

/// Whether `fill` stays within `u16` arithmetic for these cells.
pub open spec fn fill_ok(
    header: Seq<Seq<char>>,
    rows: Seq<Seq<Seq<char>>>,
    width: int,
    spacing: int,
    grow: Seq<usize>,
) -> bool {
    fill_fits(fitted_all(header, rows), width, spacing, grow)
}

/// The columns `fill` gives: every fitted width grown by its share, each as
/// an exact length.
pub open spec fn fill_spec(
    header: Seq<Seq<char>>,
    rows: Seq<Seq<Seq<char>>>,
    width: int,
    spacing: int,
    grow: Seq<usize>,
) -> Seq<Column> {
    let f = filled(fitted_all(header, rows), width, spacing, grow);
    Seq::new(f.len(), |i: int| Column::Length(f[i] as u16))
}

/// The cells each column carries.
fn cells_of(cols: &Vec<Column>) -> (w: Vec<u16>)
    ensures
        w@.len() == cols@.len(),
        forall|i: int| 0 <= i < w@.len() ==> w@[i] == cols@[i].spec_cells(),
{
    let mut w: Vec<u16> = Vec::new();
    let mut i: usize = 0;
    while i < cols.len()
        invariant
            i <= cols@.len(),
            w@.len() == i,
            forall|j: int| 0 <= j < i ==> w@[j] == cols@[j].spec_cells(),
        decreases cols.len() - i,
    {
        w.push(cols[i].cells());
        i += 1;
    }
    w
}

/// The fitted widths, as `fit` gives them.
fn fitted_cells(header: &[&str], rows: &[Vec<String>]) -> (w: Vec<u16>)
    ensures
        w@.map_values(|x: u16| x as int) == fitted_all(header_view(header@), rows_view(rows@)),
{
    let cols = fit(header, rows);
    let w = cells_of(&cols);
    proof {
        assert(w@.map_values(|x: u16| x as int) =~= fitted_all(header_view(header@), rows_view(rows@)));
    }
    w
}

/// Content-fitted widths that together span `width`: the columns in `grow`
/// share whatever is left over, in proportion to their fitted widths, the
/// last of them taking what the others leave.
pub fn fill(header: &[&str], rows: &[Vec<String>], width: u16, spacing: u16, grow: &[usize]) -> (out:
    Vec<Column>)
    requires
        fill_ok(header_view(header@), rows_view(rows@), width as int, spacing as int, grow@),
    ensures
        out@ == fill_spec(header_view(header@), rows_view(rows@), width as int, spacing as int, grow@),
{
    let w = fitted_cells(header, rows);
    let grown = checked_fill(&w, width, spacing, grow).unwrap();
    let mut out: Vec<Column> = Vec::new();
    let mut i: usize = 0;
    while i < grown.len()
        invariant
            grown@.map_values(|x: u16| x as int) == filled(
                fitted_all(header_view(header@), rows_view(rows@)),
                width as int,
                spacing as int,
                grow@,
            ),
            i <= grown@.len(),
            out@.len() == i,
            forall|j: int| 0 <= j < i ==> out@[j] == Column::Length(grown@[j]),
        decreases grown.len() - i,
    {
        out.push(Column::Length(grown[i]));
        i += 1;
    }
    proof {
        let f = filled(fitted_all(header_view(header@), rows_view(rows@)), width as int, spacing as int, grow@);
        assert forall|j: int| 0 <= j < f.len() implies f[j] as u16 == grown@[j] by {
            assert(f[j] == grown@.map_values(|x: u16| x as int)[j]);
        }
        assert(out@ =~= fill_spec(header_view(header@), rows_view(rows@), width as int, spacing as int, grow@));
    }
    out
}

/// `fill` where it stays within `u16` arithmetic, `None` elsewhere.
pub fn try_fill(header: &[&str], rows: &[Vec<String>], width: u16, spacing: u16, grow: &[usize]) -> (r:
    Option<Vec<Column>>)
    ensures
        r is Some <==> fill_ok(header_view(header@), rows_view(rows@), width as int, spacing as int, grow@),
        r is Some ==> r->0@ == fill_spec(
            header_view(header@),
            rows_view(rows@),
            width as int,
            spacing as int,
            grow@,
        ),
{
    let w = fitted_cells(header, rows);
    if checked_fill(&w, width, spacing, grow).is_some() {
        Some(fill(header, rows, width, spacing, grow))
    } else {
        None
    }
}

/// Growing one width by `d` grows the total by `d`.
proof fn lemma_total_update(w: Seq<int>, i: int, d: int, k: int)
    requires
        0 <= i < w.len(),
        0 <= k <= w.len(),
    ensures
        total(w.update(i, w[i] + d), k) == total(w, k) + if i < k {
            d
        } else {
            0
        },
    decreases k,
{
    if k > 0 {
        lemma_total_update(w, i, d, k - 1);
    }
}

/// While the sharing stays within bounds it keeps the number of columns,
/// never shrinks a column, and grows the total by exactly what it has given.
proof fn lemma_shared_keeps(w: Seq<int>, grow: Seq<usize>, leftover: int, basis: int, k: int)
    requires
        0 <= k <= grow.len(),
        shared(w, grow, leftover, basis, k).2,
        forall|j: int| 0 <= j < w.len() ==> 0 <= #[trigger] w[j] <= u16::MAX,
    ensures
        shared(w, grow, leftover, basis, k).0.len() == w.len(),
        forall|j: int|
            0 <= j < w.len() ==> #[trigger] shared(w, grow, leftover, basis, k).0[j] <= u16::MAX,
        total(shared(w, grow, leftover, basis, k).0, w.len() as int) == total(w, w.len() as int)
            + shared(w, grow, leftover, basis, k).1,
        forall|j: int|
            0 <= j < w.len() ==> #[trigger] shared(w, grow, leftover, basis, k).0[j] >= w[j],
    decreases k,
{
    if k > 0 {
        lemma_shared_keeps(w, grow, leftover, basis, k - 1);
        let prev = shared(w, grow, leftover, basis, k - 1);
        let i = grow[k - 1] as int;
        if i < prev.0.len() {
            let cur = shared(w, grow, leftover, basis, k);
            let share = cur.1 - prev.1;
            assert(cur.0 == prev.0.update(i, prev.0[i] + share));
            lemma_total_update(prev.0, i, share, w.len() as int);
        }
    }
}

/// With no room left over nothing is shared out.
proof fn lemma_nothing_to_share(w: Seq<int>, grow: Seq<usize>, basis: int, k: int)
    requires
        0 <= k <= grow.len(),
        basis >= 1,
    ensures
        shared(w, grow, 0, basis, k).0 == w,
        shared(w, grow, 0, basis, k).1 == 0,
    decreases k,
{
    if k > 0 {
        lemma_nothing_to_share(w, grow, basis, k - 1);
        let i = grow[k - 1] as int;
        if i < w.len() {
            assert(0 * w[i] / basis == 0) by (nonlinear_arith)
                requires
                    basis >= 1,
            ;
            assert(w.update(i, w[i] + 0) =~= w);
        }
    }
}

/// The columns `fill` gives span the width: where the last growing column
/// exists and the fitted columns leave room, the columns and the spacing
/// between them add up to exactly `width`, and no column is narrower than
/// its fitted width.
pub proof fn lemma_fill_spans_width(
    header: Seq<Seq<char>>,
    rows: Seq<Seq<Seq<char>>>,
    width: u16,
    spacing: u16,
    grow: Seq<usize>,
)
    requires
        fill_ok(header, rows, width as int, spacing as int, grow),
        grow.len() > 0,
        (grow.last() as int) < header.len(),
        used(fitted_all(header, rows), spacing as int) <= width,
    ensures
        ({
            let out = fill_spec(header, rows, width as int, spacing as int, grow);
            &&& out.len() == header.len()
            &&& total(out.map_values(|c: Column| c.spec_cells() as int), header.len() as int)
                + spacing * gaps(header.len() as int) == width
            &&& forall|i: int|
                0 <= i < header.len() ==> (#[trigger] out[i]).spec_cells() >= fitted(header, rows, i)
        }),
{
    let w = fitted_all(header, rows);
    let lo = leftover(w, width as int, spacing as int);
    let b = basis(w, grow);
    let n = grow.len() as int;
    lemma_shared_keeps(w, grow, lo, b, n);
    lemma_shared_keeps(w, grow, lo, b, n - 1);
    let f = filled(w, width as int, spacing as int, grow);
    let out = fill_spec(header, rows, width as int, spacing as int, grow);
    assert(shared(w, grow, lo, b, n).1 == lo);
    assert(out.map_values(|c: Column| c.spec_cells() as int) =~= f);
    assert forall|i: int| 0 <= i < header.len() implies (#[trigger] out[i]).spec_cells() >= fitted(header, rows, i) by {
        assert(f[i] >= w[i]);
    }
}

/// Where the fitted columns already take the whole width, `fill` gives them
/// back as they are.
pub proof fn lemma_fill_without_room(
    header: Seq<Seq<char>>,
    rows: Seq<Seq<Seq<char>>>,
    width: u16,
    spacing: u16,
    grow: Seq<usize>,
)
    requires
        used(fitted_all(header, rows), spacing as int) >= width,
    ensures
        fill_spec(header, rows, width as int, spacing as int, grow) == Seq::new(
            header.len(),
            |i: int| Column::Length(fitted(header, rows, i)),
        ),
{
    let w = fitted_all(header, rows);
    lemma_nothing_to_share(w, grow, basis(w, grow), grow.len() as int);
    assert(fill_spec(header, rows, width as int, spacing as int, grow) =~= Seq::new(
        header.len(),
        |i: int| Column::Length(fitted(header, rows, i)),
    ));
}

} // verus!
