//! What the detail panel does with the keys and the mouse: which vertex is
//! selected, which box has the focus, where each box is scrolled to, and the
//! line between the flow and the edge table. Drawing and loading are left
//! to the caller, which reports what it drew and what it loaded.

use vstd::prelude::*;

use crate::cards::{Focus, last_visible, last_visible_spec};
use crate::style::Palette;

verus! {

/// Rows a page of the flow scrolls by.
pub const SCROLL_ROWS: i32 = 5;

/// A key as the panel reads it.
#[derive(Debug, Clone, Copy, PartialEq, Eq, Structural)]
pub enum Key {
    /// `q`.
    Quit,
    /// Escape, `h` or backspace.
    Back,
    /// Tab: the next vertex.
    Next,
    /// Shift-tab: the previous vertex.
    Prev,
    /// `j` or the down arrow.
    Down,
    /// `k` or the up arrow.
    Up,
    PageDown,
    PageUp,
    Left,
    Right,
    /// `+` or `=`: a row more for the edge table.
    Grow,
    /// `-`: a row less.
    Shrink,
    /// `x`: shard groups drawn collapsed or expanded.
    Shards,
    /// `r`: load again.
    Reload,
    /// `l`: the pipeline's logs.
    Logs,
    /// Enter: the selected vertex's logs.
    Open,
    Other,
}

/// What the mouse did.
#[derive(Debug, Clone, Copy, PartialEq, Eq, Structural)]
pub enum Mouse {
    LeftDown,
    LeftDrag,
    LeftUp,
    ScrollDown,
    ScrollUp,
    Other,
}

/// A rectangle of cells.
#[derive(Debug, Clone, Copy, PartialEq, Eq, Structural)]
pub struct Rect {
    pub x: u16,
    pub y: u16,
    pub width: u16,
    pub height: u16,
}

pub open spec fn sat_u16(v: int) -> int {
    if v > u16::MAX { u16::MAX as int } else { v }
}

impl Rect {
    /// The column past the right edge, stopping at the largest.
    pub fn right(self) -> (r: u16)
        ensures
            r == sat_u16(self.x + self.width),
    {
        if self.x as u32 + self.width as u32 > u16::MAX as u32 { u16::MAX } else { self.x + self.width }
    }

    /// The row past the bottom edge, stopping at the largest.
    pub fn bottom(self) -> (r: u16)
        ensures
            r == sat_u16(self.y + self.height),
    {
        if self.y as u32 + self.height as u32 > u16::MAX as u32 { u16::MAX } else { self.y + self.height }
    }

    pub open spec fn holds(self, column: u16, row: u16) -> bool {
        column >= self.x && column < sat_u16(self.x + self.width) && row >= self.y && row < sat_u16(self.y + self.height)
    }

    /// Whether the cell is inside.
    pub fn contains(self, column: u16, row: u16) -> (b: bool)
        ensures
            b == self.holds(column, row),
    {
        column >= self.x && column < self.right() && row >= self.y && row < self.bottom()
    }
}

/// What the panel is asked to handle.
#[derive(Debug, Clone, Copy, PartialEq, Eq, Structural)]
pub enum Input {
    /// The periodic refresh.
    Tick,
    /// A frame drawn: the spinner moves on.
    Frame,
    Key(Key),
    /// The mouse at a column and row.
    Mouse(Mouse, u16, u16),
}

/// Where the app goes next.
#[derive(Debug, Clone, Copy, PartialEq, Eq, Structural)]
pub enum Action {
    Quit,
    Back,
    /// The logs of the pipeline, or of the vertex at this index.
    OpenLogs(Option<usize>),
}

/// What one input asks of the app: where to go, and whether to load the
/// pipeline again.
#[derive(Debug, Clone, Copy, PartialEq, Eq, Structural)]
pub struct Outcome {
    pub action: Option<Action>,
    pub reload: bool,
}

/// The panel's state, without what it shows.
#[derive(Debug, Clone, Copy, PartialEq, Eq, Structural)]
pub struct DetailState {
    /// Vertices of the pipeline loaded, none before it is.
    pub vertices: usize,
    /// Card columns of its drawing.
    pub columns: usize,
    pub selected: usize,
    pub expand_shards: bool,
    /// Leftmost visible card column.
    pub scroll: usize,
    /// Topmost visible row of the drawing.
    pub vscroll: u16,
    /// Scroll so the selected card is visible on the next draw.
    pub follow: bool,
    /// Rows the edge table is given beyond what it would take by itself.
    pub split: i16,
    /// The box the arrows move.
    pub focus: Focus,
    /// Topmost visible row of the edge table.
    pub rows: usize,
    /// What that was clamped to when last drawn.
    pub rows_at: usize,
    /// Where the flow and the edge table were drawn last.
    pub flow: Rect,
    pub edges: Rect,
    /// The line between the boxes is being dragged.
    pub dragging: bool,
    /// Frame of the spinner.
    pub spin: usize,
    /// What the edges are coloured with.
    pub palette: Palette,
    /// Show how long the last load took, under the header.
    pub timings: bool,
}

pub open spec fn sat_i16(v: int) -> int {
    if v > i16::MAX { i16::MAX as int } else if v < i16::MIN { i16::MIN as int } else { v }
}

/// The box scrolled by `delta` rows: the flow from its stored row, kept in
/// `u16` and no longer following the selection; the table from where it
/// stopped when last drawn, never above the top.
pub open spec fn scrolled(s: DetailState, delta: int) -> DetailState {
    match s.focus {
        Focus::Flow => DetailState {
            vscroll: (if s.vscroll + delta < 0 { 0 } else { sat_u16(s.vscroll + delta) }) as u16,
            follow: false,
            ..s
        },
        Focus::Edges => {
            let from = if s.rows_at > i64::MAX { 0 } else { s.rows_at as int };
            DetailState { rows: (if from + delta < 0 || from + delta > usize::MAX { 0 } else { from + delta }) as usize, ..s }
        },
    }
}

/// The selection moved by `delta` vertices, kept on a vertex, and followed.
pub open spec fn moved(s: DetailState, delta: int) -> DetailState {
    if s.vertices == 0 {
        s
    } else {
        let next = if s.selected + delta < 0 { 0 } else if s.selected + delta > usize::MAX { usize::MAX as int } else {
            s.selected + delta
        };
        DetailState { selected: (if next > s.vertices - 1 { s.vertices - 1 } else { next }) as usize, follow: true, ..s }
    }
}

/// A click focuses the box it landed in, and starts a drag of the line
/// between them when it lands below the top of the flow and in neither box;
/// a drag moves the line to the mouse, a row at a time; the wheel scrolls.
pub open spec fn moused(s: DetailState, m: Mouse, column: u16, row: u16) -> DetailState {
    let in_flow = s.flow.holds(column, row);
    let in_edges = s.edges.holds(column, row);
    match m {
        Mouse::LeftDown => DetailState {
            focus: if in_flow { Focus::Flow } else if in_edges { Focus::Edges } else { s.focus },
            dragging: !in_flow && !in_edges && row > s.flow.y,
            ..s
        },
        Mouse::LeftDrag => if s.dragging {
            DetailState { split: sat_i16(s.split + (sat_u16(s.flow.y + s.flow.height) - row)) as i16, ..s }
        } else {
            s
        },
        Mouse::LeftUp => DetailState { dragging: false, ..s },
        Mouse::ScrollDown => scrolled(s, 1),
        Mouse::ScrollUp => scrolled(s, -1),
        Mouse::Other => s,
    }
}

/// The state after one input, and what it asks of the app.
pub open spec fn step_spec(s: DetailState, input: Input) -> (DetailState, Outcome) {
    let none = Outcome { action: None, reload: false };
    match input {
        Input::Tick => (s, Outcome { action: None, reload: true }),
        Input::Frame => (DetailState { spin: (if s.spin == usize::MAX { 0 } else { s.spin + 1 }) as usize, ..s }, none),
        Input::Mouse(m, c, r) => (moused(s, m, c, r), none),
        Input::Key(k) => match k {
            Key::Quit => (s, Outcome { action: Some(Action::Quit), reload: false }),
            Key::Back => (s, Outcome { action: Some(Action::Back), reload: false }),
            Key::Next => (moved(s, 1), none),
            Key::Prev => (moved(s, -1), none),
            Key::Down => (scrolled(s, 1), none),
            Key::Up => (scrolled(s, -1), none),
            Key::PageDown => (scrolled(s, SCROLL_ROWS as int), none),
            Key::PageUp => (scrolled(s, -SCROLL_ROWS), none),
            Key::Left => if s.focus == Focus::Flow {
                (DetailState { scroll: (if s.scroll == 0 { 0 } else { s.scroll - 1 }) as usize, follow: false, ..s }, none)
            } else {
                (s, none)
            },
            Key::Right => if s.focus == Focus::Flow {
                let last = if s.columns == 0 { 0 } else { s.columns - 1 };
                (DetailState { scroll: (if s.scroll + 1 < last { s.scroll + 1 } else { last }) as usize, follow: false, ..s }, none)
            } else {
                (s, none)
            },
            Key::Grow => (DetailState { split: sat_i16(s.split + 1) as i16, ..s }, none),
            Key::Shrink => (DetailState { split: sat_i16(s.split - 1) as i16, ..s }, none),
            Key::Shards => (DetailState { expand_shards: !s.expand_shards, ..s }, none),
            Key::Reload => (s, Outcome { action: None, reload: true }),
            Key::Logs => (s, Outcome { action: Some(Action::OpenLogs(None)), reload: false }),
            Key::Open => (
                s,
                Outcome {
                    action: Some(Action::OpenLogs(if s.selected < s.vertices { Some(s.selected) } else { None })),
                    reload: false,
                },
            ),
            Key::Other => (s, none),
        },
    }
}

/// The edge table never shrinks below its border and a row of edges.
pub const MIN_TABLE: u16 = 4;

/// Nor the flow below its border and one card.
pub const MIN_FLOW: u16 = 7;

/// The smaller of two integers.
pub open spec fn least(a: int, b: int) -> int {
    if a < b {
        a
    } else {
        b
    }
}

/// The larger of two integers.
pub open spec fn most(a: int, b: int) -> int {
    if a > b {
        a
    } else {
        b
    }
}

/// `a - b`, or nothing when `b` is the larger.
pub open spec fn less_or_none(a: int, b: int) -> int {
    if a >= b {
        a - b
    } else {
        0
    }
}

/// A `w` by `h` box in the middle of `area`, or as much of it as fits.
pub open spec fn centre_spec(area: Rect, w: u16, h: u16) -> Rect {
    let w = least(w as int, area.width as int);
    let h = least(h as int, area.height as int);
    Rect {
        x: (area.x + (area.width - w) / 2) as u16,
        y: (area.y + (area.height - h) / 2) as u16,
        width: w as u16,
        height: h as u16,
    }
}

/// A `w` by `h` box in the middle of `area`, or as much of it as fits: a
/// panel smaller than the terminal floats in the middle rather than sitting
/// in a corner with the rest of the screen empty beside it.
pub fn centre(area: Rect, w: u16, h: u16) -> (r: Rect)
    requires
        area.x + (area.width - least(w as int, area.width as int)) / 2 <= u16::MAX,
        area.y + (area.height - least(h as int, area.height as int)) / 2 <= u16::MAX,
    ensures
        r == centre_spec(area, w, h),
        area.x <= r.x,
        r.x + r.width <= area.x + area.width,
        area.y <= r.y,
        r.y + r.height <= area.y + area.height,
        0 <= (area.x + area.width - (r.x + r.width)) - (r.x - area.x) <= 1,
        0 <= (area.y + area.height - (r.y + r.height)) - (r.y - area.y) <= 1,
{
    let w = if w < area.width { w } else { area.width };
    let h = if h < area.height { h } else { area.height };
    Rect { x: area.x + (area.width - w) / 2, y: area.y + (area.height - h) / 2, width: w, height: h }
}

/// Rows the edge table wants: a row an edge, a header and its own border,
/// and never fewer than six.
pub open spec fn table_rows_spec(edges: int) -> int {
    let e = if edges > u16::MAX {
        u16::MAX as int
    } else {
        edges
    };
    most(sat_u16(e + 3), 6)
}

/// Rows the edge table wants for `edges` edges.
pub fn table_rows(edges: usize) -> (r: u16)
    ensures
        r == table_rows_spec(edges as int),
{
    let e: u16 = if edges > u16::MAX as usize { u16::MAX } else { edges as u16 };
    let r: u16 = if e > u16::MAX - 3 { u16::MAX } else { e + 3 };
    if r > 6 { r } else { 6 }
}

/// The rows a header takes: one, or two where the load timings are shown.
pub open spec fn head_rows(timings: bool) -> int {
    if timings {
        2
    } else {
        1
    }
}

/// The warnings as the panel counts their rows: none when there are more
/// than a `u16` holds.
pub open spec fn warning_rows(warnings: int) -> int {
    if warnings > u16::MAX {
        0
    } else {
        warnings
    }
}

/// The rows the edge table is given in a panel `inner_height` rows tall: the
/// flow asks for the whole drawing and the table for a row an edge, neither
/// below its floor; what is left when both fit goes to the table, and the
/// dragged line moves `split` rows between them.
pub open spec fn table_height_spec(
    inner_height: int,
    warnings: int,
    timings: bool,
    cards_h: int,
    edges: int,
    split: int,
) -> int {
    let spare = less_or_none(inner_height, warning_rows(warnings) + head_rows(timings));
    let wants = sat_u16(cards_h + 2);
    let t = most(less_or_none(spare, most(wants, MIN_FLOW as int)), MIN_TABLE as int);
    let t = least(t, most(table_rows_spec(edges), MIN_TABLE as int));
    let t = if t + split < 0 {
        0
    } else {
        sat_u16(t + split)
    };
    let lo = least(MIN_TABLE as int, spare);
    let hi = most(less_or_none(spare, MIN_FLOW as int), MIN_TABLE as int);
    if t < lo {
        lo
    } else if t > hi {
        hi
    } else {
        t
    }
}

/// The rows the edge table is given; the flow has the rest below the
/// header and above the warnings.
pub fn table_height(
    inner_height: u16,
    warnings: usize,
    timings: bool,
    cards_h: u16,
    edges: usize,
    split: i16,
) -> (r: u16)
    requires
        warning_rows(warnings as int) + head_rows(timings) <= u16::MAX,
    ensures
        r == table_height_spec(
            inner_height as int,
            warnings as int,
            timings,
            cards_h as int,
            edges as int,
            split as int,
        ),
        least(
            MIN_TABLE as int,
            less_or_none(inner_height as int, warning_rows(warnings as int) + head_rows(timings)),
        ) <= r <= most(
            less_or_none(
                less_or_none(inner_height as int, warning_rows(warnings as int) + head_rows(timings)),
                MIN_FLOW as int,
            ),
            MIN_TABLE as int,
        ),
{
    let warn: u16 = if warnings > u16::MAX as usize { 0 } else { warnings as u16 };
    let head: u16 = if timings { 2 } else { 1 };
    let spare: u16 = if inner_height >= warn + head { inner_height - (warn + head) } else { 0 };
    let wants: u16 = if cards_h > u16::MAX - 2 { u16::MAX } else { cards_h + 2 };
    let floor: u16 = if wants > MIN_FLOW { wants } else { MIN_FLOW };
    let t: u16 = if spare >= floor { spare - floor } else { 0 };
    let t: u16 = if t > MIN_TABLE { t } else { MIN_TABLE };
    let rows = table_rows(edges);
    let cap: u16 = if rows > MIN_TABLE { rows } else { MIN_TABLE };
    let t: u16 = if t < cap { t } else { cap };
    let moved: i32 = t as i32 + split as i32;
    let t: u16 = if moved < 0 { 0 } else if moved > u16::MAX as i32 { u16::MAX } else { moved as u16 };
    let lo: u16 = if MIN_TABLE < spare { MIN_TABLE } else { spare };
    let room: u16 = if spare >= MIN_FLOW { spare - MIN_FLOW } else { 0 };
    let hi: u16 = if room > MIN_TABLE { room } else { MIN_TABLE };
    if t < lo { lo } else if t > hi { hi } else { t }
}

/// Rows the panel needs to show everything, from the drawing's height once
/// a pipeline is loaded: the border, the header, the flow box round the
/// drawing, the edge table and the warnings, and at least twice the table.
/// Before anything is loaded, five.
pub open spec fn height_for_spec(cards_h: Option<u16>, edges: int, warnings: int, timings: bool) -> int {
    match cards_h {
        None => 5,
        Some(h) => {
            let table = table_rows_spec(edges);
            let inner = sat_u16(
                sat_u16(
                    sat_u16(sat_u16((if timings { 1int } else { 0int }) + 1) + sat_u16(h + 2)) + table,
                ) + warning_rows(warnings),
            );
            sat_u16(most(inner, sat_u16(table * 2)) + 2)
        },
    }
}

/// Rows the panel needs at the width its drawing was laid out for, given
/// the drawing's height, or `None` before a pipeline is loaded.
pub fn height_for(cards_h: Option<u16>, edges: usize, warnings: usize, timings: bool) -> (r: u16)
    ensures
        r == height_for_spec(cards_h, edges as int, warnings as int, timings),
{
    match cards_h {
        None => 5,
        Some(h) => {
            let table = table_rows(edges);
            let warn: u16 = if warnings > u16::MAX as usize { 0 } else { warnings as u16 };
            let t: u16 = if timings { 1 } else { 0 };
            let inner: u32 = t as u32 + 1;
            let flow: u32 = if h as u32 + 2 > u16::MAX as u32 { u16::MAX as u32 } else { h as u32 + 2 };
            let inner: u32 = inner + flow;
            let inner: u32 = if inner > u16::MAX as u32 { u16::MAX as u32 } else { inner };
            let inner: u32 = inner + table as u32;
            let inner: u32 = if inner > u16::MAX as u32 { u16::MAX as u32 } else { inner };
            let inner: u32 = inner + warn as u32;
            let inner: u32 = if inner > u16::MAX as u32 { u16::MAX as u32 } else { inner };
            let twice: u32 = table as u32 * 2;
            let twice: u32 = if twice > u16::MAX as u32 { u16::MAX as u32 } else { twice };
            let inner: u32 = if inner > twice { inner } else { twice };
            let total: u32 = inner + 2;
            if total > u16::MAX as u32 { u16::MAX } else { total as u16 }
        },
    }
}

/// From column `s`, the first whose view reaches column `col`, stepping one
/// column at a time and stopping at `col` itself.
pub open spec fn advance(col_x: Seq<i32>, card_w: int, width: int, s: int, col: int) -> int
    decreases col - s,
{
    if s >= col || last_visible_spec(col_x, card_w, s, width) >= col {
        s
    } else {
        advance(col_x, card_w, width, s + 1, col)
    }
}

/// The column to draw from: the stored one, kept on a column, and pulled so
/// the selected card's column is in view while following the selection.
pub open spec fn scroll_for_spec(
    s: DetailState,
    col_x: Seq<i32>,
    card_w: int,
    selected_column: Option<usize>,
    width: int,
) -> int {
    let start = least(s.scroll as int, less_or_none(col_x.len() as int, 1));
    match selected_column {
        Some(col) if s.follow => advance(col_x, card_w, width, least(start, col as int), col as int),
        _ => start,
    }
}

/// The row to draw the flow from: the stored one, kept inside a drawing
/// `height` rows tall shown in `room` rows, and pulled so the selected card,
/// at row `y` and `h` rows tall, is in view while following the selection.
pub open spec fn vscroll_for_spec(s: DetailState, height: int, room: int, card: Option<(i32, i32)>) -> int {
    let over = less_or_none(height, room);
    let top = least(s.vscroll as int, over);
    let top = match card {
        Some(c) if s.follow => {
            let y = clip_u16(c.0 as int);
            let h = clip_u16(c.1 as int);
            most(least(top, y), less_or_none(y + h, room))
        },
        _ => top,
    };
    least(top, over)
}

/// A coordinate as the panel reads it into a `u16`: a negative one as zero,
/// and one too large for a `u16` as zero too.
pub open spec fn clip_u16(v: int) -> int {
    if v < 0 || v > u16::MAX {
        0
    } else {
        v
    }
}

impl DetailState {
    /// The column to draw from, stored for the next draw: the stored one
    /// pulled so `selected_column`, the column of the selected card, is in
    /// view in `width` columns while following the selection.
    pub fn scroll_for(
        &mut self,
        col_x: &Vec<i32>,
        card_w: u16,
        selected_column: Option<usize>,
        width: u16,
    ) -> (r: usize)
        ensures
            r == scroll_for_spec(*old(self), col_x@, card_w as int, selected_column, width as int),
            *final(self) == (DetailState { scroll: r, ..*old(self) }),
    {
        let cols = col_x.len();
        let last: usize = if cols == 0 { 0 } else { cols - 1 };
        let mut scroll: usize = if self.scroll < last { self.scroll } else { last };
        if self.follow {
            if let Some(col) = selected_column {
                if col < scroll {
                    scroll = col;
                }
                while scroll < col && last_visible(col_x, card_w, scroll, width) < col
                    invariant
                        scroll <= col,
                        advance(col_x@, card_w as int, width as int, scroll as int, col as int)
                            == scroll_for_spec(*old(self), col_x@, card_w as int, selected_column, width as int),
                    decreases col - scroll,
                {
                    scroll += 1;
                }
            }
        }
        self.scroll = scroll;
        scroll
    }

    /// The row to draw the flow from, stored for the next draw; see
    /// `vscroll_for_spec`.
    pub fn vscroll_for(&mut self, height: u16, room: u16, card: Option<(i32, i32)>) -> (r: u16)
        requires
            match card {
                Some(c) => old(self).follow ==> clip_u16(c.0 as int) + clip_u16(c.1 as int) <= u16::MAX,
                None => true,
            },
        ensures
            r == vscroll_for_spec(*old(self), height as int, room as int, card),
            *final(self) == (DetailState { vscroll: r, ..*old(self) }),
    {
        let over: u16 = if height >= room { height - room } else { 0 };
        let mut top: u16 = if self.vscroll < over { self.vscroll } else { over };
        if self.follow {
            if let Some(c) = card {
                let y: u16 = if c.0 < 0 || c.0 > u16::MAX as i32 { 0 } else { c.0 as u16 };
                let h: u16 = if c.1 < 0 || c.1 > u16::MAX as i32 { 0 } else { c.1 as u16 };
                let below: u16 = if y + h >= room { y + h - room } else { 0 };
                let t: u16 = if top < y { top } else { y };
                top = if t > below { t } else { below };
            }
        }
        let top: u16 = if top < over { top } else { over };
        self.vscroll = top;
        top
    }

    /// The first edge table row to draw, kept on an edge, and stored as
    /// where scrolling the table continues from.
    pub fn table_top(&mut self, edges: usize) -> (r: usize)
        ensures
            r == least(old(self).rows as int, less_or_none(edges as int, 1)),
            *final(self) == (DetailState { rows_at: r, ..*old(self) }),
    {
        let last: usize = if edges == 0 { 0 } else { edges - 1 };
        let r = if self.rows < last { self.rows } else { last };
        self.rows_at = r;
        r
    }

    /// Nothing loaded, the flow focused, nothing scrolled.
    pub fn new() -> (s: Self)
        ensures
            s.vertices == 0 && s.columns == 0 && s.selected == 0 && !s.expand_shards && s.scroll == 0,
            s.vscroll == 0 && !s.follow && s.split == 0 && s.focus == Focus::Flow && s.rows == 0 && s.rows_at == 0,
            !s.dragging && s.spin == 0,
            s.palette@ == (true, crate::style::CrossingStyle::Bridge),
            !s.timings,
    {
        let zero = Rect { x: 0, y: 0, width: 0, height: 0 };
        DetailState {
            vertices: 0,
            columns: 0,
            selected: 0,
            expand_shards: false,
            scroll: 0,
            vscroll: 0,
            follow: false,
            split: 0,
            focus: Focus::Flow,
            rows: 0,
            rows_at: 0,
            flow: zero,
            edges: zero,
            dragging: false,
            spin: 0,
            palette: Palette::default(),
            timings: false,
        }
    }

    /// The same state, its edges coloured with `palette`.
    pub fn with_palette(self, palette: Palette) -> (s: Self)
        ensures
            s == (DetailState { palette, ..self }),
    {
        DetailState { palette, ..self }
    }

    /// The same state, showing how long the last load took when `on`.
    pub fn with_timings(self, on: bool) -> (s: Self)
        ensures
            s == (DetailState { timings: on, ..self }),
    {
        DetailState { timings: on, ..self }
    }

    /// The selected vertex, while one is loaded.
    pub fn selected_vertex(&self) -> (r: Option<usize>)
        ensures
            r == if self.selected < self.vertices {
                Some(self.selected)
            } else {
                None::<usize>
            },
    {
        if self.selected < self.vertices { Some(self.selected) } else { None }
    }

    fn scroll_by(&mut self, delta: i32)
        ensures
            *final(self) == scrolled(*old(self), delta as int),
    {
        match self.focus {
            Focus::Flow => {
                let at = self.vscroll as i64 + delta as i64;
                let v: u16 = if at < 0 { 0 } else if at > u16::MAX as i64 { u16::MAX } else { at as u16 };
                self.vscroll = v;
                self.follow = false;
            },
            Focus::Edges => {
                // From where it actually stopped, so holding a key at the end
                // does not build up a number it has to unwind.
                let from: i128 = if self.rows_at as u128 > i64::MAX as u128 { 0 } else { self.rows_at as i128 };
                let at = from + delta as i128;
                self.rows = if at < 0 || at > usize::MAX as i128 { 0 } else { at as usize };
            },
        }
    }

    fn move_by(&mut self, delta: i32)
        ensures
            *final(self) == moved(*old(self), delta as int),
    {
        let n = self.vertices;
        if n == 0 {
            return;
        }
        let next: usize = if delta < 0 {
            let back = (-(delta as i64)) as usize;
            if self.selected < back { 0 } else { self.selected - back }
        } else {
            let on = delta as usize;
            if self.selected > usize::MAX - on { usize::MAX } else { self.selected + on }
        };
        self.selected = if next > n - 1 { n - 1 } else { next };
        self.follow = true;
    }

    fn mouse(&mut self, m: Mouse, column: u16, row: u16)
        ensures
            *final(self) == moused(*old(self), m, column, row),
    {
        let in_flow = self.flow.contains(column, row);
        let in_edges = self.edges.contains(column, row);
        match m {
            Mouse::LeftDown => {
                if in_flow {
                    self.focus = Focus::Flow;
                } else if in_edges {
                    self.focus = Focus::Edges;
                }
                self.dragging = !in_flow && !in_edges && row > self.flow.y;
            },
            Mouse::LeftDrag => {
                if self.dragging {
                    // The line sits between the two boxes: dragging it up
                    // gives the table the rows, down gives them to the flow.
                    let line = self.flow.bottom();
                    let by = line as i32 - row as i32;
                    let to = self.split as i32 + by;
                    self.split = if to > i16::MAX as i32 { i16::MAX } else if to < i16::MIN as i32 { i16::MIN } else { to as i16 };
                }
            },
            Mouse::LeftUp => {
                self.dragging = false;
            },
            Mouse::ScrollDown => self.scroll_by(1),
            Mouse::ScrollUp => self.scroll_by(-1),
            Mouse::Other => {},
        }
    }

    /// Handle one input: Tab walks the vertices; the arrows move whichever
    /// box has the focus, so the flow and the table scroll apart; sideways
    /// only means something in the flow; `+` and `-` move the line between
    /// the boxes; the mouse focuses, drags the line and scrolls.
    pub fn update(&mut self, input: Input) -> (r: Outcome)
        ensures
            (*final(self), r) == step_spec(*old(self), input),
    {
        let none = Outcome { action: None, reload: false };
        match input {
            Input::Tick => Outcome { action: None, reload: true },
            Input::Frame => {
                self.spin = if self.spin == usize::MAX { 0 } else { self.spin + 1 };
                none
            },
            Input::Mouse(m, c, r) => {
                self.mouse(m, c, r);
                none
            },
            Input::Key(k) => match k {
                Key::Quit => Outcome { action: Some(Action::Quit), reload: false },
                Key::Back => Outcome { action: Some(Action::Back), reload: false },
                Key::Next => {
                    self.move_by(1);
                    none
                },
                Key::Prev => {
                    self.move_by(-1);
                    none
                },
                Key::Down => {
                    self.scroll_by(1);
                    none
                },
                Key::Up => {
                    self.scroll_by(-1);
                    none
                },
                Key::PageDown => {
                    self.scroll_by(SCROLL_ROWS);
                    none
                },
                Key::PageUp => {
                    self.scroll_by(-SCROLL_ROWS);
                    none
                },
                Key::Left => {
                    if self.focus == Focus::Flow {
                        self.scroll = if self.scroll == 0 { 0 } else { self.scroll - 1 };
                        self.follow = false;
                    }
                    none
                },
                Key::Right => {
                    if self.focus == Focus::Flow {
                        let last = if self.columns == 0 { 0 } else { self.columns - 1 };
                        self.scroll = if self.scroll < last && self.scroll + 1 < last { self.scroll + 1 } else { last };
                        self.follow = false;
                    }
                    none
                },
                Key::Grow => {
                    self.split = if self.split == i16::MAX { i16::MAX } else { self.split + 1 };
                    none
                },
                Key::Shrink => {
                    self.split = if self.split == i16::MIN { i16::MIN } else { self.split - 1 };
                    none
                },
                Key::Shards => {
                    self.expand_shards = !self.expand_shards;
                    none
                },
                Key::Reload => Outcome { action: None, reload: true },
                Key::Logs => Outcome { action: Some(Action::OpenLogs(None)), reload: false },
                Key::Open => Outcome {
                    action: Some(Action::OpenLogs(if self.selected < self.vertices { Some(self.selected) } else { None })),
                    reload: false,
                },
                Key::Other => none,
            },
        }
    }
}

/// A drawing of a pipeline the worker loaded: whose it is, and how many
/// vertices and card columns it has.
#[derive(Debug, Clone, PartialEq, Eq)]
pub struct LoadedView {
    /// The pipeline's key, `namespace/name`.
    pub key: String,
    pub vertices: usize,
    pub columns: usize,
}

/// What the worker answers a load with: the shape alone, drawn before the
/// numbers arrive, or the full view, or why it could not be loaded.
#[derive(Debug, PartialEq, Eq)]
pub enum Reply {
    Shape(LoadedView),
    View(Result<LoadedView, String>),
}

/// The panel for one pipeline: its key, the state the keys and the mouse
/// move, the view it holds and the last load error.
#[derive(Debug, Clone, PartialEq, Eq)]
pub struct DetailPanel {
    pub key: String,
    pub state: DetailState,
    /// Vertices and card columns of the view held, none before one lands.
    pub held: Option<(usize, usize)>,
    pub error: Option<String>,
}

/// The state showing a view of `v`'s size.
pub open spec fn showing(s: DetailState, v: LoadedView) -> DetailState {
    DetailState { vertices: v.vertices, columns: v.columns, ..s }
}

/// What a reply does to the panel. A view for another pipeline is stale and
/// changes nothing; a shape only draws while no view is held; a view for
/// this pipeline replaces the one held and clears the error; an error is
/// kept beside the view held, which stays.
pub open spec fn replied(p: DetailPanel, q: DetailPanel, r: Reply) -> bool {
    &&& q.key == p.key
    &&& match r {
        Reply::Shape(v) => if v.key@ == p.key@ && p.held is None {
            q.held == Some((v.vertices, v.columns)) && q.error is None && q.state == showing(p.state, v)
        } else {
            q.held == p.held && q.error == p.error && q.state == p.state
        },
        Reply::View(Ok(v)) => if v.key@ == p.key@ {
            q.held == Some((v.vertices, v.columns)) && q.error is None && q.state == showing(p.state, v)
        } else {
            q.held == p.held && q.error == p.error && q.state == p.state
        },
        Reply::View(Err(e)) => q.error == Some(e) && q.held == p.held && q.state == p.state,
    }
}

impl DetailPanel {
    /// A panel for the pipeline `key`, holding no view yet.
    pub fn new(key: String, state: DetailState) -> (p: Self)
        ensures
            p.key == key,
            p.state == state,
            p.held is None,
            p.error is None,
    {
        DetailPanel { key, state, held: None, error: None }
    }

    fn take(&mut self, v: &LoadedView)
        ensures
            final(self).key == old(self).key,
            final(self).held == Some((v.vertices, v.columns)),
            final(self).error is None,
            final(self).state == showing(old(self).state, *v),
    {
        self.held = Some((v.vertices, v.columns));
        self.error = None;
        self.state.vertices = v.vertices;
        self.state.columns = v.columns;
    }

    /// Handle the worker's answer to a load.
    pub fn reply(&mut self, r: Reply)
        ensures
            replied(*old(self), *final(self), r),
    {
        let key = crate::text::chars_of(self.key.as_str());
        match r {
            Reply::Shape(v) => {
                let mine = crate::text::same(&crate::text::chars_of(v.key.as_str()), &key);
                if mine && self.held.is_none() {
                    self.take(&v);
                }
            },
            Reply::View(Ok(v)) => {
                let mine = crate::text::same(&crate::text::chars_of(v.key.as_str()), &key);
                if mine {
                    self.take(&v);
                }
            },
            Reply::View(Err(e)) => {
                self.error = Some(e);
            },
        }
    }
}

} // verus!
