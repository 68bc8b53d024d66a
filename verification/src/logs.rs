//! What the logs panel keeps and shows: the latest lines of a vertex's
//! pods, up to a fixed number, either following the tail or pinned where
//! the reader scrolled to.

use vstd::prelude::*;

use std::collections::VecDeque;
use core::ops::Range;

use crate::detail::{Action, least, less_or_none};

verus! {

/// Lines kept; the oldest goes when another arrives.
pub const CAPACITY: usize = 5000;

/// One log line and the pod and container it came from.
#[derive(Debug, Clone, PartialEq, Eq)]
pub struct LogLine {
    pub pod: String,
    pub container: String,
    pub text: String,
}

/// A key as the logs panel reads it.
#[derive(Debug, Clone, Copy, PartialEq, Eq, Structural)]
pub enum LogKey {
    /// `q`.
    Quit,
    /// Escape, `h` or backspace.
    Back,
    /// `j` or the down arrow.
    Down,
    /// `k` or the up arrow.
    Up,
    PageDown,
    PageUp,
    /// `G` or End: follow the tail again.
    End,
    Other,
}

/// What the logs panel is asked to handle.
#[derive(Debug, Clone, PartialEq, Eq)]
pub enum LogsInput {
    /// A line arrived.
    Line(LogLine),
    /// The stream failed with this message.
    Failed(String),
    Key(LogKey),
    /// The periodic refresh, which the logs do not need.
    Tick,
}

/// What one input asks of the app: where to go, and whether to stop the
/// log stream.
#[derive(Debug, Clone, Copy, PartialEq, Eq, Structural)]
pub struct LogsOutcome {
    pub action: Option<Action>,
    pub stop: bool,
}

/// The last `CAPACITY` lines of `s`, or all of them when there are no more.
pub open spec fn kept(s: Seq<LogLine>) -> Seq<LogLine> {
    if s.len() > CAPACITY {
        s.subrange(s.len() - CAPACITY, s.len() as int)
    } else {
        s
    }
}

/// The top line after scrolling by `delta` lines with `page` lines on
/// screen: from the pinned top line, or from the tail's when following;
/// never above the first line, and back to following when it reaches the
/// tail.
pub open spec fn scroll_after(len: int, scroll: Option<usize>, delta: int, page: int) -> Option<usize> {
    let max = less_or_none(len, page);
    let cur = match scroll {
        Some(n) => n as int,
        None => max,
    };
    let next = if cur + delta < 0 {
        0
    } else if cur + delta > usize::MAX {
        usize::MAX as int
    } else {
        cur + delta
    };
    let next = least(next, max);
    if next >= max {
        None
    } else {
        Some(next as usize)
    }
}

/// A pinned top line moves up with the lines when the oldest is dropped.
pub open spec fn shifted(scroll: Option<usize>) -> Option<usize> {
    match scroll {
        Some(n) => Some(if n == 0 {
            0
        } else {
            (n - 1) as usize
        }),
        None => None,
    }
}

/// The lines kept, where the view is pinned (`None` while following), and
/// what the stream failed with.
pub struct LogsState {
    lines: VecDeque<LogLine>,
    scroll: Option<usize>,
    error: Option<String>,
}

impl LogsState {
    #[verifier::type_invariant]
    spec fn bounded(self) -> bool {
        self.lines@.len() <= CAPACITY
    }

    /// The lines kept, oldest first.
    pub closed spec fn spec_lines(&self) -> Seq<LogLine> {
        self.lines@
    }

    /// The pinned top line, `None` while following the tail.
    pub closed spec fn spec_scroll(&self) -> Option<usize> {
        self.scroll
    }

    /// What the stream failed with, if it did.
    pub closed spec fn spec_error(&self) -> Option<String> {
        self.error
    }

    /// No lines yet, following the tail.
    pub fn new() -> (s: Self)
        ensures
            s.spec_lines() == Seq::<LogLine>::empty(),
            s.spec_scroll() is None,
            s.spec_error() is None,
    {
        LogsState { lines: VecDeque::new(), scroll: None, error: None }
    }

    /// The lines kept, oldest first; never more than `CAPACITY`.
    pub fn lines(&self) -> (r: &VecDeque<LogLine>)
        ensures
            r@ == self.spec_lines(),
            r@.len() <= CAPACITY,
    {
        proof {
            use_type_invariant(self);
        }
        &self.lines
    }

    /// The pinned top line, `None` while following the tail.
    pub fn scroll(&self) -> (r: Option<usize>)
        ensures
            r == self.spec_scroll(),
    {
        self.scroll
    }

    /// Whether the view follows the tail.
    pub fn following(&self) -> (b: bool)
        ensures
            b == self.spec_scroll() is None,
    {
        self.scroll.is_none()
    }

    /// What the stream failed with, if it did.
    pub fn error(&self) -> (r: &Option<String>)
        ensures
            *r == self.spec_error(),
    {
        &self.error
    }

    /// Keep a line that arrived: the oldest goes when the buffer is full,
    /// and a pinned view moves up with the lines so it stays on the same one.
    pub fn receive(&mut self, line: LogLine)
        ensures
            final(self).spec_lines() == kept(old(self).spec_lines().push(line)),
            final(self).spec_scroll() == if old(self).spec_lines().len() == CAPACITY {
                shifted(old(self).spec_scroll())
            } else {
                old(self).spec_scroll()
            },
            final(self).spec_error() == old(self).spec_error(),
            final(self).spec_lines().len() <= CAPACITY,
            match old(self).spec_scroll() {
                Some(n) => (old(self).spec_lines().len() < CAPACITY || n >= 1) && n < old(self).spec_lines().len()
                    ==> match final(self).spec_scroll() {
                    Some(m) => final(self).spec_lines()[m as int] == old(self).spec_lines()[n as int],
                    None => false,
                },
                None => final(self).spec_scroll() is None,
            },
    {
        proof {
            use_type_invariant(&*self);
        }
        let ghost before = self.lines@;
        let mut lines: VecDeque<LogLine> = VecDeque::new();
        std::mem::swap(&mut lines, &mut self.lines);
        if lines.len() == CAPACITY {
            lines.pop_front();
            lines.push_back(line);
            self.scroll = match self.scroll {
                Some(n) => Some(if n == 0 { 0 } else { n - 1 }),
                None => None,
            };
            proof {
                assert(lines@ =~= kept(before.push(line)));
            }
        } else {
            lines.push_back(line);
        }
        self.lines = lines;
    }

    /// The stream failed; say so in place of the lines.
    pub fn fail(&mut self, message: String)
        ensures
            final(self).spec_lines() == old(self).spec_lines(),
            final(self).spec_scroll() == old(self).spec_scroll(),
            final(self).spec_error() == Some(message),
    {
        proof {
            use_type_invariant(&*self);
        }
        self.error = Some(message);
    }

    /// Move the view by `delta` lines with `page` on screen; see
    /// `scroll_after`.
    pub fn scroll_by(&mut self, delta: isize, page: usize)
        ensures
            final(self).spec_lines() == old(self).spec_lines(),
            final(self).spec_scroll() == scroll_after(
                old(self).spec_lines().len() as int,
                old(self).spec_scroll(),
                delta as int,
                page as int,
            ),
            final(self).spec_error() == old(self).spec_error(),
    {
        proof {
            use_type_invariant(&*self);
        }
        let len = self.lines.len();
        let max: usize = if len >= page { len - page } else { 0 };
        let cur: usize = match self.scroll {
            Some(n) => n,
            None => max,
        };
        let at: i128 = cur as i128 + delta as i128;
        let next: usize = if at < 0 {
            0
        } else if at > usize::MAX as i128 {
            usize::MAX
        } else {
            at as usize
        };
        let next: usize = if next < max { next } else { max };
        self.scroll = if next >= max { None } else { Some(next) };
    }

    /// Back to following the tail.
    pub fn follow(&mut self)
        ensures
            final(self).spec_lines() == old(self).spec_lines(),
            final(self).spec_scroll() is None,
            final(self).spec_error() == old(self).spec_error(),
    {
        proof {
            use_type_invariant(&*self);
        }
        self.scroll = None;
    }

    /// Handle one input: lines and failures are kept, the arrows and pages
    /// scroll a line or twenty, End follows the tail again, and leaving
    /// stops the stream.
    pub fn update(&mut self, input: LogsInput) -> (r: LogsOutcome)
        ensures
            match input {
                LogsInput::Line(l) => {
                    &&& final(self).spec_lines() == kept(old(self).spec_lines().push(l))
                    &&& final(self).spec_scroll() == if old(self).spec_lines().len() == CAPACITY {
                        shifted(old(self).spec_scroll())
                    } else {
                        old(self).spec_scroll()
                    }
                    &&& final(self).spec_error() == old(self).spec_error()
                },
                LogsInput::Failed(e) => {
                    &&& final(self).spec_lines() == old(self).spec_lines()
                    &&& final(self).spec_scroll() == old(self).spec_scroll()
                    &&& final(self).spec_error() == Some(e)
                },
                LogsInput::Key(k) => {
                    &&& final(self).spec_lines() == old(self).spec_lines()
                    &&& final(self).spec_error() == old(self).spec_error()
                    &&& final(self).spec_scroll() == match k {
                        LogKey::Down => scroll_after(old(self).spec_lines().len() as int, old(self).spec_scroll(), 1, 1),
                        LogKey::Up => scroll_after(old(self).spec_lines().len() as int, old(self).spec_scroll(), -1, 1),
                        LogKey::PageDown => scroll_after(old(self).spec_lines().len() as int, old(self).spec_scroll(), 20, 1),
                        LogKey::PageUp => scroll_after(old(self).spec_lines().len() as int, old(self).spec_scroll(), -20, 1),
                        LogKey::End => None,
                        _ => old(self).spec_scroll(),
                    }
                },
                LogsInput::Tick => {
                    &&& final(self).spec_lines() == old(self).spec_lines()
                    &&& final(self).spec_scroll() == old(self).spec_scroll()
                    &&& final(self).spec_error() == old(self).spec_error()
                },
            },
            r == match input {
                LogsInput::Key(LogKey::Quit) => LogsOutcome { action: Some(Action::Quit), stop: true },
                LogsInput::Key(LogKey::Back) => LogsOutcome { action: Some(Action::Back), stop: true },
                _ => LogsOutcome { action: None, stop: false },
            },
    {
        let none = LogsOutcome { action: None, stop: false };
        match input {
            LogsInput::Line(l) => {
                self.receive(l);
                none
            },
            LogsInput::Failed(e) => {
                self.fail(e);
                none
            },
            LogsInput::Key(k) => match k {
                LogKey::Quit => LogsOutcome { action: Some(Action::Quit), stop: true },
                LogKey::Back => LogsOutcome { action: Some(Action::Back), stop: true },
                LogKey::Down => {
                    self.scroll_by(1, 1);
                    none
                },
                LogKey::Up => {
                    self.scroll_by(-1, 1);
                    none
                },
                LogKey::PageDown => {
                    self.scroll_by(20, 1);
                    none
                },
                LogKey::PageUp => {
                    self.scroll_by(-20, 1);
                    none
                },
                LogKey::End => {
                    self.follow();
                    none
                },
                LogKey::Other => none,
            },
            LogsInput::Tick => none,
        }
    }

    /// The lines on screen, `height` rows tall: from the pinned top line,
    /// or the last page while following, as far as there are lines.
    pub fn visible(&self, height: u16) -> (r: Range<usize>)
        ensures
            ({
                let page = if height == 0 { 1int } else { height as int };
                let len = self.spec_lines().len() as int;
                let start = match self.spec_scroll() {
                    Some(n) => n as int,
                    None => less_or_none(len, page),
                };
                &&& r.start == least(start, len)
                &&& r.end == least(start + page, len)
            }),
    {
        let page: usize = if height == 0 { 1 } else { height as usize };
        let len = self.lines.len();
        let start: usize = match self.scroll {
            Some(n) => n,
            None => if len >= page { len - page } else { 0 },
        };
        let first = if start < len { start } else { len };
        let last = if start > len || len - start < page { len } else { start + page };
        first..last
    }
}

/// The buffer keeps the latest lines however they arrived: keeping the
/// last `CAPACITY` of what was kept and a new line is keeping the last
/// `CAPACITY` of everything received and that line.
pub proof fn lemma_keeps_the_latest(received: Seq<LogLine>, line: LogLine)
    ensures
        kept(kept(received).push(line)) == kept(received.push(line)),
{
    assert(kept(kept(received).push(line)) =~= kept(received.push(line)));
}

} // verus!
