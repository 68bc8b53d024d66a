//! What the pipeline list does with the keys and with each listing that
//! arrives: which pipeline is selected, kept on the same pipeline across
//! refreshes, and what opening it asks of the app. Drawing is left to the
//! caller, which holds the full listing in the same order.

use vstd::prelude::*;

use crate::text::{chars_of, same};

verus! {

/// Which pipeline a row of the list is: its namespace and name.
#[derive(Debug, Clone, PartialEq, Eq)]
pub struct PipelineRef {
    pub namespace: String,
    pub name: String,
}

/// Two rows name the same pipeline.
pub open spec fn same_ref(a: PipelineRef, b: PipelineRef) -> bool {
    a.namespace@ == b.namespace@ && a.name@ == b.name@
}

/// Whether two rows name the same pipeline.
fn is_same(a: &PipelineRef, b: &PipelineRef) -> (r: bool)
    ensures
        r == same_ref(*a, *b),
{
    same(&chars_of(a.namespace.as_str()), &chars_of(b.namespace.as_str())) && same(
        &chars_of(a.name.as_str()),
        &chars_of(b.name.as_str()),
    )
}

/// A key as the list reads it.
#[derive(Debug, Clone, Copy, PartialEq, Eq, Structural)]
pub enum ListKey {
    /// `q`.
    Quit,
    /// `j` or the down arrow.
    Down,
    /// `k` or the up arrow.
    Up,
    /// `r`: list again.
    Reload,
    /// Enter: the selected pipeline's detail.
    Open,
    /// `l`: the selected pipeline's logs.
    Logs,
    Other,
}

/// Where the app goes next, with the index of the selected row.
#[derive(Debug, Clone, Copy, PartialEq, Eq, Structural)]
pub enum ListAction {
    Quit,
    OpenDetail(usize),
    OpenLogs(usize),
}

/// What the list is asked to handle.
#[derive(Debug)]
pub enum ListInput {
    /// The periodic refresh.
    Tick,
    /// A listing arrived, or the reason there is none.
    Loaded(Result<Vec<PipelineRef>, String>),
    Key(ListKey),
}

/// What one input asks of the app: where to go, and whether to list again.
#[derive(Debug, Clone, Copy, PartialEq, Eq, Structural)]
pub struct ListOutcome {
    pub action: Option<ListAction>,
    pub reload: bool,
}

/// The list's state: the rows of the last listing, the selected row, the
/// last failure and whether the first listing is still on its way.
pub struct PipelinesState {
    pub items: Vec<PipelineRef>,
    pub selected: Option<usize>,
    pub error: Option<String>,
    pub loading: bool,
    /// Show how long the last listing took, in the title.
    pub timings: bool,
}

/// The selection moved by `delta` rows, kept on a row; no selection when
/// there are no rows.
pub open spec fn moved_to(len: int, selected: Option<usize>, delta: int) -> Option<usize> {
    if len == 0 {
        None
    } else {
        let cur = match selected {
            Some(i) => i as int,
            None => 0,
        };
        let next = if cur + delta < 0 {
            0
        } else if cur + delta > usize::MAX {
            usize::MAX as int
        } else {
            cur + delta
        };
        Some((if next > len - 1 {
            len - 1
        } else {
            next
        }) as usize)
    }
}

/// The first row from `i` on naming the same pipeline as `k`.
pub open spec fn find_ref(items: Seq<PipelineRef>, k: PipelineRef, i: int) -> Option<int>
    decreases items.len() - i,
{
    if i < 0 || i >= items.len() {
        None
    } else if same_ref(items[i], k) {
        Some(i)
    } else {
        find_ref(items, k, i + 1)
    }
}

/// The selection after a new listing: the row of the pipeline selected
/// before, the first row when it is gone or nothing was selected, none when
/// the listing is empty.
pub open spec fn reselected(old: Seq<PipelineRef>, selected: Option<usize>, new: Seq<PipelineRef>) -> Option<usize> {
    let kept = match selected {
        Some(i) => if i < old.len() {
            find_ref(new, old[i as int], 0)
        } else {
            None
        },
        None => None,
    };
    match kept {
        Some(j) => Some(j as usize),
        None => if new.len() > 0 {
            Some(0usize)
        } else {
            None
        },
    }
}

/// `find_ref` finds a row exactly when there is one, and the first.
pub proof fn lemma_find_ref(items: Seq<PipelineRef>, k: PipelineRef, i: int)
    requires
        0 <= i,
    ensures
        find_ref(items, k, i) is Some <==> exists|j: int| i <= j < items.len() && same_ref(#[trigger] items[j], k),
        find_ref(items, k, i) matches Some(j) ==> i <= j < items.len() && same_ref(items[j], k) && forall|m: int|
            i <= m < j ==> !same_ref(#[trigger] items[m], k),
    decreases items.len() - i,
{
    if i < items.len() {
        lemma_find_ref(items, k, i + 1);
        if !same_ref(items[i], k) {
            assert forall|j: int| i <= j < items.len() && same_ref(#[trigger] items[j], k) implies i + 1 <= j by {}
        }
    }
}

impl PipelinesState {
    /// No rows yet, the first listing on its way.
    pub fn new() -> (s: Self)
        ensures
            s.items@.len() == 0,
            s.selected is None,
            s.error is None,
            s.loading,
            !s.timings,
    {
        PipelinesState { items: Vec::new(), selected: None, error: None, loading: true, timings: false }
    }

    /// The same list, showing how long the last listing took when `on`.
    pub fn with_timings(self, on: bool) -> (s: Self)
        ensures
            s.items == self.items,
            s.selected == self.selected,
            s.error == self.error,
            s.loading == self.loading,
            s.timings == on,
    {
        PipelinesState { timings: on, ..self }
    }

    /// The selected row, if it is one of the rows.
    pub fn current(&self) -> (r: Option<usize>)
        ensures
            r == match self.selected {
                Some(i) => if i < self.items@.len() {
                    Some(i)
                } else {
                    None
                },
                None => None,
            },
    {
        match self.selected {
            Some(i) => if i < self.items.len() {
                Some(i)
            } else {
                None
            },
            None => None,
        }
    }

    /// Move the selection by `delta` rows, kept on a row.
    pub fn move_by(&mut self, delta: isize)
        ensures
            final(self).selected == moved_to(old(self).items@.len() as int, old(self).selected, delta as int),
            final(self).items == old(self).items,
            final(self).error == old(self).error,
            final(self).loading == old(self).loading,
    {
        if self.items.len() == 0 {
            self.selected = None;
            return;
        }
        let cur: usize = match self.selected {
            Some(i) => i,
            None => 0,
        };
        let at: i128 = cur as i128 + delta as i128;
        let next: usize = if at < 0 {
            0
        } else if at > usize::MAX as i128 {
            usize::MAX
        } else {
            at as usize
        };
        let last = self.items.len() - 1;
        self.selected = Some(if next > last { last } else { next });
    }

    /// Take a new listing: the selection stays on the pipeline it was on
    /// wherever that pipeline now is, else goes to the first row.
    pub fn listed(&mut self, items: Vec<PipelineRef>)
        ensures
            final(self).items@ == items@,
            final(self).selected == reselected(old(self).items@, old(self).selected, items@),
            final(self).error is None,
            !final(self).loading,
            match old(self).selected {
                Some(i) => (i < old(self).items@.len() && exists|j: int|
                    0 <= j < items@.len() && same_ref(#[trigger] items@[j], old(self).items@[i as int]))
                    ==> match final(self).selected {
                    Some(m) => m < items@.len() && same_ref(items@[m as int], old(self).items@[i as int]),
                    None => false,
                },
                None => true,
            },
    {
        let mut found: Option<usize> = None;
        if let Some(i) = self.selected {
            if i < self.items.len() {
                let k = &self.items[i];
                let mut j: usize = 0;
                while j < items.len() && !is_same(&items[j], k)
                    invariant
                        i < self.items@.len(),
                        *k == self.items@[i as int],
                        j <= items@.len(),
                        find_ref(items@, *k, 0) == find_ref(items@, *k, j as int),
                    decreases items.len() - j,
                {
                    j += 1;
                }
                if j < items.len() {
                    found = Some(j);
                }
                proof {
                    lemma_find_ref(items@, *k, 0);
                    assert(found == match find_ref(items@, self.items@[i as int], 0) {
                        Some(m) => Some(m as usize),
                        None => None::<usize>,
                    });
                }
            }
        }
        let next = match found {
            Some(j) => Some(j),
            None => if items.len() > 0 {
                Some(0)
            } else {
                None
            },
        };
        self.items = items;
        self.selected = next;
        self.error = None;
        self.loading = false;
    }

    /// Handle one input: the refresh lists again, a listing or its failure
    /// is taken, the arrows move the selection, and Enter and `l` open the
    /// selected pipeline.
    pub fn update(&mut self, input: ListInput) -> (r: ListOutcome)
        ensures
            match input {
                ListInput::Loaded(Ok(items)) => {
                    &&& final(self).items@ == items@
                    &&& final(self).selected == reselected(old(self).items@, old(self).selected, items@)
                    &&& final(self).error is None
                    &&& !final(self).loading
                },
                ListInput::Loaded(Err(e)) => {
                    &&& final(self).items == old(self).items
                    &&& final(self).selected == old(self).selected
                    &&& final(self).error == Some(e)
                    &&& !final(self).loading
                },
                ListInput::Key(ListKey::Down) => {
                    &&& final(self).items == old(self).items
                    &&& final(self).selected == moved_to(old(self).items@.len() as int, old(self).selected, 1)
                    &&& final(self).error == old(self).error
                    &&& final(self).loading == old(self).loading
                },
                ListInput::Key(ListKey::Up) => {
                    &&& final(self).items == old(self).items
                    &&& final(self).selected == moved_to(old(self).items@.len() as int, old(self).selected, -1)
                    &&& final(self).error == old(self).error
                    &&& final(self).loading == old(self).loading
                },
                _ => {
                    &&& final(self).items == old(self).items
                    &&& final(self).selected == old(self).selected
                    &&& final(self).error == old(self).error
                    &&& final(self).loading == old(self).loading
                },
            },
            r.reload == (input matches ListInput::Tick || input matches ListInput::Key(ListKey::Reload)),
            r.action == match input {
                ListInput::Key(ListKey::Quit) => Some(ListAction::Quit),
                ListInput::Key(ListKey::Open) => match old(self).selected {
                    Some(i) => if i < old(self).items@.len() {
                        Some(ListAction::OpenDetail(i))
                    } else {
                        None
                    },
                    None => None,
                },
                ListInput::Key(ListKey::Logs) => match old(self).selected {
                    Some(i) => if i < old(self).items@.len() {
                        Some(ListAction::OpenLogs(i))
                    } else {
                        None
                    },
                    None => None,
                },
                _ => None,
            },
    {
        let none = ListOutcome { action: None, reload: false };
        match input {
            ListInput::Tick => ListOutcome { action: None, reload: true },
            ListInput::Loaded(Ok(items)) => {
                self.listed(items);
                none
            },
            ListInput::Loaded(Err(e)) => {
                self.loading = false;
                self.error = Some(e);
                none
            },
            ListInput::Key(k) => match k {
                ListKey::Quit => ListOutcome { action: Some(ListAction::Quit), reload: false },
                ListKey::Down => {
                    self.move_by(1);
                    none
                },
                ListKey::Up => {
                    self.move_by(-1);
                    none
                },
                ListKey::Reload => ListOutcome { action: None, reload: true },
                ListKey::Open => match self.current() {
                    Some(i) => ListOutcome { action: Some(ListAction::OpenDetail(i)), reload: false },
                    None => none,
                },
                ListKey::Logs => match self.current() {
                    Some(i) => ListOutcome { action: Some(ListAction::OpenLogs(i)), reload: false },
                    None => none,
                },
                ListKey::Other => none,
            },
        }
    }
}

} // verus!
