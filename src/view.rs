//! The decisions of the calendar viewer: which pane has the focus, which row
//! is selected, when to quit.

use vstd::prelude::*;

verus! {

/// The panes of the viewer.
#[derive(PartialEq, Eq, Structural, Clone, Copy, Debug)]
pub enum Focus {
    Left,
    Top,
    Bottom,
}

impl Focus {
    pub open spec fn spec_next(self) -> Focus {
        match self {
            Focus::Left => Focus::Top,
            Focus::Top => Focus::Bottom,
            Focus::Bottom => Focus::Left,
        }
    }

    pub open spec fn spec_prev(self) -> Focus {
        match self {
            Focus::Left => Focus::Bottom,
            Focus::Top => Focus::Left,
            Focus::Bottom => Focus::Top,
        }
    }

    /// Cycles to the next pane.
    pub fn next(&self) -> (r: Focus)
        ensures
            r == self.spec_next(),
            r.spec_prev() == *self,
    {
        match self {
            Focus::Left => Focus::Top,
            Focus::Top => Focus::Bottom,
            Focus::Bottom => Focus::Left,
        }
    }

    /// Cycles to the previous pane.
    pub fn prev(&self) -> (r: Focus)
        ensures
            r == self.spec_prev(),
            r.spec_next() == *self,
    {
        match self {
            Focus::Left => Focus::Bottom,
            Focus::Top => Focus::Left,
            Focus::Bottom => Focus::Top,
        }
    }
}

/// The keys the viewer acts on.
#[derive(PartialEq, Eq, Structural, Clone, Copy, Debug)]
pub enum Key {
    Char(char),
    Tab,
    BackTab,
    Other,
}

/// What the viewer shows: the focused pane, the selected row among
/// `rows` rows, and whether it is to quit.
#[derive(PartialEq, Eq, Structural, Clone, Copy, Debug)]
pub struct ViewState {
    pub focus: Focus,
    pub selected: Option<usize>,
    pub rows: usize,
    pub exit: bool,
}

/// The row below the selected one, wrapping to the first.
pub open spec fn row_down(selected: Option<usize>, rows: usize) -> usize {
    match selected {
        Some(i) => if i + 1 >= rows { 0 } else { (i + 1) as usize },
        None => 0,
    }
}

/// The row above the selected one, wrapping to the last.
pub open spec fn row_up(selected: Option<usize>, rows: usize) -> usize {
    match selected {
        Some(i) => if i == 0 {
            if rows == 0 { 0 } else { (rows - 1) as usize }
        } else {
            (i - 1) as usize
        },
        None => 0,
    }
}

/// The viewer after a key press: `q` quits, Tab and BackTab move the focus,
/// and in the left pane `j` and `k` move the selection down and up,
/// wrapping around.
pub open spec fn after_key(s: ViewState, key: Key) -> ViewState {
    match key {
        Key::Char('q') => ViewState { exit: true, ..s },
        Key::Tab => ViewState { focus: s.focus.spec_next(), ..s },
        Key::BackTab => ViewState { focus: s.focus.spec_prev(), ..s },
        Key::Char('j') => if s.focus == Focus::Left {
            ViewState { selected: Some(row_down(s.selected, s.rows)), ..s }
        } else {
            s
        },
        Key::Char('k') => if s.focus == Focus::Left {
            ViewState { selected: Some(row_up(s.selected, s.rows)), ..s }
        } else {
            s
        },
        _ => s,
    }
}

impl ViewState {
    /// The viewer as it opens on `rows` rows: left pane, first row.
    pub fn new(rows: usize) -> (r: ViewState)
        ensures
            r == (ViewState { focus: Focus::Left, selected: Some(0), rows, exit: false }),
    {
        ViewState { focus: Focus::Left, selected: Some(0), rows, exit: false }
    }

    /// Applies one key press (see `after_key`).
    pub fn handle_key_event(&mut self, key: Key)
        ensures
            *final(self) == after_key(*old(self), key),
    {
        match key {
            Key::Char('q') => {
                self.exit = true;
            },
            Key::Tab => {
                self.focus = self.focus.next();
            },
            Key::BackTab => {
                self.focus = self.focus.prev();
            },
            Key::Char('j') => {
                if self.focus == Focus::Left {
                    let i = match self.selected {
                        Some(i) => if i >= self.rows || self.rows - i <= 1 { 0 } else { i + 1 },
                        None => 0,
                    };
                    self.selected = Some(i);
                }
            },
            Key::Char('k') => {
                if self.focus == Focus::Left {
                    let i = match self.selected {
                        Some(i) => if i == 0 {
                            if self.rows == 0 { 0 } else { self.rows - 1 }
                        } else {
                            i - 1
                        },
                        None => 0,
                    };
                    self.selected = Some(i);
                }
            },
            _ => {},
        }
    }
}

} // verus!
