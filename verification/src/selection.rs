//! The selection model: which row of the visible set is highlighted.
//!
//! A selection owns the visible set it points into. Its cursor is a row of
//! that set, and is absent only when the set is empty. Whenever the visible
//! set is replaced, the cursor goes back to the first row.
use crate::bookmarks::Record;
use crate::filter::is_visible_set;
use vstd::prelude::*;

verus! {

/// A selection as plain values: the visible set and the highlighted row.
pub struct SelectionView {
    pub visible: Seq<usize>,
    pub cursor: Option<int>,
}

/// The cursor right after the visible set was replaced by one of `rows`
/// rows: the first row, or none when there is no row.
pub open spec fn first_row(rows: nat) -> Option<int> {
    if rows > 0 {
        Some(0int)
    } else {
        None
    }
}

/// The row after `row`, wrapping round from the last of `rows` rows to the
/// first.
pub open spec fn row_after(row: int, rows: nat) -> int {
    (row + 1) % (rows as int)
}

/// The row before `row`, wrapping round from the first of `rows` rows to
/// the last.
pub open spec fn row_before(row: int, rows: nat) -> int {
    (row - 1 + rows) % (rows as int)
}

impl SelectionView {
    /// The cursor is a row of the visible set, and is absent exactly when
    /// the set is empty.
    pub open spec fn wf(self) -> bool {
        match self.cursor {
            Some(row) => 0 <= row < self.visible.len(),
            None => self.visible.len() == 0,
        }
    }

    /// The selection over the visible set `visible`, with the cursor on its
    /// first row.
    pub open spec fn over(visible: Seq<usize>) -> SelectionView {
        SelectionView { visible, cursor: first_row(visible.len()) }
    }

    /// The selection with the cursor moved one row down, wrapping round.
    pub open spec fn next(self) -> SelectionView {
        match self.cursor {
            Some(row) => SelectionView {
                cursor: Some(row_after(row, self.visible.len())),
                ..self
            },
            None => self,
        }
    }

    /// The selection with the cursor moved one row up, wrapping round.
    pub open spec fn previous(self) -> SelectionView {
        match self.cursor {
            Some(row) => SelectionView {
                cursor: Some(row_before(row, self.visible.len())),
                ..self
            },
            None => self,
        }
    }

    /// The selection with the cursor on `row`, or as it is when the visible
    /// set has no such row.
    pub open spec fn select_index(self, row: int) -> SelectionView {
        if 0 <= row < self.visible.len() {
            SelectionView { cursor: Some(row), ..self }
        } else {
            self
        }
    }

    /// The place in a collection of `records` records that the cursor
    /// stands for, if the cursor is there and that place exists.
    pub open spec fn current(self, records: nat) -> Option<usize> {
        match self.cursor {
            Some(row) => if 0 <= row < self.visible.len() && self.visible[row] < records {
                Some(self.visible[row])
            } else {
                None
            },
            None => None,
        }
    }
}

/// The highlighted row of a visible set.
pub struct Selection {
    visible: Vec<usize>,
    cursor: Option<usize>,
}

impl View for Selection {
    type V = SelectionView;

    closed spec fn view(&self) -> SelectionView {
        SelectionView {
            visible: self.visible@,
            cursor: match self.cursor {
                Some(row) => Some(row as int),
                None => None,
            },
        }
    }
}

impl Selection {
    /// The selection over `visible`, with the cursor on the first row, or
    /// absent when there is no row.
    pub fn new(visible: Vec<usize>) -> (selection: Selection)
        ensures
            selection@ == SelectionView::over(visible@),
            selection@.wf(),
    {
        let cursor = if visible.len() > 0 {
            Some(0)
        } else {
            None
        };
        Selection { visible, cursor }
    }

    /// Replaces the visible set; the cursor goes to its first row, or is
    /// absent when there is no row. What was selected before is not kept.
    pub fn reset(&mut self, visible: Vec<usize>)
        ensures
            final(self)@ == SelectionView::over(visible@),
            final(self)@.wf(),
    {
        self.cursor = if visible.len() > 0 {
            Some(0)
        } else {
            None
        };
        self.visible = visible;
    }

    /// Moves the cursor one row down; from the last row it goes to the
    /// first. Nothing happens on an empty visible set.
    pub fn next(&mut self)
        requires
            old(self)@.wf(),
        ensures
            final(self)@ == old(self)@.next(),
            final(self)@.wf(),
    {
        match self.cursor {
            Some(row) => {
                let rows = self.visible.len();
                let ghost after = row_after(row as int, rows as nat);
                if row + 1 == rows {
                    assert(after == 0) by (nonlinear_arith)
                        requires
                            after == (row + 1) % (rows as int),
                            row + 1 == rows,
                            rows > 0,
                    ;
                    self.cursor = Some(0);
                } else {
                    assert(after == row + 1) by (nonlinear_arith)
                        requires
                            after == (row + 1) % (rows as int),
                            0 <= row + 1 < rows,
                    ;
                    self.cursor = Some(row + 1);
                }
            },
            None => {},
        }
    }

    /// Moves the cursor one row up; from the first row it goes to the last.
    /// Nothing happens on an empty visible set.
    pub fn previous(&mut self)
        requires
            old(self)@.wf(),
        ensures
            final(self)@ == old(self)@.previous(),
            final(self)@.wf(),
    {
        match self.cursor {
            Some(row) => {
                let rows = self.visible.len();
                let ghost before = row_before(row as int, rows as nat);
                if row == 0 {
                    assert(before == rows - 1) by (nonlinear_arith)
                        requires
                            before == (row - 1 + rows) % (rows as int),
                            row == 0,
                            rows > 0,
                    ;
                    self.cursor = Some(rows - 1);
                } else {
                    assert(before == row - 1) by (nonlinear_arith)
                        requires
                            before == (row - 1 + rows) % (rows as int),
                            0 < row < rows,
                    ;
                    self.cursor = Some(row - 1);
                }
            },
            None => {},
        }
    }

    /// Puts the cursor on `row` and says so; a row that the visible set
    /// does not have leaves the cursor where it is.
    pub fn select_index(&mut self, row: usize) -> (moved: bool)
        ensures
            final(self)@ == old(self)@.select_index(row as int),
            moved == (row < old(self)@.visible.len()),
            old(self)@.wf() ==> final(self)@.wf(),
    {
        if row < self.visible.len() {
            self.cursor = Some(row);
            true
        } else {
            false
        }
    }

    /// The place in the collection of the selected record, where `records`
    /// is the number of records in the collection. It is `None` when
    /// nothing is selected or when the collection has no such place.
    pub fn current(&self, records: usize) -> (place: Option<usize>)
        ensures
            place == self@.current(records as nat),
            place matches Some(index) ==> index < records,
    {
        match self.cursor {
            Some(row) => {
                if row < self.visible.len() && self.visible[row] < records {
                    Some(self.visible[row])
                } else {
                    None
                }
            },
            None => None,
        }
    }

    /// The highlighted row of the visible set, if there is one.
    pub fn cursor(&self) -> (row: Option<usize>)
        ensures
            match row {
                Some(r) => self@.cursor == Some(r as int),
                None => self@.cursor.is_none(),
            },
    {
        self.cursor
    }

    /// The visible set: places in the collection, in listing order.
    pub fn visible(&self) -> (rows: &Vec<usize>)
        ensures
            rows@ == self@.visible,
    {
        &self.visible
    }
}

/// After a re-filter that lists something, a record is selected, the first
/// of the visible set, and its place exists in the collection; after one
/// that lists nothing, nothing is selected.
pub proof fn lemma_current_after_refilter(
    records: Seq<Record>,
    query: Seq<char>,
    tag: Option<Seq<char>>,
    visible: Seq<usize>,
)
    requires
        is_visible_set(records, query, tag, visible),
    ensures
        SelectionView::over(visible).wf(),
        visible.len() > 0 ==> SelectionView::over(visible).current(records.len()) == Some(
            visible[0],
        ) && visible[0] < records.len(),
        visible.len() == 0 ==> SelectionView::over(visible).current(records.len()).is_none(),
{
}

/// Moving the cursor keeps it on a row of the visible set, and a selected
/// record stays selected: on a set that lists only places of the
/// collection, `current` is `Some` after `next` and `previous` whenever
/// the set is not empty.
pub proof fn lemma_moves_keep_selection(selection: SelectionView, records: nat)
    requires
        selection.wf(),
        forall|row: int| 0 <= row < selection.visible.len() ==> (#[trigger] selection.visible[row])
            < records,
    ensures
        selection.next().wf(),
        selection.previous().wf(),
        selection.visible.len() > 0 ==> selection.next().current(records).is_some()
            && selection.previous().current(records).is_some(),
        selection.visible.len() == 0 ==> selection.next() == selection && selection.previous()
            == selection,
{
    let rows = selection.visible.len() as int;
    if rows > 0 {
        let row = selection.cursor->0;
        assert(0 <= (row + 1) % rows < rows) by (nonlinear_arith)
            requires
                rows > 0,
        ;
        assert(0 <= (row - 1 + rows) % rows < rows) by (nonlinear_arith)
            requires
                rows > 0,
        ;
    }
}

} // verus!
