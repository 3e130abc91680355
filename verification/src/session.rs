//! The interaction state machine: one session of browsing, searching and
//! editing the collection.
//!
//! A session owns the collection, the active query and tag constraint, the
//! selection and the form buffer. It consumes one [`Event`] at a time.
//! [`SessionView::step`] says, for every state and event, what the next
//! state is and what the caller has to do; [`SessionState::handle_event`]
//! does exactly that. The caller draws the state, reads the keys, saves the
//! collection when told to, and opens the url that the session ends with.
use crate::bookmarks::{
    add_bookmark, all_tags, delete_bookmark, distinct_keys, get_all_tags, has_key, index_of,
    key_at_index, lemma_has_key_index, lemma_index_of, strings_view, Bookmark, BookmarkError,
    Bookmarks, Record,
};
use crate::filter::{filter, is_visible_set, lemma_visible_set_exists, visible_set};
use crate::form::{parse_tags, FieldCursor, FormBuffer, FormView};
use crate::matcher::{scorable, Query};
use crate::selection::{
    lemma_current_after_refilter, lemma_moves_keep_selection, Selection, SelectionView,
};
use vstd::prelude::*;

verus! {

/// What the session is doing.
#[derive(Debug)]
pub enum Mode {
    /// Moving through the visible set.
    Browsing,
    /// Typing a query; the visible set follows every keystroke.
    Searching,
    /// Filling in the form for a new record, with the focus on a field.
    Adding(FieldCursor),
    /// Changing the record with the given key in the form.
    Editing(FieldCursor, String),
    /// Asking whether the record with the given key is to be deleted.
    ConfirmingDelete(String),
    /// Choosing the tag constraint from the tags in use.
    ChoosingTag,
}

/// A mode as plain values.
pub enum ModeView {
    Browsing,
    Searching,
    Adding(FieldCursor),
    Editing(FieldCursor, Seq<char>),
    ConfirmingDelete(Seq<char>),
    ChoosingTag,
}

impl View for Mode {
    type V = ModeView;

    open spec fn view(&self) -> ModeView {
        match self {
            Mode::Browsing => ModeView::Browsing,
            Mode::Searching => ModeView::Searching,
            Mode::Adding(field) => ModeView::Adding(*field),
            Mode::Editing(field, key) => ModeView::Editing(*field, key@),
            Mode::ConfirmingDelete(key) => ModeView::ConfirmingDelete(key@),
            Mode::ChoosingTag => ModeView::ChoosingTag,
        }
    }
}

impl Clone for Mode {
    fn clone(&self) -> (copy: Self)
        ensures
            copy@ == self@,
    {
        match self {
            Mode::Browsing => Mode::Browsing,
            Mode::Searching => Mode::Searching,
            Mode::Adding(field) => Mode::Adding(*field),
            Mode::Editing(field, key) => Mode::Editing(*field, key.clone()),
            Mode::ConfirmingDelete(key) => Mode::ConfirmingDelete(key.clone()),
            Mode::ChoosingTag => Mode::ChoosingTag,
        }
    }
}

/// One input to the session.
#[derive(Debug, Clone, Copy, PartialEq, Eq, Structural)]
pub enum Event {
    /// Start typing a query.
    BeginSearch,
    /// Start a new record.
    BeginAdd,
    /// Start changing the selected record.
    BeginEdit,
    /// Ask to delete the selected record.
    BeginDelete,
    /// Start choosing the tag constraint.
    BeginChooseTag,
    /// Move one row down.
    Next,
    /// Move one row up.
    Previous,
    /// Move to the given row.
    Select(usize),
    /// A character was typed.
    Insert(char),
    /// The last character is to go.
    Backspace,
    /// Go to the next field of the form; after the last field, commit.
    NextField,
    /// Go to the field before.
    PreviousField,
    /// Accept what the mode proposes.
    Confirm,
    /// Leave the mode without effect.
    Cancel,
    /// End the session with the url of the selected record.
    Open,
    /// End the session without a url.
    Quit,
}

/// Why the session refused an event.
#[derive(Debug, Clone, Copy, PartialEq, Eq, Structural)]
pub enum SessionError {
    /// The form was to be committed without a name or without a url.
    InvalidForm,
    /// The name in the form belongs to another record.
    DuplicateKey,
    /// The record that was to be changed or deleted is gone.
    RecordNotFound,
    /// The query would be too long to be scored.
    QueryTooLong,
}

/// What the caller has to do after an event.
#[derive(Debug)]
pub enum Outcome {
    /// Nothing but to draw the state.
    Continue,
    /// The collection has changed: save it.
    Persist,
    /// The event was refused; the collection is as it was.
    Rejected(SessionError),
    /// The session is over; open the url, if there is one.
    Finished(Option<String>),
}

/// An outcome as plain values.
pub enum OutcomeView {
    Continue,
    Persist,
    Rejected(SessionError),
    Finished(Option<Seq<char>>),
}

impl View for Outcome {
    type V = OutcomeView;

    open spec fn view(&self) -> OutcomeView {
        match self {
            Outcome::Continue => OutcomeView::Continue,
            Outcome::Persist => OutcomeView::Persist,
            Outcome::Rejected(error) => OutcomeView::Rejected(*error),
            Outcome::Finished(Some(url)) => OutcomeView::Finished(Some(url@)),
            Outcome::Finished(None) => OutcomeView::Finished(None),
        }
    }
}

/// A key of the keyboard, as far as the session tells keys apart.
#[derive(Debug, Clone, Copy, PartialEq, Eq, Structural)]
pub enum Key {
    Char(char),
    Enter,
    Escape,
    Backspace,
    Tab,
    BackTab,
    Up,
    Down,
}

/// The event that `key` stands for in the mode `mode`, if it stands for
/// one.
///
/// While browsing, letters are commands: `/` search, `a` add, `e` edit,
/// `d` delete, `t` tags, `q` quit; Enter opens, Escape quits. Wherever text
/// is typed, every character is text. In a form, Tab, Enter and Down go to
/// the next field, BackTab and Up to the one before. A deletion is
/// confirmed with `y` or Enter and declined with `n` or Escape.
pub open spec fn bound_event(mode: ModeView, key: Key) -> Option<Event> {
    match mode {
        ModeView::Browsing => match key {
            Key::Char(c) => if c == '/' {
                Some(Event::BeginSearch)
            } else if c == 'a' {
                Some(Event::BeginAdd)
            } else if c == 'e' {
                Some(Event::BeginEdit)
            } else if c == 'd' {
                Some(Event::BeginDelete)
            } else if c == 't' {
                Some(Event::BeginChooseTag)
            } else if c == 'q' {
                Some(Event::Quit)
            } else {
                None
            },
            Key::Enter => Some(Event::Open),
            Key::Escape => Some(Event::Quit),
            Key::Up => Some(Event::Previous),
            Key::Down => Some(Event::Next),
            _ => None,
        },
        ModeView::Searching => match key {
            Key::Char(c) => Some(Event::Insert(c)),
            Key::Backspace => Some(Event::Backspace),
            Key::Enter => Some(Event::Confirm),
            Key::Escape => Some(Event::Cancel),
            Key::Up => Some(Event::Previous),
            Key::Down => Some(Event::Next),
            _ => None,
        },
        ModeView::Adding(_) | ModeView::Editing(_, _) => match key {
            Key::Char(c) => Some(Event::Insert(c)),
            Key::Backspace => Some(Event::Backspace),
            Key::Enter | Key::Tab | Key::Down => Some(Event::NextField),
            Key::BackTab | Key::Up => Some(Event::PreviousField),
            Key::Escape => Some(Event::Cancel),
        },
        ModeView::ConfirmingDelete(_) => match key {
            Key::Char(c) => if c == 'y' {
                Some(Event::Confirm)
            } else if c == 'n' {
                Some(Event::Cancel)
            } else {
                None
            },
            Key::Enter => Some(Event::Confirm),
            Key::Escape => Some(Event::Cancel),
            _ => None,
        },
        ModeView::ChoosingTag => match key {
            Key::Enter => Some(Event::Confirm),
            Key::Escape => Some(Event::Cancel),
            Key::Up => Some(Event::Previous),
            Key::Down => Some(Event::Next),
            _ => None,
        },
    }
}

/// The event that `key` stands for in the mode `mode`, if it stands for
/// one.
pub fn interpret(mode: &Mode, key: Key) -> (event: Option<Event>)
    ensures
        event == bound_event(mode@, key),
{
    match mode {
        Mode::Browsing => match key {
            Key::Char(c) => if c == '/' {
                Some(Event::BeginSearch)
            } else if c == 'a' {
                Some(Event::BeginAdd)
            } else if c == 'e' {
                Some(Event::BeginEdit)
            } else if c == 'd' {
                Some(Event::BeginDelete)
            } else if c == 't' {
                Some(Event::BeginChooseTag)
            } else if c == 'q' {
                Some(Event::Quit)
            } else {
                None
            },
            Key::Enter => Some(Event::Open),
            Key::Escape => Some(Event::Quit),
            Key::Up => Some(Event::Previous),
            Key::Down => Some(Event::Next),
            _ => None,
        },
        Mode::Searching => match key {
            Key::Char(c) => Some(Event::Insert(c)),
            Key::Backspace => Some(Event::Backspace),
            Key::Enter => Some(Event::Confirm),
            Key::Escape => Some(Event::Cancel),
            Key::Up => Some(Event::Previous),
            Key::Down => Some(Event::Next),
            _ => None,
        },
        Mode::Adding(_) | Mode::Editing(_, _) => match key {
            Key::Char(c) => Some(Event::Insert(c)),
            Key::Backspace => Some(Event::Backspace),
            Key::Enter | Key::Tab | Key::Down => Some(Event::NextField),
            Key::BackTab | Key::Up => Some(Event::PreviousField),
            Key::Escape => Some(Event::Cancel),
        },
        Mode::ConfirmingDelete(_) => match key {
            Key::Char(c) => if c == 'y' {
                Some(Event::Confirm)
            } else if c == 'n' {
                Some(Event::Cancel)
            } else {
                None
            },
            Key::Enter => Some(Event::Confirm),
            Key::Escape => Some(Event::Cancel),
            _ => None,
        },
        Mode::ChoosingTag => match key {
            Key::Enter => Some(Event::Confirm),
            Key::Escape => Some(Event::Cancel),
            Key::Up => Some(Event::Previous),
            Key::Down => Some(Event::Next),
            _ => None,
        },
    }
}

/// The mode of a form with the focus on `field`: adding when there is no
/// target, editing the record with key `target` otherwise.
pub open spec fn form_mode(field: FieldCursor, target: Option<Seq<char>>) -> ModeView {
    match target {
        Some(key) => ModeView::Editing(field, key),
        None => ModeView::Adding(field),
    }
}

/// The row after `row` in the list of tag choices, which has one row more
/// than there are tags; from the last row it is the first.
pub open spec fn choice_after(row: int, tags: nat) -> int {
    if row >= tags {
        0
    } else {
        row + 1
    }
}

/// The row before `row` in the list of tag choices; from the first row it
/// is the last.
pub open spec fn choice_before(row: int, tags: nat) -> int {
    if row <= 0 {
        tags as int
    } else {
        row - 1
    }
}

/// A session as plain values.
pub struct SessionView {
    /// The collection.
    pub records: Seq<Record>,
    /// What the session is doing.
    pub mode: ModeView,
    /// The active query: the one that the visible set answers.
    pub query: Seq<char>,
    /// What has been typed since the search began.
    pub buffer: Seq<char>,
    /// The tag constraint.
    pub tag: Option<Seq<char>>,
    /// The visible set and its highlighted row.
    pub selection: SelectionView,
    /// The draft of the record being added or edited.
    pub form: FormView,
    /// The tags on offer while the tag constraint is chosen.
    pub tag_choices: Seq<Seq<char>>,
    /// The highlighted row of the tag choices: 0 stands for no constraint,
    /// and a row above 0 for the tag one place before it.
    pub tag_cursor: int,
}

impl SessionView {
    /// The invariant of a session: keys are distinct, the query can be
    /// scored, the visible set is that of the collection for the query and
    /// the tag constraint, the cursor is on one of its rows unless it is
    /// empty, and the tag cursor is on one of the choices.
    pub open spec fn wf(self) -> bool {
        &&& distinct_keys(self.records)
        &&& scorable(self.query)
        &&& is_visible_set(self.records, self.query, self.tag, self.selection.visible)
        &&& self.selection.wf()
        &&& 0 <= self.tag_cursor <= self.tag_choices.len()
    }

    /// The session at its start, over the collection `records`: browsing,
    /// without query and constraint, the first record selected.
    pub open spec fn initial(records: Seq<Record>) -> SessionView {
        SessionView {
            records,
            mode: ModeView::Browsing,
            query: Seq::<char>::empty(),
            buffer: Seq::<char>::empty(),
            tag: None,
            selection: SelectionView::over(visible_set(records, Seq::<char>::empty(), None)),
            form: FormView::blank(),
            tag_choices: Seq::<Seq<char>>::empty(),
            tag_cursor: 0,
        }
    }

    /// The session with the visible set computed anew and the cursor on its
    /// first row.
    pub open spec fn refiltered(self) -> SessionView {
        SessionView {
            selection: SelectionView::over(visible_set(self.records, self.query, self.tag)),
            ..self
        }
    }

    /// The place in the collection of the selected record.
    pub open spec fn selected(self) -> Option<usize> {
        self.selection.current(self.records.len())
    }

    /// The record that the form describes.
    pub open spec fn drafted(self) -> Record {
        Record { key: self.form.name, bookmark: self.form.bookmark() }
    }

    /// The session after the selection has moved as `event` says; other
    /// events leave it as it is.
    pub open spec fn moved(self, event: Event) -> SessionView {
        match event {
            Event::Next => SessionView { selection: self.selection.next(), ..self },
            Event::Previous => SessionView { selection: self.selection.previous(), ..self },
            Event::Select(row) => SessionView {
                selection: self.selection.select_index(row as int),
                ..self
            },
            _ => self,
        }
    }

    /// One step while browsing.
    pub open spec fn step_browsing(self, event: Event) -> (SessionView, OutcomeView) {
        match event {
            Event::BeginSearch => (
                SessionView { mode: ModeView::Searching, buffer: Seq::<char>::empty(), ..self },
                OutcomeView::Continue,
            ),
            Event::BeginAdd => (
                SessionView {
                    mode: ModeView::Adding(FieldCursor::Name),
                    form: FormView::blank(),
                    ..self
                },
                OutcomeView::Continue,
            ),
            Event::BeginEdit => match self.selected() {
                Some(at) => (
                    SessionView {
                        mode: ModeView::Editing(FieldCursor::Name, self.records[at as int].key),
                        form: FormView::showing(
                            self.records[at as int].key,
                            self.records[at as int].bookmark,
                        ),
                        ..self
                    },
                    OutcomeView::Continue,
                ),
                None => (self, OutcomeView::Continue),
            },
            Event::BeginDelete => match self.selected() {
                Some(at) => (
                    SessionView {
                        mode: ModeView::ConfirmingDelete(self.records[at as int].key),
                        ..self
                    },
                    OutcomeView::Continue,
                ),
                None => (self, OutcomeView::Continue),
            },
            Event::BeginChooseTag => (
                SessionView {
                    mode: ModeView::ChoosingTag,
                    tag_choices: all_tags(self.records),
                    tag_cursor: 0,
                    ..self
                },
                OutcomeView::Continue,
            ),
            Event::Open => match self.selected() {
                Some(at) => (
                    self,
                    OutcomeView::Finished(Some(self.records[at as int].bookmark.url)),
                ),
                None => (self, OutcomeView::Continue),
            },
            Event::Quit => (self, OutcomeView::Finished(None)),
            _ => (self.moved(event), OutcomeView::Continue),
        }
    }

    /// The session after the search buffer has become `typed`: the buffer
    /// is the active query and the visible set follows it. A buffer that is
    /// too long to be scored is refused.
    pub open spec fn searched(self, typed: Seq<char>) -> (SessionView, OutcomeView) {
        if scorable(typed) {
            (SessionView { buffer: typed, query: typed, ..self }.refiltered(), OutcomeView::Continue)
        } else {
            (self, OutcomeView::Rejected(SessionError::QueryTooLong))
        }
    }

    /// One step while searching.
    pub open spec fn step_searching(self, event: Event) -> (SessionView, OutcomeView) {
        match event {
            Event::Insert(c) => self.searched(self.buffer.push(c)),
            Event::Backspace => self.searched(
                if self.buffer.len() == 0 {
                    self.buffer
                } else {
                    self.buffer.drop_last()
                },
            ),
            Event::Confirm => (
                SessionView { mode: ModeView::Browsing, ..self },
                OutcomeView::Continue,
            ),
            Event::Cancel => (
                SessionView {
                    mode: ModeView::Browsing,
                    query: Seq::<char>::empty(),
                    buffer: Seq::<char>::empty(),
                    ..self
                }.refiltered(),
                OutcomeView::Continue,
            ),
            _ => (self.moved(event), OutcomeView::Continue),
        }
    }

    /// The session back in browsing with the form discarded.
    pub open spec fn form_closed(self) -> SessionView {
        SessionView { mode: ModeView::Browsing, form: FormView::blank(), ..self }
    }

    /// The attempt to commit the form: as a new record when there is no
    /// target, in the place of the record with key `target` otherwise.
    ///
    /// A form without name or url is refused and nothing changes. A name
    /// that belongs to another record is refused and nothing changes. A
    /// target that is gone closes the form and changes nothing else.
    /// Otherwise the record goes into the collection, the form is closed,
    /// the visible set is computed anew and the collection is to be saved.
    pub open spec fn committed(self, target: Option<Seq<char>>) -> (SessionView, OutcomeView) {
        if !self.form.is_complete() {
            (self, OutcomeView::Rejected(SessionError::InvalidForm))
        } else {
            match target {
                None => if has_key(self.records, self.form.name) {
                    (self, OutcomeView::Rejected(SessionError::DuplicateKey))
                } else {
                    (
                        SessionView {
                            records: self.records.push(self.drafted()),
                            ..self.form_closed()
                        }.refiltered(),
                        OutcomeView::Persist,
                    )
                },
                Some(key) => if !has_key(self.records, key) {
                    (self.form_closed(), OutcomeView::Rejected(SessionError::RecordNotFound))
                } else if self.form.name != key && has_key(self.records, self.form.name) {
                    (self, OutcomeView::Rejected(SessionError::DuplicateKey))
                } else {
                    (
                        SessionView {
                            records: self.records.update(
                                index_of(self.records, key),
                                self.drafted(),
                            ),
                            ..self.form_closed()
                        }.refiltered(),
                        OutcomeView::Persist,
                    )
                },
            }
        }
    }

    /// One step in a form with the focus on `field`.
    pub open spec fn step_form(self, field: FieldCursor, target: Option<Seq<char>>, event: Event) -> (
        SessionView,
        OutcomeView,
    ) {
        match event {
            Event::Insert(c) => (
                SessionView { form: self.form.typed(field, c), ..self },
                OutcomeView::Continue,
            ),
            Event::Backspace => (
                SessionView { form: self.form.erased(field), ..self },
                OutcomeView::Continue,
            ),
            Event::PreviousField => (
                SessionView { mode: form_mode(field.preceding(), target), ..self },
                OutcomeView::Continue,
            ),
            Event::NextField => match field.following() {
                Some(next) => (
                    SessionView { mode: form_mode(next, target), ..self },
                    OutcomeView::Continue,
                ),
                None => self.committed(target),
            },
            Event::Cancel => (self.form_closed(), OutcomeView::Continue),
            _ => (self, OutcomeView::Continue),
        }
    }

    /// One step while a deletion of the record with key `key` waits for its
    /// confirmation.
    pub open spec fn step_confirming(self, key: Seq<char>, event: Event) -> (
        SessionView,
        OutcomeView,
    ) {
        match event {
            Event::Confirm => if has_key(self.records, key) {
                (
                    SessionView {
                        records: self.records.remove(index_of(self.records, key)),
                        mode: ModeView::Browsing,
                        ..self
                    }.refiltered(),
                    OutcomeView::Persist,
                )
            } else {
                (
                    SessionView { mode: ModeView::Browsing, ..self },
                    OutcomeView::Rejected(SessionError::RecordNotFound),
                )
            },
            Event::Cancel => (
                SessionView { mode: ModeView::Browsing, ..self },
                OutcomeView::Continue,
            ),
            _ => (self, OutcomeView::Continue),
        }
    }

    /// The tag constraint that the highlighted choice stands for.
    pub open spec fn chosen_tag(self) -> Option<Seq<char>> {
        if 0 < self.tag_cursor <= self.tag_choices.len() {
            Some(self.tag_choices[self.tag_cursor - 1])
        } else {
            None
        }
    }

    /// One step while the tag constraint is chosen.
    pub open spec fn step_choosing(self, event: Event) -> (SessionView, OutcomeView) {
        match event {
            Event::Next => (
                SessionView {
                    tag_cursor: choice_after(self.tag_cursor, self.tag_choices.len()),
                    ..self
                },
                OutcomeView::Continue,
            ),
            Event::Previous => (
                SessionView {
                    tag_cursor: choice_before(self.tag_cursor, self.tag_choices.len()),
                    ..self
                },
                OutcomeView::Continue,
            ),
            Event::Select(row) => (
                if row <= self.tag_choices.len() {
                    SessionView { tag_cursor: row as int, ..self }
                } else {
                    self
                },
                OutcomeView::Continue,
            ),
            Event::Confirm => (
                SessionView {
                    mode: ModeView::Browsing,
                    tag: self.chosen_tag(),
                    ..self
                }.refiltered(),
                OutcomeView::Continue,
            ),
            Event::Cancel => (
                SessionView { mode: ModeView::Browsing, ..self },
                OutcomeView::Continue,
            ),
            _ => (self, OutcomeView::Continue),
        }
    }

    /// The transition function of the session: the state after `event`, and
    /// what the caller has to do.
    pub open spec fn step(self, event: Event) -> (SessionView, OutcomeView) {
        match self.mode {
            ModeView::Browsing => self.step_browsing(event),
            ModeView::Searching => self.step_searching(event),
            ModeView::Adding(field) => self.step_form(field, None, event),
            ModeView::Editing(field, key) => self.step_form(field, Some(key), event),
            ModeView::ConfirmingDelete(key) => self.step_confirming(key, event),
            ModeView::ChoosingTag => self.step_choosing(event),
        }
    }
}

/// In every state that meets the invariant something is selected exactly
/// when something is visible, and what is selected is a place of the
/// collection.
pub proof fn lemma_selected_iff_visible(session: SessionView)
    requires
        session.wf(),
    ensures
        session.selection.visible.len() > 0 <==> session.selected() is Some,
        session.selected() matches Some(at) ==> at < session.records.len(),
{
    if session.selection.visible.len() > 0 {
        let row = session.selection.cursor->0;
        assert(session.selection.visible[row] < session.records.len());
    }
}

/// The collection changes only in a step that asks for it to be saved.
pub proof fn lemma_mutation_is_persisted(session: SessionView, event: Event)
    ensures
        session.step(event).1 != OutcomeView::Persist ==> session.step(event).0.records
            == session.records,
{
}

/// A session ends only while browsing: by `Quit` without a url, or by
/// `Open` with the url of the selected record. Ending changes nothing.
pub proof fn lemma_finishes_only_while_browsing(session: SessionView, event: Event)
    requires
        session.step(event).1 is Finished,
    ensures
        session.mode is Browsing,
        session.step(event).0 == session,
        event == Event::Quit || event == Event::Open,
        event == Event::Quit ==> session.step(event).1 == OutcomeView::Finished(None),
        event == Event::Open ==> session.selected() is Some && session.step(event).1
            == OutcomeView::Finished(
            Some(session.records[session.selected()->0 as int].bookmark.url),
        ),
{
}

/// A refused event leaves the collection, the query, the tag constraint and
/// the selection as they were. The mode and the form stay too, unless the
/// record that was to be changed or deleted is gone: then the session goes
/// back to browsing.
pub proof fn lemma_refusal_changes_nothing(session: SessionView, event: Event)
    ensures
        session.step(event).1 matches OutcomeView::Rejected(error) ==> {
            &&& session.step(event).0.records == session.records
            &&& session.step(event).0.query == session.query
            &&& session.step(event).0.tag == session.tag
            &&& session.step(event).0.selection == session.selection
            &&& error != SessionError::RecordNotFound ==> session.step(event).0 == session
            &&& error == SessionError::RecordNotFound ==> session.step(event).0.mode
                == ModeView::Browsing
        },
{
}

/// Committing a form that lacks its name or its url is refused as invalid:
/// the session stays in the tags field and nothing changes.
pub proof fn lemma_incomplete_form_is_refused(session: SessionView, target: Option<Seq<char>>)
    requires
        session.mode == form_mode(FieldCursor::Tags, target),
        !session.form.is_complete(),
    ensures
        session.step(Event::NextField) == (
            session,
            OutcomeView::Rejected(SessionError::InvalidForm),
        ),
{
}

/// A confirmed deletion takes exactly the record with the stored key out of
/// the collection, keeps the others in their order, and asks for the
/// collection to be saved.
pub proof fn lemma_confirmed_delete_removes_one(session: SessionView, key: Seq<char>, at: int)
    requires
        distinct_keys(session.records),
        session.mode == ModeView::ConfirmingDelete(key),
        key_at_index(session.records, key, at),
    ensures
        session.step(Event::Confirm).1 == OutcomeView::Persist,
        session.step(Event::Confirm).0.records == session.records.remove(at),
        session.step(Event::Confirm).0.records.len() == session.records.len() - 1,
        !has_key(session.step(Event::Confirm).0.records, key),
        session.step(Event::Confirm).0.mode == ModeView::Browsing,
{
    lemma_index_of(session.records, key, at);
    let rest = session.records.remove(at);
    if has_key(rest, key) {
        let k = choose|k: int| 0 <= k < rest.len() && (#[trigger] rest[k]).key == key;
        let origin = if k < at {
            k
        } else {
            k + 1
        };
        assert(rest[k] == session.records[origin]);
        assert(session.records[origin].key != session.records[at].key);
    }
}

/// Every step keeps the invariant of the session: keys stay distinct, the
/// visible set is that of the collection for the active query and tag
/// constraint, and the cursor is on one of its rows unless it is empty.
pub proof fn lemma_step_keeps_invariant(session: SessionView, event: Event)
    requires
        session.wf(),
        session.records.len() < usize::MAX,
    ensures
        session.step(event).0.wf(),
{
    let next = session.step(event).0;
    let records = session.records;
    lemma_moves_keep_selection(session.selection, records.len());
    // the collection after the step has distinct keys
    match session.mode {
        ModeView::Adding(field) => {
            if next.records != records {
                let added = session.drafted();
                assert(next.records == records.push(added));
                assert forall|i: int, j: int|
                    0 <= i < next.records.len() && 0 <= j < next.records.len() && i
                        != j implies (#[trigger] next.records[i]).key
                    != (#[trigger] next.records[j]).key by {
                    if i < records.len() {
                        assert(next.records[i] == records[i]);
                    }
                    if j < records.len() {
                        assert(next.records[j] == records[j]);
                    }
                }
            }
        },
        ModeView::Editing(field, key) => {
            if next.records != records {
                let at = index_of(records, key);
                let drafted = session.drafted();
                lemma_has_key_index(records, key);
                assert(next.records == records.update(at, drafted));
                assert forall|i: int, j: int|
                    0 <= i < next.records.len() && 0 <= j < next.records.len() && i
                        != j implies (#[trigger] next.records[i]).key
                    != (#[trigger] next.records[j]).key by {
                    if i != at {
                        assert(next.records[i] == records[i]);
                    }
                    if j != at {
                        assert(next.records[j] == records[j]);
                    }
                }
            }
        },
        ModeView::ConfirmingDelete(key) => {
            if next.records != records {
                let at = index_of(records, key);
                lemma_has_key_index(records, key);
                assert(next.records == records.remove(at));
                assert forall|i: int, j: int|
                    0 <= i < next.records.len() && 0 <= j < next.records.len() && i
                        != j implies (#[trigger] next.records[i]).key
                    != (#[trigger] next.records[j]).key by {
                    let a = if i < at {
                        i
                    } else {
                        i + 1
                    };
                    let b = if j < at {
                        j
                    } else {
                        j + 1
                    };
                    assert(next.records[i] == records[a]);
                    assert(next.records[j] == records[b]);
                }
            }
        },
        _ => {},
    }
    assert(distinct_keys(next.records));
    lemma_visible_set_exists(next.records, next.query, next.tag);
    let listed = visible_set(next.records, next.query, next.tag);
    lemma_current_after_refilter(next.records, next.query, next.tag, listed);
}

/// An optional text as plain values.
pub open spec fn text_view(text: Option<String>) -> Option<Seq<char>> {
    match text {
        Some(t) => Some(t@),
        None => None,
    }
}

/// One session: the collection and everything the interaction needs to
/// remember between two events.
pub struct SessionState {
    bookmarks: Bookmarks,
    mode: Mode,
    query: Query,
    buffer: String,
    tag: Option<String>,
    selection: Selection,
    form: FormBuffer,
    tag_choices: Vec<String>,
    tag_cursor: usize,
}

impl View for SessionState {
    type V = SessionView;

    closed spec fn view(&self) -> SessionView {
        SessionView {
            records: self.bookmarks@,
            mode: self.mode@,
            query: self.query@,
            buffer: self.buffer@,
            tag: text_view(self.tag),
            selection: self.selection@,
            form: self.form@,
            tag_choices: strings_view(self.tag_choices@),
            tag_cursor: self.tag_cursor as int,
        }
    }
}

impl SessionState {
    /// The invariant of a session: that of its view, and the query is kept
    /// folded.
    pub closed spec fn wf(&self) -> bool {
        &&& self.query.wf()
        &&& self@.wf()
    }

    /// A session over `bookmarks` at its start: browsing, without query
    /// and tag constraint, every record visible and the first one selected.
    pub fn new(bookmarks: Bookmarks) -> (session: SessionState)
        requires
            bookmarks.wf(),
        ensures
            session.wf(),
            session@.wf(),
            session@ == SessionView::initial(bookmarks@),
    {
        let query = Query::empty();
        let visible = filter(&bookmarks, &query, None);
        assert(strings_view(Seq::<String>::empty()) =~= Seq::<Seq<char>>::empty());
        SessionState {
            bookmarks,
            mode: Mode::Browsing,
            query,
            buffer: String::new(),
            tag: None,
            selection: Selection::new(visible),
            form: FormBuffer::new(),
            tag_choices: Vec::new(),
            tag_cursor: 0,
        }
    }

    /// The collection.
    pub fn bookmarks(&self) -> (bookmarks: &Bookmarks)
        ensures
            bookmarks@ == self@.records,
            self.wf() ==> bookmarks.wf(),
    {
        &self.bookmarks
    }

    /// What the session is doing.
    pub fn mode(&self) -> (mode: &Mode)
        ensures
            mode@ == self@.mode,
    {
        &self.mode
    }

    /// The active query.
    pub fn query(&self) -> (query: &Query)
        ensures
            query@ == self@.query,
            self.wf() ==> query.wf(),
    {
        &self.query
    }

    /// What has been typed since the search began.
    pub fn search_buffer(&self) -> (buffer: &String)
        ensures
            buffer@ == self@.buffer,
    {
        &self.buffer
    }

    /// The tag constraint.
    pub fn tag(&self) -> (tag: &Option<String>)
        ensures
            text_view(*tag) == self@.tag,
    {
        &self.tag
    }

    /// The visible set and its highlighted row.
    pub fn selection(&self) -> (selection: &Selection)
        ensures
            selection@ == self@.selection,
    {
        &self.selection
    }

    /// The draft of the record being added or edited.
    pub fn form(&self) -> (form: &FormBuffer)
        ensures
            form@ == self@.form,
    {
        &self.form
    }

    /// The tags on offer while the tag constraint is chosen.
    pub fn tag_choices(&self) -> (choices: &Vec<String>)
        ensures
            strings_view(choices@) == self@.tag_choices,
    {
        &self.tag_choices
    }

    /// The highlighted row of the tag choices; row 0 stands for no
    /// constraint.
    pub fn tag_cursor(&self) -> (row: usize)
        ensures
            row == self@.tag_cursor,
    {
        self.tag_cursor
    }

    /// The place in the collection of the selected record, if one is
    /// selected.
    pub fn selected(&self) -> (place: Option<usize>)
        ensures
            place == self@.selected(),
            place matches Some(at) ==> at < self@.records.len(),
    {
        self.selection.current(self.bookmarks.len())
    }

    /// The key of the selected record, if one is selected.
    pub fn get_selected_key(&self) -> (key: Option<String>)
        ensures
            match self@.selected() {
                Some(at) => key matches Some(k) && k@ == self@.records[at as int].key,
                None => key.is_none(),
            },
    {
        match self.selection.current(self.bookmarks.len()) {
            Some(at) => Some(self.bookmarks.key_at(at).clone()),
            None => None,
        }
    }

    /// Computes the visible set anew and puts the cursor on its first row.
    fn refilter(&mut self)
        requires
            old(self).bookmarks.wf(),
            old(self).query.wf(),
            old(self).tag_cursor <= old(self).tag_choices@.len(),
        ensures
            final(self)@ == old(self)@.refiltered(),
            final(self).wf(),
    {
        let tag: Option<&str> = match &self.tag {
            Some(text) => Some(text.as_str()),
            None => None,
        };
        let visible = filter(&self.bookmarks, &self.query, tag);
        self.selection.reset(visible);
    }

    /// One event while browsing.
    fn browse(&mut self, event: Event) -> (outcome: Outcome)
        requires
            old(self).wf(),
            old(self)@.mode is Browsing,
        ensures
            final(self).wf(),
            (final(self)@, outcome@) == old(self)@.step(event),
    {
        match event {
            Event::BeginSearch => {
                self.mode = Mode::Searching;
                self.buffer = String::new();
                Outcome::Continue
            },
            Event::BeginAdd => {
                self.mode = Mode::Adding(FieldCursor::Name);
                self.form = FormBuffer::new();
                Outcome::Continue
            },
            Event::BeginEdit => {
                match self.selection.current(self.bookmarks.len()) {
                    Some(at) => {
                        let key = self.bookmarks.key_at(at).clone();
                        self.form = FormBuffer::from_record(key.as_str(), self.bookmarks.bookmark_at(at));
                        self.mode = Mode::Editing(FieldCursor::Name, key);
                    },
                    None => {},
                }
                Outcome::Continue
            },
            Event::BeginDelete => {
                match self.selection.current(self.bookmarks.len()) {
                    Some(at) => {
                        let key = self.bookmarks.key_at(at).clone();
                        self.mode = Mode::ConfirmingDelete(key);
                    },
                    None => {},
                }
                Outcome::Continue
            },
            Event::BeginChooseTag => {
                self.tag_choices = get_all_tags(&self.bookmarks);
                self.tag_cursor = 0;
                self.mode = Mode::ChoosingTag;
                Outcome::Continue
            },
            Event::Open => {
                match self.selection.current(self.bookmarks.len()) {
                    Some(at) => Outcome::Finished(
                        Some(self.bookmarks.bookmark_at(at).url.clone()),
                    ),
                    None => Outcome::Continue,
                }
            },
            Event::Quit => Outcome::Finished(None),
            _ => {
                self.move_selection(event);
                Outcome::Continue
            },
        }
    }

    /// Moves the selection as `event` says; other events change nothing.
    fn move_selection(&mut self, event: Event)
        requires
            old(self).wf(),
        ensures
            final(self).wf(),
            final(self)@ == old(self)@.moved(event),
    {
        match event {
            Event::Next => self.selection.next(),
            Event::Previous => self.selection.previous(),
            Event::Select(row) => {
                self.selection.select_index(row);
            },
            _ => {},
        }
    }

    /// Makes `typed` the search buffer and the active query, unless it is too
    /// long to be scored.
    fn search_for(&mut self, typed: String) -> (outcome: Outcome)
        requires
            old(self).wf(),
        ensures
            final(self).wf(),
            (final(self)@, outcome@) == old(self)@.searched(typed@),
    {
        match Query::new(typed.as_str()) {
            Some(query) => {
                self.buffer = typed;
                self.query = query;
                self.refilter();
                Outcome::Continue
            },
            None => Outcome::Rejected(SessionError::QueryTooLong),
        }
    }

    /// One event while searching.
    fn search(&mut self, event: Event) -> (outcome: Outcome)
        requires
            old(self).wf(),
            old(self)@.mode is Searching,
        ensures
            final(self).wf(),
            (final(self)@, outcome@) == old(self)@.step(event),
    {
        match event {
            Event::Insert(c) => {
                let mut typed = self.buffer.clone();
                typed.push(c);
                self.search_for(typed)
            },
            Event::Backspace => {
                let mut typed = self.buffer.clone();
                typed.pop();
                self.search_for(typed)
            },
            Event::Confirm => {
                self.mode = Mode::Browsing;
                Outcome::Continue
            },
            Event::Cancel => {
                self.mode = Mode::Browsing;
                self.query = Query::empty();
                self.buffer = String::new();
                self.refilter();
                Outcome::Continue
            },
            _ => {
                self.move_selection(event);
                Outcome::Continue
            },
        }
    }

    /// Goes back to browsing and discards the form.
    fn close_form(&mut self)
        ensures
            final(self)@ == old(self)@.form_closed(),
            final(self).bookmarks == old(self).bookmarks,
            final(self).query == old(self).query,
            final(self).tag_cursor == old(self).tag_cursor,
            final(self).tag_choices == old(self).tag_choices,
            old(self).wf() ==> final(self).wf(),
    {
        self.mode = Mode::Browsing;
        self.form = FormBuffer::new();
    }

    /// Tries to commit the form: as a new record without a target, in the
    /// place of the record with key `target` otherwise.
    fn commit(&mut self, target: Option<String>) -> (outcome: Outcome)
        requires
            old(self).wf(),
        ensures
            final(self).wf(),
            (final(self)@, outcome@) == old(self)@.committed(text_view(target)),
    {
        if !self.form.is_complete() {
            return Outcome::Rejected(SessionError::InvalidForm);
        }
        let ghost before = self@;
        let key = self.form.name.clone();
        let url = self.form.url.clone();
        let desc = self.form.description.clone();
        let tags = parse_tags(self.form.tags.as_str());
        match target {
            None => {
                match add_bookmark(&mut self.bookmarks, key, url, desc, tags) {
                    Ok(()) => {
                        self.close_form();
                        self.refilter();
                        Outcome::Persist
                    },
                    Err(_) => Outcome::Rejected(SessionError::DuplicateKey),
                }
            },
            Some(wanted) => {
                let bookmark = Bookmark { url, desc, tags };
                match self.bookmarks.replace(wanted.as_str(), key, bookmark) {
                    Ok(()) => {
                        proof {
                            let at = choose|at: int|
                                key_at_index(before.records, wanted@, at) && self.bookmarks@
                                    == #[trigger] before.records.update(at, before.drafted());
                            lemma_index_of(before.records, wanted@, at);
                        }
                        self.close_form();
                        self.refilter();
                        Outcome::Persist
                    },
                    Err(BookmarkError::NotFound(_)) => {
                        self.close_form();
                        Outcome::Rejected(SessionError::RecordNotFound)
                    },
                    Err(BookmarkError::AlreadyExists(_)) => Outcome::Rejected(
                        SessionError::DuplicateKey,
                    ),
                }
            },
        }
    }

    /// One event in a form with the focus on `field`.
    fn fill_in(&mut self, field: FieldCursor, target: Option<String>, event: Event) -> (outcome:
        Outcome)
        requires
            old(self).wf(),
            old(self)@.mode == form_mode(field, text_view(target)),
        ensures
            final(self).wf(),
            (final(self)@, outcome@) == old(self)@.step(event),
    {
        match event {
            Event::Insert(c) => {
                self.form.insert(field, c);
                Outcome::Continue
            },
            Event::Backspace => {
                self.form.backspace(field);
                Outcome::Continue
            },
            Event::PreviousField => {
                self.mode = match target {
                    Some(key) => Mode::Editing(field.previous(), key),
                    None => Mode::Adding(field.previous()),
                };
                Outcome::Continue
            },
            Event::NextField => {
                match field.next() {
                    Some(next) => {
                        self.mode = match target {
                            Some(key) => Mode::Editing(next, key),
                            None => Mode::Adding(next),
                        };
                        Outcome::Continue
                    },
                    None => self.commit(target),
                }
            },
            Event::Cancel => {
                self.close_form();
                Outcome::Continue
            },
            _ => Outcome::Continue,
        }
    }

    /// One event while the deletion of the record with key `key` waits for
    /// its confirmation.
    fn confirm_delete(&mut self, key: String, event: Event) -> (outcome: Outcome)
        requires
            old(self).wf(),
            old(self)@.mode == ModeView::ConfirmingDelete(key@),
        ensures
            final(self).wf(),
            (final(self)@, outcome@) == old(self)@.step(event),
    {
        let ghost before = self@;
        match event {
            Event::Confirm => {
                match delete_bookmark(&mut self.bookmarks, key.as_str()) {
                    Ok(()) => {
                        proof {
                            let at = choose|at: int|
                                key_at_index(before.records, key@, at) && self.bookmarks@
                                    == #[trigger] before.records.remove(at);
                            lemma_index_of(before.records, key@, at);
                        }
                        self.mode = Mode::Browsing;
                        self.refilter();
                        Outcome::Persist
                    },
                    Err(_) => {
                        self.mode = Mode::Browsing;
                        Outcome::Rejected(SessionError::RecordNotFound)
                    },
                }
            },
            Event::Cancel => {
                self.mode = Mode::Browsing;
                Outcome::Continue
            },
            _ => Outcome::Continue,
        }
    }

    /// One event while the tag constraint is chosen.
    fn choose_tag(&mut self, event: Event) -> (outcome: Outcome)
        requires
            old(self).wf(),
            old(self)@.mode is ChoosingTag,
        ensures
            final(self).wf(),
            (final(self)@, outcome@) == old(self)@.step(event),
    {
        match event {
            Event::Next => {
                self.tag_cursor = if self.tag_cursor >= self.tag_choices.len() {
                    0
                } else {
                    self.tag_cursor + 1
                };
                Outcome::Continue
            },
            Event::Previous => {
                self.tag_cursor = if self.tag_cursor == 0 {
                    self.tag_choices.len()
                } else {
                    self.tag_cursor - 1
                };
                Outcome::Continue
            },
            Event::Select(row) => {
                if row <= self.tag_choices.len() {
                    self.tag_cursor = row;
                }
                Outcome::Continue
            },
            Event::Confirm => {
                self.tag = if self.tag_cursor > 0 {
                    Some(self.tag_choices[self.tag_cursor - 1].clone())
                } else {
                    None
                };
                self.mode = Mode::Browsing;
                self.refilter();
                Outcome::Continue
            },
            Event::Cancel => {
                self.mode = Mode::Browsing;
                Outcome::Continue
            },
            _ => Outcome::Continue,
        }
    }

    /// Takes one event: moves the session to the state that
    /// [`SessionView::step`] gives for it, and tells the caller what to do.
    ///
    /// The collection changes only where the outcome is `Persist`. After
    /// `Finished` the session is over; its state is as it was.
    pub fn handle_event(&mut self, event: Event) -> (outcome: Outcome)
        requires
            old(self).wf(),
        ensures
            final(self).wf(),
            final(self)@.wf(),
            (final(self)@, outcome@) == old(self)@.step(event),
            !(outcome is Persist) ==> final(self)@.records == old(self)@.records,
    {
        let mode = self.mode.clone();
        match mode {
            Mode::Browsing => self.browse(event),
            Mode::Searching => self.search(event),
            Mode::Adding(field) => self.fill_in(field, None, event),
            Mode::Editing(field, key) => self.fill_in(field, Some(key), event),
            Mode::ConfirmingDelete(key) => self.confirm_delete(key, event),
            Mode::ChoosingTag => self.choose_tag(event),
        }
    }

    /// Takes one key: the event that it stands for in the present mode is
    /// handled as [`SessionState::handle_event`] does; a key that stands
    /// for nothing changes nothing.
    pub fn handle_key(&mut self, key: Key) -> (outcome: Outcome)
        requires
            old(self).wf(),
        ensures
            final(self).wf(),
            final(self)@.wf(),
            match bound_event(old(self)@.mode, key) {
                Some(event) => (final(self)@, outcome@) == old(self)@.step(event),
                None => final(self)@ == old(self)@ && outcome@ == OutcomeView::Continue,
            },
    {
        match interpret(&self.mode, key) {
            Some(event) => self.handle_event(event),
            None => Outcome::Continue,
        }
    }
}

} // verus!
