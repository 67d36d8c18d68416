//! The session's state and the actions the user can take on it.
use vstd::prelude::*;
use std::time::Duration;
use crate::types::assignment::{Assignment, AssignmentView};
use crate::types::data::{lemma_remaining_row, merged_row, remaining, remaining_row, Data, DataView};
use crate::types::error::Error;
use crate::types::grade::Grade;
use crate::types::merge::{
    lemma_merge_all_keeps_places, lemma_merge_respects_user_completion, merge_all, merged,
};
use crate::types::order::{lemma_sorted_row, lemma_stable_sort_sorts, sorted_row, stable_sort, SortOrder};
use crate::types::timestamp::Timestamp;

verus! {

/// The particulars of a new assignment that can be edited.
#[derive(PartialEq, Eq, Copy, Clone, Debug, Structural)]
pub enum AssignmentField {
    Course,
    Name,
    DueDate,
}

/// What the keys currently mean: browsing the list, or filling in a new
/// assignment field by field.
#[derive(PartialEq, Eq, Copy, Clone, Debug, Structural)]
pub enum Mode {
    Normal,
    NewAssignment(AssignmentField),
}

/// The row of a list that is highlighted, if any.
#[derive(PartialEq, Eq, Copy, Clone, Debug, Structural)]
pub struct SelectState {
    pub selected: Option<usize>,
}

impl SelectState {
    /// The highlighted row as a mathematical index.
    pub open spec fn index(self) -> Option<int> {
        match self.selected {
            Some(i) => Some(i as int),
            None => None,
        }
    }

    /// Nothing highlighted.
    pub fn new() -> (state: SelectState)
        ensures
            state.selected.is_none(),
    {
        SelectState { selected: None }
    }

    /// The highlighted row.
    pub fn selected(&self) -> (row: Option<usize>)
        ensures
            row == self.selected,
    {
        self.selected
    }

    /// Highlights `row`, or nothing.
    pub fn select(&mut self, row: Option<usize>)
        ensures
            final(self).selected == row,
    {
        self.selected = row;
    }
}

/// The session: where the dataset is stored, how often the display
/// ticks, which courses are followed, what is highlighted, the dataset
/// itself and the current mode.
pub struct App {
    pub data_path: String,
    pub tick_rate: Duration,
    pub course_ids: Vec<u32>,
    pub assignments_state: SelectState,
    pub links_state: SelectState,
    pub data: Data,
    pub mode: Mode,
}

/// The mathematical value of an `App`.
pub struct AppView {
    pub data_path: Seq<char>,
    pub tick_rate: Duration,
    pub course_ids: Seq<u32>,
    pub selected: Option<int>,
    pub selected_link: Option<int>,
    pub data: DataView,
    pub mode: Mode,
}

impl View for App {
    type V = AppView;

    open spec fn view(&self) -> AppView {
        AppView {
            data_path: self.data_path@,
            tick_rate: self.tick_rate,
            course_ids: self.course_ids@,
            selected: self.assignments_state.index(),
            selected_link: self.links_state.index(),
            data: self.data@,
            mode: self.mode,
        }
    }
}

/// `std`'s `String::push`: the character is appended.
pub assume_specification[ String::push ](text: &mut String, ch: char)
    ensures
        final(text)@ == old(text)@.push(ch),
;

/// `std`'s `String::pop`: the last character is removed and returned;
/// an empty string stays empty and gives `None`.
pub assume_specification[ String::pop ](text: &mut String) -> (ch: Option<char>)
    ensures
        match ch {
            Some(c) => old(text)@.len() > 0 && c == old(text)@.last() && final(text)@ == old(
                text,
            )@.drop_last(),
            None => old(text)@.len() == 0 && final(text)@ == old(text)@,
        },
;

/// Index of the first record of `s` with the fingerprint `hash`, or the
/// length of `s` where there is none.
pub open spec fn fingerprint_index(s: Seq<AssignmentView>, hash: u64) -> int
    decreases s.len(),
{
    if s.len() == 0 {
        0
    } else {
        let before = fingerprint_index(s.drop_last(), hash);
        if before < s.len() - 1 {
            before
        } else if s.last().fingerprint() == hash {
            s.len() - 1
        } else {
            s.len() as int
        }
    }
}

/// `fingerprint_index` is the first index at which the fingerprint stands.
pub proof fn lemma_fingerprint_index(s: Seq<AssignmentView>, hash: u64)
    ensures
        0 <= fingerprint_index(s, hash) <= s.len(),
        forall|j: int| 0 <= j < fingerprint_index(s, hash) ==> (#[trigger] s[j]).fingerprint() != hash,
        fingerprint_index(s, hash) < s.len() ==> s[fingerprint_index(s, hash)].fingerprint() == hash,
    decreases s.len(),
{
    if s.len() > 0 {
        lemma_fingerprint_index(s.drop_last(), hash);
        assert forall|j: int| 0 <= j < fingerprint_index(s, hash) implies (#[trigger] s[j]).fingerprint()
            != hash by {
            if j < s.len() - 1 {
                assert(s.drop_last()[j] == s[j]);
            }
        }
    }
}

/// An index at which the fingerprint stands, with none before it, is
/// `fingerprint_index`.
pub proof fn lemma_fingerprint_index_is(s: Seq<AssignmentView>, hash: u64, at: int)
    requires
        0 <= at <= s.len(),
        forall|j: int| 0 <= j < at ==> (#[trigger] s[j]).fingerprint() != hash,
        at < s.len() ==> s[at].fingerprint() == hash,
    ensures
        fingerprint_index(s, hash) == at,
{
    lemma_fingerprint_index(s, hash);
    let k = fingerprint_index(s, hash);
    if k < at {
        assert(s[k].fingerprint() != hash);
    } else if at < k {
        assert(s[at].fingerprint() != hash);
    }
}

/// The row to highlight when the record with the fingerprint `hash` is
/// looked for: the first record that has it, the first row where none
/// has, and no row in an empty list.
pub open spec fn located(s: Seq<AssignmentView>, hash: u64) -> Option<int> {
    if s.len() == 0 {
        None
    } else if fingerprint_index(s, hash) < s.len() {
        Some(fingerprint_index(s, hash))
    } else {
        Some(0)
    }
}

/// Looking a fingerprint up in a list that holds a record with it
/// lands on the first such record.
pub proof fn lemma_located(s: Seq<AssignmentView>, hash: u64, record: AssignmentView)
    requires
        s.contains(record),
        record.fingerprint() == hash,
    ensures
        located(s, hash) is Some,
        0 <= located(s, hash)->0 < s.len(),
        s[located(s, hash)->0].fingerprint() == hash,
        forall|j: int| 0 <= j < located(s, hash)->0 ==> (#[trigger] s[j]).fingerprint() != hash,
{
    lemma_fingerprint_index(s, hash);
    let k = choose|k: int| 0 <= k < s.len() && s[k] == record;
    if fingerprint_index(s, hash) == s.len() {
        assert(s[k].fingerprint() != hash);
    }
}

/// The highlight survives a refresh: where a record was highlighted and
/// its merged form is not cleared away, the highlighted row afterwards
/// holds that merged form, which has the record's address, name and
/// course. Where it is cleared away, the first row is highlighted, or
/// none in an empty list.
pub proof fn lemma_refresh_keeps_selection(
    app: AppView,
    batch: Seq<AssignmentView>,
    grades: Seq<crate::types::grade::GradeView>,
    now: Timestamp,
    i: int,
)
    requires
        app.wf(),
        app.selected == Some(i),
    ensures
        app.refreshed(batch, grades, now).wf(),
        i < merge_all(app.items(), batch).len(),
        merge_all(app.items(), batch)[i].html_url == app.items()[i].html_url,
        merge_all(app.items(), batch)[i].name == app.items()[i].name,
        merge_all(app.items(), batch)[i].course == app.items()[i].course,
        merge_all(app.items(), batch)[i].outlasts(now) ==> {
            &&& app.refreshed(batch, grades, now).selected is Some
            &&& app.refreshed(batch, grades, now).items()[app.refreshed(batch, grades, now).selected->0]
                == merge_all(app.items(), batch)[i]
        },
        !merge_all(app.items(), batch)[i].outlasts(now) ==> app.refreshed(batch, grades, now).selected
            == if app.refreshed(batch, grades, now).items().len() > 0 {
            Some(0int)
        } else {
            None
        },
{
    let s = app.items();
    let taken = merge_all(s, batch);
    lemma_merge_all_keeps_places(s, batch);
    lemma_sorted_row(taken, i, SortOrder::Calendar);
    let sorted = merged(s, batch);
    let row = merged_row(s, batch, i);
    if taken[i].outlasts(now) {
        lemma_remaining_row(sorted, row, now);
    }
}

/// The highlight survives sorting: after the assignments were put in
/// display order the highlighted row holds the assignment that was
/// highlighted before, whatever else the list holds.
pub proof fn lemma_sort_keeps_selection(app: AppView, i: int)
    requires
        app.wf(),
        app.selected == Some(i),
    ensures
        app.resorted().wf(),
        app.resorted().selected is Some,
        app.resorted().items()[app.resorted().selected->0] == app.items()[i],
        app.exit_new_assignment_mode().items()[app.exit_new_assignment_mode().selected->0]
            == app.items()[i],
        app.mode == Mode::Normal ==> app.mark_done().items()[app.mark_done().selected->0]
            == app.toggled()[i],
{
    lemma_sorted_row(app.items(), i, SortOrder::Calendar);
    lemma_sorted_row(app.toggled(), i, SortOrder::Calendar);
}

/// The completion the user gives a record by toggling it while browsing
/// outlasts every later merge: whatever the batch holds, the merged
/// collection holds a record with the toggled record's address and
/// fingerprint, marked as set by hand, with the completion the toggle
/// gave.
pub proof fn lemma_mark_done_latches(app: AppView, batch: Seq<AssignmentView>, i: int)
    requires
        app.wf(),
        app.mode == Mode::Normal,
        app.selected == Some(i),
    ensures
        exists|k: int|
            0 <= k < merged(app.mark_done().items(), batch).len() && {
                let after = #[trigger] merged(app.mark_done().items(), batch)[k];
                &&& after.html_url == app.items()[i].html_url
                &&& after.fingerprint() == app.toggled()[i].fingerprint()
                &&& after.modified
                &&& after.completed == !app.items()[i].completed
            },
{
    broadcast use vstd::seq_lib::group_to_multiset_ensures;

    let flipped = app.toggled();
    let sorted = stable_sort(flipped, SortOrder::Calendar);
    lemma_stable_sort_sorts(flipped, SortOrder::Calendar);
    assert(flipped.contains(flipped[i]));
    assert(flipped.to_multiset().count(flipped[i]) > 0);
    assert(sorted.contains(flipped[i]));
    let j = choose|j: int| 0 <= j < sorted.len() && sorted[j] == flipped[i];
    assert(app.mark_done().items() == sorted);
    lemma_merge_respects_user_completion(sorted, batch, j);
    lemma_merge_all_keeps_places(sorted, batch);
    let record = merge_all(sorted, batch)[j];
    let all = merged(sorted, batch);
    let k = choose|k: int| 0 <= k < all.len() && all[k] == record;
    assert(all[k].html_url == app.items()[i].html_url);
}

/// The field after `field`; the last one stays.
pub open spec fn next_field(field: AssignmentField) -> AssignmentField {
    match field {
        AssignmentField::Course => AssignmentField::Name,
        AssignmentField::Name => AssignmentField::DueDate,
        AssignmentField::DueDate => AssignmentField::DueDate,
    }
}

/// The field before `field`; the first one stays.
pub open spec fn prev_field(field: AssignmentField) -> AssignmentField {
    match field {
        AssignmentField::Course => AssignmentField::Course,
        AssignmentField::Name => AssignmentField::Course,
        AssignmentField::DueDate => AssignmentField::Name,
    }
}

/// A text without its last character; an empty text stays empty.
pub open spec fn shortened(text: Seq<char>) -> Seq<char> {
    if text.len() > 0 {
        text.drop_last()
    } else {
        text
    }
}

impl AppView {
    /// Whether the highlighted row exists.
    pub open spec fn wf(self) -> bool {
        self.selected matches Some(i) ==> 0 <= i < self.data.assignments.len()
    }

    /// The assignments, for short.
    pub open spec fn items(self) -> Seq<AssignmentView> {
        self.data.assignments
    }

    /// This state with other assignments.
    pub open spec fn with_items(self, items: Seq<AssignmentView>) -> AppView {
        AppView { data: DataView { assignments: items, ..self.data }, ..self }
    }

    /// The fingerprint of the highlighted record.
    pub open spec fn selected_hash(self) -> Option<u64> {
        match self.selected {
            Some(i) => Some(self.items()[i].fingerprint()),
            None => None,
        }
    }

    /// The state after the record with the given fingerprint was looked
    /// for; without a fingerprint nothing changes.
    pub open spec fn select_by_hash(self, hash: Option<u64>) -> AppView {
        match hash {
            Some(h) => AppView { selected: located(self.items(), h), ..self },
            None => self,
        }
    }

    /// The state after a blank assignment was put in front at the moment
    /// `now`, highlighted, with its course open for editing.
    pub open spec fn new_assignment(self, now: Timestamp) -> AppView {
        AppView {
            mode: Mode::NewAssignment(AssignmentField::Course),
            selected: Some(0),
            ..self.with_items(self.items().insert(0, AssignmentView::blank(now)))
        }
    }

    /// The state after the assignments were put in display order: the
    /// highlight is on the row the highlighted assignment moved to.
    pub open spec fn resorted(self) -> AppView {
        AppView {
            selected: match self.selected {
                Some(i) => Some(sorted_row(self.items(), i, SortOrder::Calendar)),
                None => None,
            },
            ..self.with_items(stable_sort(self.items(), SortOrder::Calendar))
        }
    }

    /// The state after editing ended: browsing again, the assignments in
    /// display order, the same record highlighted.
    pub open spec fn exit_new_assignment_mode(self) -> AppView {
        AppView { mode: Mode::Normal, ..self }.resorted()
    }

    /// Whether deleting would take the highlighted record away: only
    /// while browsing, and only a record of the user's own.
    pub open spec fn can_delete(self) -> bool {
        &&& self.mode == Mode::Normal
        &&& self.selected matches Some(i)
        &&& self.items()[i].custom
    }

    /// The state after the highlighted record was deleted. The highlight
    /// stays on the row, moves up from beyond the end, and goes when the
    /// list is empty.
    pub open spec fn delete_assignment(self) -> AppView {
        if self.can_delete() {
            let at = self.selected->0;
            let rest = self.items().remove(at);
            AppView {
                selected: if rest.len() == 0 {
                    None
                } else if rest.len() <= at {
                    Some(at - 1)
                } else {
                    Some(at)
                },
                ..self.with_items(rest)
            }
        } else {
            self
        }
    }

    /// The assignments after the completion of the highlighted one was
    /// flipped and marked as set by hand.
    pub open spec fn toggled(self) -> Seq<AssignmentView> {
        match self.selected {
            Some(i) => self.items().update(
                i,
                AssignmentView { completed: !self.items()[i].completed, modified: true, ..self.items()[i] },
            ),
            None => self.items(),
        }
    }

    /// The state after the completion toggle: while browsing, the
    /// highlighted record is flipped, the assignments are put in display
    /// order and the same record is highlighted again.
    pub open spec fn mark_done(self) -> AppView {
        if self.mode == Mode::Normal {
            self.with_items(self.toggled()).resorted()
        } else {
            self
        }
    }

    /// The state after the highlight moved one row down.
    pub open spec fn next_assignment(self) -> AppView {
        let moved = AppView {
            selected: match self.selected {
                Some(i) => Some(if i >= self.items().len() - 1 { i } else { i + 1 }),
                None => if self.items().len() > 0 { Some(0int) } else { None },
            },
            ..self
        };
        match moved.selected {
            Some(i) => if moved.items()[i].links.len() > 0 {
                AppView { selected_link: Some(0), ..moved }
            } else {
                moved
            },
            None => moved,
        }
    }

    /// The state after the highlight moved one row up.
    pub open spec fn prev_assignment(self) -> AppView {
        AppView {
            selected: match self.selected {
                Some(i) => Some(if i == 0 { 0 } else { i - 1 }),
                None => if self.items().len() > 0 { Some(0int) } else { None },
            },
            ..self
        }
    }

    /// The state after the link highlight moved one down, not past the
    /// last link of the highlighted assignment.
    pub open spec fn next_link(self) -> AppView {
        match (self.selected_link, self.selected) {
            (Some(link), Some(i)) => AppView {
                selected_link: Some(if link + 1 >= self.items()[i].links.len() { link } else { link + 1 }),
                ..self
            },
            _ => self,
        }
    }

    /// The state after the link highlight moved one up.
    pub open spec fn prev_link(self) -> AppView {
        match self.selected_link {
            Some(link) => AppView { selected_link: Some(if link == 0 { 0 } else { link - 1 }), ..self },
            None => self,
        }
    }

    /// This state with the highlighted assignment replaced.
    pub open spec fn with_selected(self, record: AssignmentView) -> AppView {
        self.with_items(self.items().update(self.selected->0, record))
    }

    /// The state after the next field was opened; the last field stays
    /// open, and nothing happens while browsing.
    pub open spec fn next_field(self) -> AppView {
        match self.mode {
            Mode::NewAssignment(field) => AppView { mode: Mode::NewAssignment(next_field(field)), ..self },
            Mode::Normal => self,
        }
    }

    /// The state after the field before was opened; the first field
    /// stays open, and nothing happens while browsing.
    pub open spec fn prev_field(self) -> AppView {
        match self.mode {
            Mode::NewAssignment(field) => AppView { mode: Mode::NewAssignment(prev_field(field)), ..self },
            Mode::Normal => self,
        }
    }

    /// The state after a character was appended to the open text field
    /// of the highlighted assignment. Nothing happens while browsing, in
    /// the due date, or with nothing highlighted.
    pub open spec fn push_char(self, c: char) -> AppView {
        match (self.mode, self.selected) {
            (Mode::NewAssignment(AssignmentField::Course), Some(i)) => self.with_selected(
                AssignmentView { course: self.items()[i].course.push(c), ..self.items()[i] },
            ),
            (Mode::NewAssignment(AssignmentField::Name), Some(i)) => self.with_selected(
                AssignmentView { name: self.items()[i].name.push(c), ..self.items()[i] },
            ),
            _ => self,
        }
    }

    /// The state after the last character was taken off the open text
    /// field of the highlighted assignment; an empty text stays empty.
    pub open spec fn pop_char(self) -> AppView {
        match (self.mode, self.selected) {
            (Mode::NewAssignment(AssignmentField::Course), Some(i)) => self.with_selected(
                AssignmentView { course: shortened(self.items()[i].course), ..self.items()[i] },
            ),
            (Mode::NewAssignment(AssignmentField::Name), Some(i)) => self.with_selected(
                AssignmentView { name: shortened(self.items()[i].name), ..self.items()[i] },
            ),
            _ => self,
        }
    }

    /// The state after the due date of the highlighted assignment was
    /// moved one day on, while the due date is open.
    pub open spec fn increment_due_date(self) -> AppView {
        match (self.mode, self.selected) {
            (Mode::NewAssignment(AssignmentField::DueDate), Some(i)) => self.with_selected(
                self.items()[i].postponed(),
            ),
            _ => self,
        }
    }

    /// The state after the due date of the highlighted assignment was
    /// moved one day back, while the due date is open and that day is
    /// still ahead of `now`.
    pub open spec fn decrement_due_date(self, now: Timestamp) -> AppView {
        match (self.mode, self.selected) {
            (Mode::NewAssignment(AssignmentField::DueDate), Some(i)) => self.with_selected(
                self.items()[i].advanced(now),
            ),
            _ => self,
        }
    }

    /// The address of the highlighted assignment.
    pub open spec fn open_assignment(self) -> Option<Seq<char>> {
        match self.selected {
            Some(i) => Some(self.items()[i].html_url),
            None => None,
        }
    }

    /// The address of the highlighted link of the highlighted assignment.
    pub open spec fn open_link(self) -> Option<Seq<char>> {
        match (self.selected_link, self.selected) {
            (Some(link), Some(i)) => if link < self.items()[i].links.len() {
                Some(self.items()[i].links[link].url)
            } else {
                None
            },
            _ => None,
        }
    }

    /// The state after a refresh brought `batch` and `grades` at the
    /// moment `now`: the batch is merged in, fetched assignments due
    /// before `now` are cleared away and the grades are replaced. The
    /// highlight follows the highlighted record to its new row; where
    /// that record was cleared away it falls back to the first row, or
    /// to nothing in an empty list.
    pub open spec fn refreshed(
        self,
        batch: Seq<AssignmentView>,
        grades: Seq<crate::types::grade::GradeView>,
        now: Timestamp,
    ) -> AppView {
        let kept = remaining(merged(self.items(), batch), now);
        AppView {
            data: DataView { assignments: kept, grades },
            selected: match self.selected {
                Some(i) => match remaining_row(
                    merged(self.items(), batch),
                    merged_row(self.items(), batch, i),
                    now,
                ) {
                    Some(row) => Some(row),
                    None => if kept.len() > 0 {
                        Some(0int)
                    } else {
                        None
                    },
                },
                None => None,
            },
            ..self
        }
    }
}

impl App {
    /// Whether the highlighted row exists.
    pub open spec fn wf(&self) -> bool {
        self@.wf()
    }

    /// A session that browses `data` with nothing highlighted.
    pub fn new(data_path: String, tick_rate: Duration, course_ids: Vec<u32>, data: Data) -> (app: App)
        ensures
            app@ == (AppView {
                data_path: data_path@,
                tick_rate,
                course_ids: course_ids@,
                selected: None,
                selected_link: None,
                data: data@,
                mode: Mode::Normal,
            }),
            app.wf(),
    {
        App {
            data_path,
            tick_rate,
            course_ids,
            assignments_state: SelectState::new(),
            links_state: SelectState::new(),
            data,
            mode: Mode::Normal,
        }
    }

    /// Whether the highlighted row exists.
    pub fn is_wf(&self) -> (ok: bool)
        ensures
            ok == self.wf(),
    {
        match self.assignments_state.selected() {
            Some(i) => i < self.data.assignments.len(),
            None => true,
        }
    }

    /// Index of the first assignment with the fingerprint `hash`, or the
    /// number of assignments where there is none.
    pub fn find_fingerprint(&self, hash: u64) -> (at: usize)
        ensures
            at == fingerprint_index(self@.items(), hash),
    {
        let mut at: usize = 0;
        while at < self.data.assignments.len()
            invariant
                at <= self.data.assignments.len(),
                forall|j: int| 0 <= j < at ==> (#[trigger] self@.items()[j]).fingerprint() != hash,
            decreases self.data.assignments.len() - at,
        {
            if self.data.assignments[at].fingerprint() == hash {
                proof {
                    lemma_fingerprint_index_is(self@.items(), hash, at as int);
                }
                return at;
            }
            at += 1;
        }
        proof {
            lemma_fingerprint_index_is(self@.items(), hash, at as int);
        }
        at
    }

    /// Highlights the first record with the given fingerprint; the first
    /// row where no record has it; nothing in an empty list. Without a
    /// fingerprint the highlight stays as it is.
    pub fn select_by_hash(&mut self, hash: Option<u64>)
        ensures
            final(self)@ == old(self)@.select_by_hash(hash),
            hash is Some || old(self).wf() ==> final(self).wf(),
    {
        if let Some(h) = hash {
            if self.data.assignments.len() == 0 {
                self.assignments_state.select(None);
            } else {
                let at: usize = self.find_fingerprint(h);
                let row: usize = if at < self.data.assignments.len() { at } else { 0 };
                self.assignments_state.select(Some(row));
            }
        }
    }

    /// The fingerprint of the highlighted record.
    pub fn get_selected_hash(&self) -> (hash: Option<u64>)
        requires
            self.wf(),
        ensures
            hash == self@.selected_hash(),
    {
        match self.assignments_state.selected() {
            Some(i) => Some(self.data.assignments[i].fingerprint()),
            None => None,
        }
    }

    /// Starts a new assignment: puts a blank one in front, highlights it
    /// and opens its course for editing. Refused while one is being
    /// edited.
    pub fn new_assignment(&mut self, now: &Timestamp) -> (r: Result<(), Error>)
        ensures
            match old(self).mode {
                Mode::Normal => r is Ok && final(self)@ == old(self)@.new_assignment(*now),
                Mode::NewAssignment(_) => r == Err::<(), Error>(Error::InvalidState) && final(self)@ == old(
                    self,
                )@,
            },
            old(self).wf() ==> final(self).wf(),
            r is Ok ==> final(self).wf(),
    {
        match self.mode {
            Mode::NewAssignment(_) => Err(Error::InvalidState),
            Mode::Normal => {
                let ghost before = self@.items();
                self.mode = Mode::NewAssignment(AssignmentField::Course);
                self.data.assignments.insert(0, Assignment::empty(now));
                self.assignments_state.select(Some(0));
                assert(self@.items() =~= before.insert(0, AssignmentView::blank(*now)));
                Ok(())
            },
        }
    }

    /// Ends editing: back to browsing, the assignments in display order,
    /// the same record highlighted.
    pub fn exit_new_assignment_mode(&mut self)
        requires
            old(self).wf(),
        ensures
            final(self)@ == old(self)@.exit_new_assignment_mode(),
            old(self)@.selected matches Some(i) ==> {
                &&& final(self)@.selected is Some
                &&& final(self)@.items()[final(self)@.selected->0] == old(self)@.items()[i]
            },
            final(self).wf(),
            final(self).data.in_order(),
    {
        self.mode = Mode::Normal;
        let moved = self.data.sort_assignments_keeping(self.assignments_state.selected());
        self.assignments_state.select(moved);
    }

    /// Deletes the highlighted assignment if the user wrote it; fetched
    /// assignments stay. Returns whether the dataset is to be saved.
    pub fn delete_assignment(&mut self) -> (save: bool)
        requires
            old(self).wf(),
        ensures
            final(self)@ == old(self)@.delete_assignment(),
            save == (old(self).mode == Mode::Normal && (old(self)@.selected is None || old(
                self,
            )@.can_delete())),
            final(self).wf(),
    {
        match self.mode {
            Mode::NewAssignment(_) => false,
            Mode::Normal => {
                if let Some(i) = self.assignments_state.selected() {
                    if !self.data.assignments[i].custom {
                        return false;
                    }
                    let ghost before = self@.items();
                    self.data.assignments.remove(i);
                    assert(self@.items() =~= before.remove(i as int));
                    if self.data.assignments.len() == 0 {
                        self.assignments_state.select(None);
                    } else if self.data.assignments.len() <= i {
                        self.assignments_state.select(Some(i - 1));
                    }
                }
                true
            },
        }
    }

    /// The address to open for the highlighted assignment.
    pub fn open_assignment(&self) -> (url: Option<String>)
        requires
            self.wf(),
        ensures
            url.deep_view() == self@.open_assignment(),
    {
        match self.assignments_state.selected() {
            Some(i) => Some(self.data.assignments[i].html_url.clone()),
            None => None,
        }
    }

    /// The address to open for the highlighted link.
    pub fn open_link(&self) -> (url: Option<String>)
        requires
            self.wf(),
        ensures
            url.deep_view() == self@.open_link(),
    {
        match (self.links_state.selected(), self.assignments_state.selected()) {
            (Some(link), Some(i)) => {
                let links = &self.data.assignments[i].links;
                if link < links.len() {
                    Some(links[link].url.clone())
                } else {
                    None
                }
            },
            _ => None,
        }
    }

    /// Flips the completion of the highlighted assignment and marks it as
    /// set by hand, then restores display order and the highlight. Does
    /// nothing while an assignment is being edited.
    pub fn mark_done(&mut self)
        requires
            old(self).wf(),
        ensures
            final(self)@ == old(self)@.mark_done(),
            old(self).mode == Mode::Normal ==> (old(self)@.selected matches Some(i) ==> {
                &&& final(self)@.selected is Some
                &&& final(self)@.items()[final(self)@.selected->0] == old(self)@.toggled()[i]
            }),
            final(self).wf(),
            old(self).mode == Mode::Normal ==> final(self).data.in_order(),
    {
        match self.mode {
            Mode::NewAssignment(_) => {},
            Mode::Normal => {
                let ghost before = self@.items();
                if let Some(i) = self.assignments_state.selected() {
                    let assignment = &mut self.data.assignments[i];
                    assignment.completed = !assignment.completed;
                    assignment.modified = true;
                }
                assert(self@.items() =~= old(self)@.toggled());
                let moved = self.data.sort_assignments_keeping(self.assignments_state.selected());
                self.assignments_state.select(moved);
            },
        }
    }

    /// The enter key while browsing: nothing to do.
    pub fn enter(&mut self)
        ensures
            *final(self) == *old(self),
    {
    }

    /// The escape key while browsing: nothing to do.
    pub fn esc(&mut self)
        ensures
            *final(self) == *old(self),
    {
    }

    /// Moves the highlight one row down, or onto the first row where
    /// nothing was highlighted; then highlights the first link of that
    /// assignment if it has any.
    pub fn next_assignment(&mut self)
        requires
            old(self).wf(),
        ensures
            final(self)@ == old(self)@.next_assignment(),
            final(self).wf(),
    {
        if let Some(selected) = self.assignments_state.selected() {
            let next: usize = if selected >= self.data.assignments.len() - 1 {
                selected
            } else {
                selected + 1
            };
            self.assignments_state.select(Some(next));
        } else if self.data.assignments.len() > 0 {
            self.assignments_state.select(Some(0));
        }
        if let Some(i) = self.assignments_state.selected() {
            if self.data.assignments[i].links.len() > 0 {
                self.links_state.select(Some(0));
            }
        }
    }

    /// Moves the highlight one row up, or onto the first row where
    /// nothing was highlighted.
    pub fn prev_assignment(&mut self)
        requires
            old(self).wf(),
        ensures
            final(self)@ == old(self)@.prev_assignment(),
            final(self).wf(),
    {
        if let Some(selected) = self.assignments_state.selected() {
            let prev: usize = if selected == 0 {
                0
            } else {
                selected - 1
            };
            self.assignments_state.select(Some(prev));
        } else if self.data.assignments.len() > 0 {
            self.assignments_state.select(Some(0));
        }
    }

    /// Moves the link highlight one down.
    pub fn next_link(&mut self)
        requires
            old(self).wf(),
        ensures
            final(self)@ == old(self)@.next_link(),
            final(self).wf(),
    {
        if let (Some(link), Some(i)) = (self.links_state.selected(), self.assignments_state.selected()) {
            let count: usize = self.data.assignments[i].links.len();
            let next: usize = if count == 0 || link >= count - 1 {
                link
            } else {
                link + 1
            };
            self.links_state.select(Some(next));
        }
    }

    /// Moves the link highlight one up.
    pub fn prev_link(&mut self)
        ensures
            final(self)@ == old(self)@.prev_link(),
            old(self).wf() ==> final(self).wf(),
    {
        if let Some(selected) = self.links_state.selected() {
            let prev: usize = if selected == 0 {
                0
            } else {
                selected - 1
            };
            self.links_state.select(Some(prev));
        }
    }

    /// Opens the next field of the assignment being edited.
    pub fn next_field(&mut self)
        ensures
            final(self)@ == old(self)@.next_field(),
            old(self).wf() ==> final(self).wf(),
    {
        match self.mode {
            Mode::NewAssignment(field) => {
                let new_field = match field {
                    AssignmentField::Course => AssignmentField::Name,
                    AssignmentField::Name => AssignmentField::DueDate,
                    AssignmentField::DueDate => AssignmentField::DueDate,
                };
                self.mode = Mode::NewAssignment(new_field);
            },
            Mode::Normal => {},
        }
    }

    /// Opens the field before the open one.
    pub fn prev_field(&mut self)
        ensures
            final(self)@ == old(self)@.prev_field(),
            old(self).wf() ==> final(self).wf(),
    {
        match self.mode {
            Mode::NewAssignment(field) => {
                let new_field = match field {
                    AssignmentField::Course => AssignmentField::Course,
                    AssignmentField::Name => AssignmentField::Course,
                    AssignmentField::DueDate => AssignmentField::Name,
                };
                self.mode = Mode::NewAssignment(new_field);
            },
            Mode::Normal => {},
        }
    }

    /// Appends a character to the open text field.
    pub fn push_char(&mut self, c: char)
        requires
            old(self).wf(),
        ensures
            final(self)@ == old(self)@.push_char(c),
            final(self).wf(),
    {
        let ghost before = self@.items();
        match (self.mode, self.assignments_state.selected()) {
            (Mode::NewAssignment(AssignmentField::Course), Some(i)) => {
                self.data.assignments[i].course.push(c);
                assert(self@.items() =~= before.update(
                    i as int,
                    AssignmentView { course: before[i as int].course.push(c), ..before[i as int] },
                ));
            },
            (Mode::NewAssignment(AssignmentField::Name), Some(i)) => {
                self.data.assignments[i].name.push(c);
                assert(self@.items() =~= before.update(
                    i as int,
                    AssignmentView { name: before[i as int].name.push(c), ..before[i as int] },
                ));
            },
            _ => {},
        }
    }

    /// Takes the last character off the open text field.
    pub fn pop_char(&mut self)
        requires
            old(self).wf(),
        ensures
            final(self)@ == old(self)@.pop_char(),
            final(self).wf(),
    {
        let ghost before = self@.items();
        match (self.mode, self.assignments_state.selected()) {
            (Mode::NewAssignment(AssignmentField::Course), Some(i)) => {
                let _ = self.data.assignments[i].course.pop();
                assert(self@.items() =~= before.update(
                    i as int,
                    AssignmentView { course: shortened(before[i as int].course), ..before[i as int] },
                ));
            },
            (Mode::NewAssignment(AssignmentField::Name), Some(i)) => {
                let _ = self.data.assignments[i].name.pop();
                assert(self@.items() =~= before.update(
                    i as int,
                    AssignmentView { name: shortened(before[i as int].name), ..before[i as int] },
                ));
            },
            _ => {},
        }
    }

    /// Moves the due date of the assignment being edited one day on.
    pub fn increment_due_date(&mut self)
        requires
            old(self).wf(),
        ensures
            final(self)@ == old(self)@.increment_due_date(),
            final(self).wf(),
    {
        let ghost before = self@.items();
        match (self.mode, self.assignments_state.selected()) {
            (Mode::NewAssignment(AssignmentField::DueDate), Some(i)) => {
                self.data.assignments[i].increment_due_date();
                assert(self@.items() =~= before.update(i as int, before[i as int].postponed()));
            },
            _ => {},
        }
    }

    /// Moves the due date of the assignment being edited one day back,
    /// unless that day is not after `now`.
    pub fn decrement_due_date(&mut self, now: &Timestamp)
        requires
            old(self).wf(),
        ensures
            final(self)@ == old(self)@.decrement_due_date(*now),
            final(self).wf(),
    {
        let ghost before = self@.items();
        match (self.mode, self.assignments_state.selected()) {
            (Mode::NewAssignment(AssignmentField::DueDate), Some(i)) => {
                self.data.assignments[i].decrement_due_date(now);
                assert(self@.items() =~= before.update(i as int, before[i as int].advanced(*now)));
            },
            _ => {},
        }
    }

    /// A tick of the display clock: nothing to do.
    pub fn on_tick(&mut self)
        ensures
            *final(self) == *old(self),
    {
    }
}

/// Applies what a refresh fetched at the moment `now`. Where either fetch
/// failed (`None`) nothing changes and `false` comes back; otherwise the
/// assignments are merged in, fetched assignments due before `now` are
/// cleared away, the grades are replaced, the highlight follows the
/// highlighted record, and `true` says that the dataset is to be saved.
pub fn refresh(
    app: &mut App,
    assignments: Option<Vec<Assignment>>,
    grades: Option<Vec<Grade>>,
    now: &Timestamp,
) -> (applied: bool)
    requires
        old(app).wf(),
    ensures
        applied == (assignments is Some && grades is Some),
        final(app)@ == if applied {
            old(app)@.refreshed(assignments->0.deep_view(), grades->0.deep_view(), *now)
        } else {
            old(app)@
        },
        final(app).wf(),
        applied ==> final(app).data.in_order(),
{
    match (assignments, grades) {
        (Some(batch), Some(scores)) => {
            let row = app.assignments_state.selected();
            let merged = app.data.update_assignments_keeping(batch, row);
            let kept = app.data.remove_past_assignments_keeping(now, merged);
            app.data.set_grades(scores);
            if row.is_some() {
                match kept {
                    Some(k) => {
                        app.assignments_state.select(Some(k));
                    },
                    None => {
                        if app.data.assignments.len() > 0 {
                            app.assignments_state.select(Some(0));
                        } else {
                            app.assignments_state.select(None);
                        }
                    },
                }
            }
            true
        },
        _ => false,
    }
}

} // verus!
