//! The dataset: every assignment and grade the session knows of.
use vstd::prelude::*;
use crate::types::assignment::{Assignment, AssignmentView};
use crate::types::grade::{Grade, GradeView};
use crate::types::merge::{
    lemma_merge_all_is, lemma_merge_keeps_custom, lemma_url_index_is, locals_after, merge_all, merge_one, merged, newcomers_after,
    url_count, url_index,
};
use crate::types::order::{
    lemma_stable_sort_sorts, of_rank, ordered, sort_by_rank, sort_by_rank_keeping, sorted_row,
    stable_sort, SortKey, SortOrder,
};
use crate::types::timestamp::Timestamp;

verus! {

/// The assignments, in display order, and the grades.
#[derive(Debug)]
pub struct Data {
    pub assignments: Vec<Assignment>,
    pub grades: Vec<Grade>,
}

/// The mathematical value of a `Data`.
pub struct DataView {
    pub assignments: Seq<AssignmentView>,
    pub grades: Seq<GradeView>,
}

impl View for Data {
    type V = DataView;

    open spec fn view(&self) -> DataView {
        DataView { assignments: self.assignments.deep_view(), grades: self.grades.deep_view() }
    }
}

impl AssignmentView {
    /// Whether the record stays when everything due before `now` is
    /// cleared away: the user's own records and undated ones always do.
    pub open spec fn outlasts(self, now: Timestamp) -> bool {
        self.custom || match self.date {
            Some(due) => !due.before(now),
            None => true,
        }
    }
}

/// The records that stay when everything due before `now` is cleared
/// away, in the order they stood.
pub open spec fn remaining(s: Seq<AssignmentView>, now: Timestamp) -> Seq<AssignmentView> {
    s.filter(|a: AssignmentView| a.outlasts(now))
}

/// The row at which the record of row `i` stands once everything due
/// before `now` is cleared away: as many rows down as records stay
/// before it. `None` where the record is cleared away or there is no
/// such row.
pub open spec fn remaining_row(s: Seq<AssignmentView>, i: int, now: Timestamp) -> Option<int> {
    if 0 <= i < s.len() && s[i].outlasts(now) {
        Some(remaining(s.take(i), now).len() as int)
    } else {
        None
    }
}

/// The row at which the local record of row `i` stands after a batch
/// came in and the collection was put back in order.
pub open spec fn merged_row(s: Seq<AssignmentView>, batch: Seq<AssignmentView>, i: int) -> int {
    sorted_row(merge_all(s, batch), i, SortOrder::Calendar)
}

/// The records that are not completed.
pub open spec fn incomplete(s: Seq<AssignmentView>) -> Seq<AssignmentView> {
    s.filter(|a: AssignmentView| !a.completed)
}

impl Data {
    /// Whether the assignments stand in display order.
    pub open spec fn in_order(&self) -> bool {
        ordered(self@.assignments, SortOrder::Calendar)
    }

    /// A dataset with nothing in it.
    pub fn empty() -> (data: Data)
        ensures
            data@.assignments == Seq::<AssignmentView>::empty(),
            data@.grades == Seq::<GradeView>::empty(),
            data.in_order(),
    {
        let data = Data { assignments: Vec::new(), grades: Vec::new() };
        assert(data@.assignments =~= Seq::<AssignmentView>::empty());
        assert(data@.grades =~= Seq::<GradeView>::empty());
        data
    }

    /// Whether `assignment` stays when everything due before `now` is
    /// cleared away.
    pub fn outlasts(assignment: &Assignment, now: &Timestamp) -> (stays: bool)
        ensures
            stays == assignment@.outlasts(*now),
    {
        assignment.custom || match assignment.date {
            Some(due) => !due.is_before(now),
            None => true,
        }
    }

    /// Removes every fetched assignment that was due before `now`.
    pub fn remove_past_assignments(&mut self, now: &Timestamp)
        ensures
            final(self)@.assignments == remaining(old(self)@.assignments, *now),
            final(self)@.grades == old(self)@.grades,
            old(self).in_order() ==> final(self).in_order(),
    {
        let _ = self.remove_past_assignments_keeping(now, None);
    }

    /// Removes every fetched assignment that was due before `now`, as
    /// `remove_past_assignments` does, and follows one assignment: given
    /// the row it stands at, returns the row it stands at afterwards, or
    /// `None` where it was removed or the row does not exist.
    pub fn remove_past_assignments_keeping(&mut self, now: &Timestamp, row: Option<usize>) -> (moved:
        Option<usize>)
        ensures
            final(self)@.assignments == remaining(old(self)@.assignments, *now),
            final(self)@.grades == old(self)@.grades,
            old(self).in_order() ==> final(self).in_order(),
            match row {
                Some(r) => match remaining_row(old(self)@.assignments, r as int, *now) {
                    Some(k) => {
                        &&& moved matches Some(m)
                        &&& m == k
                        &&& m < final(self)@.assignments.len()
                        &&& final(self)@.assignments[m as int] == old(self)@.assignments[r as int]
                    },
                    None => moved is None,
                },
                None => moved is None,
            },
    {
        let ghost all = self.assignments.deep_view();
        let ghost keep = |a: AssignmentView| a.outlasts(*now);
        let mut previous: Vec<Assignment> = Vec::new();
        std::mem::swap(&mut previous, &mut self.assignments);
        let count: usize = previous.len();
        let mut followed: Option<usize> = None;
        let mut at: usize = 0;
        proof {
            reveal(Seq::filter);
            assert(self.assignments.deep_view() =~= all.take(0).filter(keep));
        }
        for assignment in it: previous.into_iter()
            invariant
                keep == |a: AssignmentView| a.outlasts(*now),
                all.len() == it.seq().len(),
                forall|i: int| 0 <= i < all.len() ==> all[i] == (#[trigger] it.seq()[i])@,
                self.assignments.deep_view() == all.take(it.index() as int).filter(keep),
                self.grades == old(self).grades,
                at == it.index(),
                all.len() == count,
                match row {
                    Some(r) => if r < at && all[r as int].outlasts(*now) {
                        &&& followed matches Some(m)
                        &&& m == remaining(all.take(r as int), *now).len()
                        &&& m < self.assignments.len()
                        &&& self.assignments.deep_view()[m as int] == all[r as int]
                    } else {
                        followed is None
                    },
                    None => followed is None,
                },
        {
            proof {
                let k = it.index() as int;
                assert(all.take(k + 1) =~= all.take(k).push(all[k]));
                all.take(k).lemma_filter_push(all[k], keep);
            }
            let ghost before = self.assignments.deep_view();
            if Data::outlasts(&assignment, now) {
                if let Some(r) = row {
                    if r == at {
                        followed = Some(self.assignments.len());
                    }
                }
                self.assignments.push(assignment);
                assert(self.assignments.deep_view() =~= before.push(assignment@));
            }
            at += 1;
        }
        proof {
            assert(all.take(all.len() as int) =~= all);
            if old(self).in_order() {
                lemma_remaining_ordered(all, *now);
            }
        }
        followed
    }

    /// Puts the assignments in display order: by the day they are due,
    /// undated ones last, open work before finished work on the same day.
    /// Assignments that rank alike keep the order they had.
    pub fn sort_assignments(&mut self)
        ensures
            final(self)@.assignments == stable_sort(old(self)@.assignments, SortOrder::Calendar),
            final(self)@.assignments.to_multiset() == old(self)@.assignments.to_multiset(),
            forall|key: SortKey| #[trigger]
                of_rank(final(self)@.assignments, SortOrder::Calendar, key) == of_rank(
                    old(self)@.assignments,
                    SortOrder::Calendar,
                    key,
                ),
            final(self)@.grades == old(self)@.grades,
            final(self).in_order(),
    {
        sort_by_rank(&mut self.assignments, SortOrder::Calendar);
        proof {
            lemma_stable_sort_sorts(old(self)@.assignments, SortOrder::Calendar);
        }
    }

    /// Puts the assignments in display order, as `sort_assignments`
    /// does, and follows one of them: given the row an assignment stands
    /// at, returns the row it stands at afterwards. A row that does not
    /// exist is followed nowhere.
    pub fn sort_assignments_keeping(&mut self, row: Option<usize>) -> (moved: Option<usize>)
        ensures
            final(self)@.assignments == stable_sort(old(self)@.assignments, SortOrder::Calendar),
            final(self)@.grades == old(self)@.grades,
            final(self).in_order(),
            match row {
                Some(r) => if r < old(self)@.assignments.len() {
                    &&& moved matches Some(m)
                    &&& m == sorted_row(old(self)@.assignments, r as int, SortOrder::Calendar)
                    &&& m < final(self)@.assignments.len()
                    &&& final(self)@.assignments[m as int] == old(self)@.assignments[r as int]
                } else {
                    moved is None
                },
                None => moved is None,
            },
    {
        sort_by_rank_keeping(&mut self.assignments, SortOrder::Calendar, row)
    }

    /// Index of the first fetched assignment with the address `url`, or
    /// the number of assignments where there is none. Assignments the
    /// user wrote are passed over.
    pub fn find_url(&self, url: &String) -> (at: usize)
        ensures
            at == url_index(self@.assignments, url@),
    {
        let mut at: usize = 0;
        while at < self.assignments.len()
            invariant
                at <= self.assignments.len(),
                forall|j: int| 0 <= j < at ==> (#[trigger] self@.assignments[j]).address() != Some(url@),
            decreases self.assignments.len() - at,
        {
            if !self.assignments[at].custom && self.assignments[at].html_url == *url {
                proof {
                    lemma_url_index_is(self@.assignments, url@, at as int);
                }
                return at;
            }
            at += 1;
        }
        proof {
            lemma_url_index_is(self@.assignments, url@, at as int);
        }
        at
    }

    /// Takes one fetched assignment in: refreshes the first fetched local
    /// record with its address, or appends it where there is none.
    /// Assignments the user wrote are never touched.
    pub fn update_assignment(&mut self, incoming: Assignment)
        ensures
            final(self)@.assignments == merge_one(old(self)@.assignments, incoming@),
            final(self)@.grades == old(self)@.grades,
    {
        let at: usize = self.find_url(&incoming.html_url);
        let ghost before = self@.assignments;
        if at < self.assignments.len() {
            let local = &mut self.assignments[at];
            if !local.modified {
                local.completed = local.completed || incoming.completed;
            }
            local.locked = incoming.locked;
            local.description = incoming.description;
            local.date = incoming.date;
            local.populate_links();
            assert(self@.assignments =~= before.update(at as int, before[at as int].refreshed(incoming@)));
        } else {
            let mut adopted = incoming;
            adopted.custom = false;
            adopted.modified = false;
            adopted.populate_links();
            self.assignments.push(adopted);
            assert(self@.assignments =~= before.push(incoming@.adopted()));
        }
    }

    /// Takes a batch of fetched assignments in, one after the other, and
    /// puts the collection back in display order. What is sorted are the
    /// local records, the fetched ones refreshed where the batch names
    /// their address, followed by the records of the batch that are new.
    /// Every assignment the user wrote is still there, unchanged.
    pub fn update_assignments(&mut self, assignments: Vec<Assignment>)
        ensures
            final(self)@.assignments == merged(old(self)@.assignments, assignments.deep_view()),
            final(self)@.assignments == stable_sort(
                locals_after(old(self)@.assignments, assignments.deep_view()) + newcomers_after(
                    old(self)@.assignments,
                    assignments.deep_view(),
                ),
                SortOrder::Calendar,
            ),
            forall|i: int|
                0 <= i < old(self)@.assignments.len() && (#[trigger] old(self)@.assignments[i]).custom
                    ==> final(self)@.assignments.contains(old(self)@.assignments[i]),
            final(self)@.grades == old(self)@.grades,
            final(self).in_order(),
    {
        let _ = self.update_assignments_keeping(assignments, None);
    }

    /// Takes a batch of fetched assignments in, as `update_assignments`
    /// does, and follows one local assignment: given the row it stands
    /// at, returns the row at which it, refreshed or not, stands
    /// afterwards. A row that does not exist is followed nowhere.
    pub fn update_assignments_keeping(&mut self, assignments: Vec<Assignment>, row: Option<usize>) -> (moved:
        Option<usize>)
        ensures
            final(self)@.assignments == merged(old(self)@.assignments, assignments.deep_view()),
            final(self)@.assignments == stable_sort(
                locals_after(old(self)@.assignments, assignments.deep_view()) + newcomers_after(
                    old(self)@.assignments,
                    assignments.deep_view(),
                ),
                SortOrder::Calendar,
            ),
            forall|i: int|
                0 <= i < old(self)@.assignments.len() && (#[trigger] old(self)@.assignments[i]).custom
                    ==> final(self)@.assignments.contains(old(self)@.assignments[i]),
            final(self)@.grades == old(self)@.grades,
            final(self).in_order(),
            match row {
                Some(r) => if r < old(self)@.assignments.len() {
                    &&& moved matches Some(m)
                    &&& m == merged_row(old(self)@.assignments, assignments.deep_view(), r as int)
                    &&& m < final(self)@.assignments.len()
                    &&& final(self)@.assignments[m as int] == merge_all(
                        old(self)@.assignments,
                        assignments.deep_view(),
                    )[r as int]
                } else {
                    moved is None
                },
                None => moved is None,
            },
    {
        let ghost start = self@.assignments;
        let ghost batch = assignments.deep_view();
        let known: usize = self.assignments.len();
        proof {
            assert(batch.take(0) =~= Seq::<AssignmentView>::empty());
        }
        for incoming in it: assignments.into_iter()
            invariant
                batch.len() == it.seq().len(),
                forall|i: int| 0 <= i < batch.len() ==> batch[i] == (#[trigger] it.seq()[i])@,
                self@.assignments == merge_all(start, batch.take(it.index() as int)),
                self@.grades == old(self)@.grades,
        {
            proof {
                let k = it.index() as int;
                assert(batch.take(k + 1).drop_last() =~= batch.take(k));
                assert(batch.take(k + 1).last() == incoming@);
            }
            self.update_assignment(incoming);
        }
        proof {
            assert(batch.take(batch.len() as int) =~= batch);
            lemma_merge_all_is(start, batch);
            assert forall|i: int| 0 <= i < start.len() && (#[trigger] start[i]).custom implies merged(
                start,
                batch,
            ).contains(start[i]) by {
                lemma_merge_keeps_custom(start, batch, i);
            }
        }
        let followed: Option<usize> = match row {
            Some(r) => if r < known {
                Some(r)
            } else {
                None
            },
            None => None,
        };
        self.sort_assignments_keeping(followed)
    }

    /// Replaces the grades.
    pub fn set_grades(&mut self, grades: Vec<Grade>)
        ensures
            final(self)@.grades == grades.deep_view(),
            final(self)@.assignments == old(self)@.assignments,
    {
        self.grades = grades;
    }

    /// How many assignments are not completed.
    pub fn get_number_incomplete(&self) -> (count: usize)
        ensures
            count == incomplete(self@.assignments).len(),
    {
        let ghost all = self@.assignments;
        let ghost open = |a: AssignmentView| !a.completed;
        let mut count: usize = 0;
        let mut i: usize = 0;
        proof {
            reveal(Seq::filter);
            assert(all.take(0).filter(open) =~= Seq::<AssignmentView>::empty());
        }
        while i < self.assignments.len()
            invariant
                i <= self.assignments.len(),
                all == self@.assignments,
                open == |a: AssignmentView| !a.completed,
                count == all.take(i as int).filter(open).len(),
                count <= i,
            decreases self.assignments.len() - i,
        {
            proof {
                assert(all.take(i + 1) =~= all.take(i as int).push(all[i as int]));
                all.take(i as int).lemma_filter_push(all[i as int], open);
            }
            if !self.assignments[i].completed {
                count += 1;
            }
            i += 1;
        }
        proof {
            assert(all.take(i as int) =~= all);
        }
        count
    }
}

/// Clearing away what was due before `now` never removes a record of
/// the user's own, nor one without a due date, nor one that is due at
/// `now` or later.
pub proof fn lemma_remaining_keeps(s: Seq<AssignmentView>, now: Timestamp, i: int)
    requires
        0 <= i < s.len(),
        s[i].custom || s[i].date is None || !s[i].date->0.before(now),
    ensures
        remaining(s, now).contains(s[i]),
{
    s.lemma_filter_contains(|a: AssignmentView| a.outlasts(now), i);
}

/// Clearing away what was due before `now` removes every fetched record
/// that was, and brings in nothing new.
pub proof fn lemma_remaining_drops(s: Seq<AssignmentView>, now: Timestamp, j: int)
    requires
        0 <= j < remaining(s, now).len(),
    ensures
        s.contains(remaining(s, now)[j]),
        remaining(s, now)[j].outlasts(now),
{
    let keep = |a: AssignmentView| a.outlasts(now);
    s.lemma_filter_pred(keep, j);
    s.lemma_filter_contains_rev(keep, remaining(s, now)[j]);
}

/// A record that stays when the past is cleared away stands at the row
/// `remaining_row` names.
pub proof fn lemma_remaining_row(s: Seq<AssignmentView>, i: int, now: Timestamp)
    requires
        0 <= i < s.len(),
        s[i].outlasts(now),
    ensures
        remaining_row(s, i, now) matches Some(k) && 0 <= k < remaining(s, now).len() && remaining(
            s,
            now,
        )[k] == s[i],
    decreases s.len(),
{
    let keep = |a: AssignmentView| a.outlasts(now);
    let front = s.drop_last();
    assert(s =~= front.push(s.last()));
    front.lemma_filter_push(s.last(), keep);
    if i == s.len() - 1 {
        assert(s.take(i) =~= front);
    } else {
        lemma_remaining_row(front, i, now);
        assert(front.take(i) =~= s.take(i));
    }
}

/// Clearing records away never makes an address stand more often.
pub proof fn lemma_url_count_remaining(s: Seq<AssignmentView>, now: Timestamp, url: Seq<char>)
    ensures
        url_count(remaining(s, now), url) <= url_count(s, url),
    decreases s.len(),
{
    let keep = |a: AssignmentView| a.outlasts(now);
    reveal(Seq::filter);
    if s.len() > 0 {
        lemma_url_count_remaining(s.drop_last(), now, url);
        let inner = s.drop_last().filter(keep);
        if keep(s.last()) {
            assert(inner.push(s.last()).drop_last() =~= inner);
        }
    }
}

/// Clearing records away leaves the rest in order.
pub proof fn lemma_remaining_ordered(s: Seq<AssignmentView>, now: Timestamp)
    requires
        ordered(s, SortOrder::Calendar),
    ensures
        ordered(remaining(s, now), SortOrder::Calendar),
    decreases s.len(),
{
    let keep = |a: AssignmentView| a.outlasts(now);
    reveal(Seq::filter);
    if s.len() > 0 {
        let front = s.drop_last();
        assert forall|i: int, j: int| 0 <= i < j < front.len() implies crate::types::order::key_le(
            #[trigger] front[i].sort_key(SortOrder::Calendar),
            #[trigger] front[j].sort_key(SortOrder::Calendar),
        ) by {
            assert(crate::types::order::key_le(
                s[i].sort_key(SortOrder::Calendar),
                s[j].sort_key(SortOrder::Calendar),
            ));
        }
        lemma_remaining_ordered(front, now);
        let inner = front.filter(keep);
        let r = s.filter(keep);
        if keep(s.last()) {
            assert forall|i: int, j: int| 0 <= i < j < r.len() implies crate::types::order::key_le(
                #[trigger] r[i].sort_key(SortOrder::Calendar),
                #[trigger] r[j].sort_key(SortOrder::Calendar),
            ) by {
                if j < inner.len() {
                    assert(crate::types::order::key_le(
                        inner[i].sort_key(SortOrder::Calendar),
                        inner[j].sort_key(SortOrder::Calendar),
                    ));
                } else {
                    front.lemma_filter_contains_rev(keep, inner[i]);
                    let k = choose|k: int| 0 <= k < front.len() && front[k] == inner[i];
                    assert(crate::types::order::key_le(
                        s[k].sort_key(SortOrder::Calendar),
                        s[s.len() - 1].sort_key(SortOrder::Calendar),
                    ));
                }
            }
        }
    }
}

} // verus!
