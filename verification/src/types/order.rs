//! The order assignments are shown in, and the stable sort that puts them
//! into it.
use vstd::prelude::*;
use crate::types::assignment::{Assignment, AssignmentView};

verus! {

/// Which reading of the due date decides the order.
#[derive(Clone, Copy, Debug, PartialEq, Eq, Structural)]
pub enum SortOrder {
    /// By civil day on the due date's own clock, then open work before
    /// finished work.
    Calendar,
    /// By the instant the work is due.
    Instant,
}

/// The rank of an assignment: three numbers compared from left to right.
pub type SortKey = (int, int, int);

/// Lexicographic order of ranks.
pub open spec fn key_le(a: SortKey, b: SortKey) -> bool {
    a.0 < b.0 || (a.0 == b.0 && (a.1 < b.1 || (a.1 == b.1 && a.2 <= b.2)))
}

impl AssignmentView {
    /// The rank of this assignment. Assignments without a due date share
    /// the last rank. Dated ones rank by day and then by completion, or by
    /// second and nanosecond, as `order` says.
    pub open spec fn sort_key(self, order: SortOrder) -> SortKey {
        match self.date {
            None => (1, 0, 0),
            Some(due) => match order {
                SortOrder::Calendar => (0, due.local_day(), if self.completed { 1int } else { 0int }),
                SortOrder::Instant => (0, due.secs as int, due.nanos as int),
            },
        }
    }
}

/// Whether no assignment stands before one of lower rank.
pub open spec fn ordered(s: Seq<AssignmentView>, order: SortOrder) -> bool {
    forall|i: int, j: int|
        0 <= i < j < s.len() ==> key_le(#[trigger] s[i].sort_key(order), #[trigger] s[j].sort_key(order))
}

/// `s` with `x` put behind the last assignment that does not outrank it.
pub open spec fn placed(s: Seq<AssignmentView>, x: AssignmentView, order: SortOrder) -> Seq<
    AssignmentView,
>
    decreases s.len(),
{
    if s.len() == 0 {
        seq![x]
    } else if key_le(s.last().sort_key(order), x.sort_key(order)) {
        s.push(x)
    } else {
        placed(s.drop_last(), x, order).push(s.last())
    }
}

/// `s` in order of rank, assignments of equal rank in the order they had.
pub open spec fn stable_sort(s: Seq<AssignmentView>, order: SortOrder) -> Seq<AssignmentView>
    decreases s.len(),
{
    if s.len() == 0 {
        s
    } else {
        placed(stable_sort(s.drop_last(), order), s.last(), order)
    }
}

/// The row at which `x` comes to stand when it is put into `s`: behind
/// the last assignment that does not outrank it.
pub open spec fn placed_at(s: Seq<AssignmentView>, x: AssignmentView, order: SortOrder) -> int
    decreases s.len(),
{
    if s.len() == 0 {
        0
    } else if key_le(s.last().sort_key(order), x.sort_key(order)) {
        s.len() as int
    } else {
        placed_at(s.drop_last(), x, order)
    }
}

/// The row at which the assignment of row `i` stands once `s` is sorted.
pub open spec fn sorted_row(s: Seq<AssignmentView>, i: int, order: SortOrder) -> int
    decreases s.len(),
{
    if s.len() == 0 {
        0
    } else {
        let at = placed_at(stable_sort(s.drop_last(), order), s.last(), order);
        if i >= s.len() - 1 {
            at
        } else {
            let row = sorted_row(s.drop_last(), i, order);
            if row < at {
                row
            } else {
                row + 1
            }
        }
    }
}

/// The assignments of `s` that have rank `key`, in the order they stand.
pub open spec fn of_rank(s: Seq<AssignmentView>, order: SortOrder, key: SortKey) -> Seq<
    AssignmentView,
> {
    s.filter(|a: AssignmentView| a.sort_key(order) == key)
}

/// Putting `x` into `s` is inserting it at `at`, where everything from
/// `at` on outranks `x` and the assignment before `at` does not.
pub proof fn lemma_placed_is_insert(
    s: Seq<AssignmentView>,
    x: AssignmentView,
    order: SortOrder,
    at: int,
)
    requires
        0 <= at <= s.len(),
        forall|j: int| at <= j < s.len() ==> !key_le(#[trigger] s[j].sort_key(order), x.sort_key(order)),
        at > 0 ==> key_le(s[at - 1].sort_key(order), x.sort_key(order)),
    ensures
        placed(s, x, order) == s.insert(at, x),
        placed_at(s, x, order) == at,
    decreases s.len(),
{
    if s.len() == 0 {
        assert(seq![x] =~= s.insert(at, x));
    } else if at == s.len() {
        assert(s.push(x) =~= s.insert(at, x));
    } else {
        assert(!key_le(s[s.len() - 1].sort_key(order), x.sort_key(order)));
        lemma_placed_is_insert(s.drop_last(), x, order, at);
        assert(s.drop_last().insert(at, x).push(s.last()) =~= s.insert(at, x));
    }
}

/// Putting `x` into `s` inserts it at the row `placed_at` names.
pub proof fn lemma_placed_at(s: Seq<AssignmentView>, x: AssignmentView, order: SortOrder)
    ensures
        0 <= placed_at(s, x, order) <= s.len(),
        placed(s, x, order) == s.insert(placed_at(s, x, order), x),
    decreases s.len(),
{
    if s.len() == 0 {
        assert(seq![x] =~= s.insert(0, x));
    } else if key_le(s.last().sort_key(order), x.sort_key(order)) {
        assert(s.push(x) =~= s.insert(s.len() as int, x));
    } else {
        lemma_placed_at(s.drop_last(), x, order);
        let at = placed_at(s.drop_last(), x, order);
        assert(s.drop_last().insert(at, x).push(s.last()) =~= s.insert(at, x));
    }
}

/// Putting `x` into `s` adds `x` and nothing else.
pub proof fn lemma_placed_holds(s: Seq<AssignmentView>, x: AssignmentView, order: SortOrder)
    ensures
        placed(s, x, order).len() == s.len() + 1,
        placed(s, x, order).to_multiset() == s.to_multiset().insert(x),
        forall|i: int|
            0 <= i < placed(s, x, order).len() ==> #[trigger] placed(s, x, order)[i] == x || s.contains(
                placed(s, x, order)[i],
            ),
    decreases s.len(),
{
    broadcast use vstd::seq_lib::group_to_multiset_ensures;

    let r = placed(s, x, order);
    if s.len() == 0 {
        assert(s =~= Seq::empty());
        assert(r =~= Seq::<AssignmentView>::empty().push(x));
    } else if key_le(s.last().sort_key(order), x.sort_key(order)) {
        assert forall|i: int| 0 <= i < r.len() implies #[trigger] r[i] == x || s.contains(r[i]) by {
            if i < s.len() {
                assert(s[i] == r[i]);
            }
        }
    } else {
        let front = s.drop_last();
        lemma_placed_holds(front, x, order);
        let inner = placed(front, x, order);
        assert(s =~= front.push(s.last()));
        assert(front.push(s.last()).to_multiset() == front.to_multiset().insert(s.last()));
        assert(r.to_multiset() =~= s.to_multiset().insert(x));
        assert forall|i: int| 0 <= i < r.len() implies #[trigger] r[i] == x || s.contains(r[i]) by {
            if i < inner.len() {
                assert(r[i] == inner[i]);
                if inner[i] != x {
                    assert(front.contains(inner[i]));
                    let j = choose|j: int| 0 <= j < front.len() && front[j] == inner[i];
                    assert(s[j] == inner[i]);
                }
            } else {
                assert(r[i] == s[s.len() - 1]);
            }
        }
    }
}

/// Putting an assignment into an ordered sequence keeps it ordered.
pub proof fn lemma_placed_ordered(s: Seq<AssignmentView>, x: AssignmentView, order: SortOrder)
    requires
        ordered(s, order),
    ensures
        ordered(placed(s, x, order), order),
    decreases s.len(),
{
    let r = placed(s, x, order);
    if s.len() == 0 {
    } else if key_le(s.last().sort_key(order), x.sort_key(order)) {
        assert forall|i: int, j: int| 0 <= i < j < r.len() implies key_le(
            #[trigger] r[i].sort_key(order),
            #[trigger] r[j].sort_key(order),
        ) by {
            if j == s.len() {
                if i < s.len() - 1 {
                    assert(key_le(s[i].sort_key(order), s[s.len() - 1].sort_key(order)));
                }
            } else {
                assert(key_le(s[i].sort_key(order), s[j].sort_key(order)));
            }
        }
    } else {
        let front = s.drop_last();
        assert forall|i: int, j: int| 0 <= i < j < front.len() implies key_le(
            #[trigger] front[i].sort_key(order),
            #[trigger] front[j].sort_key(order),
        ) by {
            assert(key_le(s[i].sort_key(order), s[j].sort_key(order)));
        }
        lemma_placed_ordered(front, x, order);
        lemma_placed_holds(front, x, order);
        let inner = placed(front, x, order);
        assert forall|i: int, j: int| 0 <= i < j < r.len() implies key_le(
            #[trigger] r[i].sort_key(order),
            #[trigger] r[j].sort_key(order),
        ) by {
            if j < inner.len() {
                assert(key_le(inner[i].sort_key(order), inner[j].sort_key(order)));
            } else {
                assert(r[j] == s.last());
                assert(r[i] == inner[i]);
                if inner[i] != x {
                    let k = choose|k: int| 0 <= k < front.len() && front[k] == inner[i];
                    assert(key_le(s[k].sort_key(order), s[s.len() - 1].sort_key(order)));
                }
            }
        }
    }
}

/// Putting `x` into `s` leaves each rank's assignments in the order they
/// would have with `x` at the end.
pub proof fn lemma_placed_of_rank(
    s: Seq<AssignmentView>,
    x: AssignmentView,
    order: SortOrder,
    key: SortKey,
)
    ensures
        of_rank(placed(s, x, order), order, key) == of_rank(s.push(x), order, key),
    decreases s.len(),
{
    let has = |a: AssignmentView| a.sort_key(order) == key;
    if s.len() == 0 {
        assert(seq![x] =~= s.push(x));
    } else if key_le(s.last().sort_key(order), x.sort_key(order)) {
    } else {
        let front = s.drop_last();
        let last = s.last();
        lemma_placed_of_rank(front, x, order, key);
        placed(front, x, order).lemma_filter_push(last, has);
        front.lemma_filter_push(x, has);
        front.lemma_filter_push(last, has);
        assert(s =~= front.push(last));
        s.lemma_filter_push(x, has);
    }
}

/// Sorting yields an ordered sequence of the same assignments, and within
/// each rank they keep the order they had.
pub proof fn lemma_stable_sort_sorts(s: Seq<AssignmentView>, order: SortOrder)
    ensures
        stable_sort(s, order).len() == s.len(),
        ordered(stable_sort(s, order), order),
        stable_sort(s, order).to_multiset() == s.to_multiset(),
        forall|key: SortKey| #[trigger]
            of_rank(stable_sort(s, order), order, key) == of_rank(s, order, key),
    decreases s.len(),
{
    broadcast use vstd::seq_lib::group_to_multiset_ensures;

    if s.len() == 0 {
    } else {
        let front = s.drop_last();
        let last = s.last();
        lemma_stable_sort_sorts(front, order);
        let inner = stable_sort(front, order);
        lemma_placed_holds(inner, last, order);
        lemma_placed_ordered(inner, last, order);
        assert(s =~= front.push(last));
        assert(front.push(last).to_multiset() == front.to_multiset().insert(last));
        assert forall|key: SortKey| #[trigger]
            of_rank(stable_sort(s, order), order, key) == of_rank(s, order, key) by {
            let has = |a: AssignmentView| a.sort_key(order) == key;
            lemma_placed_of_rank(inner, last, order, key);
            inner.lemma_filter_push(last, has);
            front.lemma_filter_push(last, has);
            assert(of_rank(inner, order, key) == of_rank(front, order, key));
        }
    }
}

/// Taking the last assignment away takes it out of its own rank and
/// leaves the other ranks as they are.
proof fn lemma_of_rank_drop_last(s: Seq<AssignmentView>, order: SortOrder, key: SortKey)
    requires
        s.len() > 0,
    ensures
        of_rank(s, order, key) == if s.last().sort_key(order) == key {
            of_rank(s.drop_last(), order, key).push(s.last())
        } else {
            of_rank(s.drop_last(), order, key)
        },
{
    let has = |a: AssignmentView| a.sort_key(order) == key;
    assert(s =~= s.drop_last().push(s.last()));
    s.drop_last().lemma_filter_push(s.last(), has);
}

/// In an ordered sequence every rank that occurs is at most the last
/// assignment's.
proof fn lemma_rank_below_last(s: Seq<AssignmentView>, order: SortOrder, key: SortKey)
    requires
        ordered(s, order),
        of_rank(s, order, key).len() > 0,
    ensures
        s.len() > 0,
        key_le(key, s.last().sort_key(order)),
{
    let has = |a: AssignmentView| a.sort_key(order) == key;
    let found = of_rank(s, order, key)[0];
    s.lemma_filter_pred(has, 0);
    s.lemma_filter_contains_rev(has, found);
    let i = choose|i: int| 0 <= i < s.len() && s[i] == found;
    if i < s.len() - 1 {
        assert(key_le(s[i].sort_key(order), s[s.len() - 1].sort_key(order)));
    }
}

/// Two ordered sequences that hold, rank by rank, the same assignments
/// in the same order are one and the same.
pub proof fn lemma_ordered_unique(r: Seq<AssignmentView>, t: Seq<AssignmentView>, order: SortOrder)
    requires
        ordered(r, order),
        ordered(t, order),
        forall|key: SortKey| #[trigger] of_rank(r, order, key) == of_rank(t, order, key),
    ensures
        r == t,
    decreases r.len(),
{
    if r.len() == 0 || t.len() == 0 {
        let longer = if r.len() == 0 { t } else { r };
        if longer.len() > 0 {
            let key = longer[0].sort_key(order);
            longer.lemma_filter_contains(|a: AssignmentView| a.sort_key(order) == key, 0);
            assert(of_rank(longer, order, key).len() > 0);
            assert(of_rank(r, order, key) == of_rank(t, order, key));
            r.lemma_filter_len(|a: AssignmentView| a.sort_key(order) == key);
            t.lemma_filter_len(|a: AssignmentView| a.sort_key(order) == key);
        }
        assert(r =~= t);
    } else {
        let top = r.last().sort_key(order);
        let other = t.last().sort_key(order);
        lemma_of_rank_drop_last(r, order, top);
        lemma_of_rank_drop_last(t, order, other);
        assert(of_rank(r, order, other) == of_rank(t, order, other));
        assert(of_rank(r, order, top) == of_rank(t, order, top));
        lemma_rank_below_last(r, order, other);
        lemma_rank_below_last(t, order, top);
        assert(top == other);
        lemma_of_rank_drop_last(t, order, top);
        let short_r = r.drop_last();
        let short_t = t.drop_last();
        assert(of_rank(short_r, order, top).push(r.last()).drop_last() =~= of_rank(short_r, order, top));
        assert(of_rank(short_t, order, top).push(t.last()).drop_last() =~= of_rank(short_t, order, top));
        assert(of_rank(short_r, order, top).push(r.last()).last() == r.last());
        assert(of_rank(short_t, order, top).push(t.last()).last() == t.last());
        assert(r.last() == t.last());
        assert forall|key: SortKey| #[trigger]
            of_rank(short_r, order, key) == of_rank(short_t, order, key) by {
            lemma_of_rank_drop_last(r, order, key);
            lemma_of_rank_drop_last(t, order, key);
            assert(of_rank(r, order, key) == of_rank(t, order, key));
        }
        assert forall|i: int, j: int| 0 <= i < j < short_r.len() implies key_le(
            #[trigger] short_r[i].sort_key(order),
            #[trigger] short_r[j].sort_key(order),
        ) by {
            assert(key_le(r[i].sort_key(order), r[j].sort_key(order)));
        }
        assert forall|i: int, j: int| 0 <= i < j < short_t.len() implies key_le(
            #[trigger] short_t[i].sort_key(order),
            #[trigger] short_t[j].sort_key(order),
        ) by {
            assert(key_le(t[i].sort_key(order), t[j].sort_key(order)));
        }
        lemma_ordered_unique(short_r, short_t, order);
        assert(r =~= short_r.push(r.last()));
        assert(t =~= short_t.push(t.last()));
    }
}

/// The stable sort is the only sequence that is ordered and holds, rank
/// by rank, the assignments of `s` in the order they had.
pub proof fn lemma_stable_sort_unique(r: Seq<AssignmentView>, s: Seq<AssignmentView>, order: SortOrder)
    requires
        ordered(r, order),
        forall|key: SortKey| #[trigger] of_rank(r, order, key) == of_rank(s, order, key),
    ensures
        r == stable_sort(s, order),
{
    lemma_stable_sort_sorts(s, order);
    let t = stable_sort(s, order);
    assert forall|key: SortKey| #[trigger] of_rank(r, order, key) == of_rank(t, order, key) by {
        assert(of_rank(r, order, key) == of_rank(s, order, key));
        assert(of_rank(t, order, key) == of_rank(s, order, key));
    }
    lemma_ordered_unique(r, t, order);
}

/// Sorting moves the assignment of row `i` to the row `sorted_row`
/// names, and no two assignments to the same row.
pub proof fn lemma_sorted_row(s: Seq<AssignmentView>, i: int, order: SortOrder)
    requires
        0 <= i < s.len(),
    ensures
        0 <= sorted_row(s, i, order) < s.len(),
        stable_sort(s, order).len() == s.len(),
        stable_sort(s, order)[sorted_row(s, i, order)] == s[i],
        forall|j: int| 0 <= j < s.len() && j != i ==> sorted_row(s, j, order) != sorted_row(s, i, order),
    decreases s.len(),
{
    let front = s.drop_last();
    let inner = stable_sort(front, order);
    lemma_stable_sort_sorts(front, order);
    lemma_stable_sort_sorts(s, order);
    lemma_placed_at(inner, s.last(), order);
    let at = placed_at(inner, s.last(), order);
    assert(stable_sort(s, order) == inner.insert(at, s.last()));
    if i < s.len() - 1 {
        lemma_sorted_row(front, i, order);
        assert(front[i] == s[i]);
    }
    assert forall|j: int| 0 <= j < s.len() && j != i implies sorted_row(s, j, order) != sorted_row(
        s,
        i,
        order,
    ) by {
        if j < s.len() - 1 {
            lemma_sorted_row(front, j, order);
        }
    }
}

/// Sorting a sequence that is already in order changes nothing.
pub proof fn lemma_stable_sort_of_ordered(s: Seq<AssignmentView>, order: SortOrder)
    requires
        ordered(s, order),
    ensures
        stable_sort(s, order) == s,
    decreases s.len(),
{
    if s.len() > 0 {
        let front = s.drop_last();
        assert forall|i: int, j: int| 0 <= i < j < front.len() implies key_le(
            #[trigger] front[i].sort_key(order),
            #[trigger] front[j].sort_key(order),
        ) by {
            assert(key_le(s[i].sort_key(order), s[j].sort_key(order)));
        }
        lemma_stable_sort_of_ordered(front, order);
        if front.len() > 0 {
            assert(key_le(s[front.len() - 1].sort_key(order), s[s.len() - 1].sort_key(order)));
        }
        assert(front.push(s.last()) =~= s);
    }
}

/// Sorting twice is sorting once.
pub proof fn lemma_stable_sort_idempotent(s: Seq<AssignmentView>, order: SortOrder)
    ensures
        stable_sort(stable_sort(s, order), order) == stable_sort(s, order),
{
    lemma_stable_sort_sorts(s, order);
    lemma_stable_sort_of_ordered(stable_sort(s, order), order);
}

/// Whether `a` must stand behind `b`: its rank is strictly higher.
pub fn sorts_after(a: &Assignment, b: &Assignment, order: SortOrder) -> (after: bool)
    ensures
        after == !key_le(a@.sort_key(order), b@.sort_key(order)),
{
    match (a.date, b.date) {
        (None, None) => false,
        (None, Some(_)) => true,
        (Some(_), None) => false,
        (Some(due_a), Some(due_b)) => match order {
            SortOrder::Calendar => {
                let day_a: i64 = due_a.day_number();
                let day_b: i64 = due_b.day_number();
                day_a > day_b || (day_a == day_b && a.completed && !b.completed)
            },
            SortOrder::Instant => due_a.secs > due_b.secs || (due_a.secs == due_b.secs && due_a.nanos
                > due_b.nanos),
        },
    }
}

/// Sorts the assignments by rank. Assignments of equal rank keep the
/// order they had.
pub fn sort_by_rank(items: &mut Vec<Assignment>, order: SortOrder)
    ensures
        final(items).deep_view() == stable_sort(old(items).deep_view(), order),
        ordered(final(items).deep_view(), order),
        final(items).deep_view().to_multiset() == old(items).deep_view().to_multiset(),
        forall|key: SortKey| #[trigger]
            of_rank(final(items).deep_view(), order, key) == of_rank(old(items).deep_view(), order, key),
{
    let _ = sort_by_rank_keeping(items, order, None);
}

/// Sorts the assignments by rank, as `sort_by_rank` does, and follows
/// one of them: given the row an assignment stands at, returns the row
/// it stands at afterwards. A row that does not exist is followed
/// nowhere.
pub fn sort_by_rank_keeping(items: &mut Vec<Assignment>, order: SortOrder, row: Option<usize>) -> (moved:
    Option<usize>)
    ensures
        final(items).deep_view() == stable_sort(old(items).deep_view(), order),
        ordered(final(items).deep_view(), order),
        final(items).deep_view().to_multiset() == old(items).deep_view().to_multiset(),
        forall|key: SortKey| #[trigger]
            of_rank(final(items).deep_view(), order, key) == of_rank(old(items).deep_view(), order, key),
        match row {
            Some(r) => if r < old(items).len() {
                &&& moved matches Some(m)
                &&& m == sorted_row(old(items).deep_view(), r as int, order)
                &&& m < final(items).len()
                &&& final(items).deep_view()[m as int] == old(items).deep_view()[r as int]
            } else {
                moved is None
            },
            None => moved is None,
        },
{
    let ghost start = items.deep_view();
    let n: usize = items.len();
    let mut followed: Option<usize> = match row {
        Some(r) => if r < n {
            Some(r)
        } else {
            None
        },
        None => None,
    };
    let mut i: usize = 0;
    proof {
        assert(start.take(0) =~= Seq::<AssignmentView>::empty());
        assert(items.deep_view().take(0) =~= stable_sort(start.take(0), order));
    }
    while i < n
        invariant
            i <= n,
            n == items.len(),
            start.len() == n,
            items.deep_view().take(i as int) == stable_sort(start.take(i as int), order),
            items.deep_view().skip(i as int) == start.skip(i as int),
            match row {
                Some(r) => if r < n {
                    &&& followed matches Some(m)
                    &&& m == if r < i {
                        sorted_row(start.take(i as int), r as int, order)
                    } else {
                        r as int
                    }
                    &&& m < n
                } else {
                    followed is None
                },
                None => followed is None,
            },
        decreases n - i,
    {
        let ghost now = items.deep_view();
        let ghost head = now.take(i as int);
        let ghost x = now[i as int];
        let mut at: usize = i;
        while at > 0 && sorts_after(&items[at - 1], &items[i], order)
            invariant
                at <= i < n,
                n == items.len(),
                now == items.deep_view(),
                x == now[i as int],
                forall|j: int| at <= j < i ==> !key_le(#[trigger] now[j].sort_key(order), x.sort_key(order)),
            decreases at,
        {
            at -= 1;
        }
        proof {
            assert(x == start.skip(i as int)[0]);
            assert(start.take(i + 1).drop_last() =~= start.take(i as int));
            assert(start.take(i + 1).last() == x);
            assert(stable_sort(start.take(i + 1), order) == placed(head, x, order));
            assert forall|j: int| at <= j < head.len() implies !key_le(
                #[trigger] head[j].sort_key(order),
                x.sort_key(order),
            ) by {
                assert(head[j] == now[j]);
            }
            if at > 0 {
                assert(head[at - 1] == now[at - 1]);
            }
            lemma_placed_is_insert(head, x, order, at as int);
            if let Some(r) = row {
                if r < i {
                    lemma_stable_sort_sorts(start.take(i as int), order);
                    lemma_sorted_row(start.take(i as int), r as int, order);
                }
            }
        }
        if at < i {
            let item = items.remove(i);
            items.insert(at, item);
        }
        if let Some(m) = followed {
            if let Some(r) = row {
                if r == i {
                    followed = Some(at);
                } else if r < i && m >= at {
                    followed = Some(m + 1);
                }
            }
        }
        proof {
            let after = items.deep_view();
            assert(after.take(i + 1) =~= head.insert(at as int, x));
            assert forall|k: int| i + 1 <= k < n implies #[trigger] after[k] == start[k] by {
                assert(now[k] == now.skip(i as int)[k - i]);
                assert(start[k] == start.skip(i as int)[k - i]);
            }
            assert(after.skip(i + 1) =~= start.skip(i + 1));
        }
        i += 1;
    }
    proof {
        assert(items.deep_view().take(n as int) =~= items.deep_view());
        assert(start.take(n as int) =~= start);
        lemma_stable_sort_sorts(start, order);
        if let Some(r) = row {
            if r < n {
                lemma_sorted_row(start, r as int, order);
            }
        }
    }
    followed
}

} // verus!
