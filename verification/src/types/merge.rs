//! How freshly fetched assignments are taken into the local collection.
use vstd::prelude::*;
use crate::types::assignment::AssignmentView;
use crate::types::link::links_in;
use crate::types::order::{
    lemma_stable_sort_of_ordered, lemma_stable_sort_sorts, placed, stable_sort, SortOrder,
};

verus! {

impl AssignmentView {
    /// This local record after a fetched record with the same address
    /// came in: lock, description, due date and links are the fetched
    /// ones; completion is gained from the fetched record but never lost,
    /// and not touched at all once the user has set it by hand.
    pub open spec fn refreshed(self, incoming: AssignmentView) -> AssignmentView {
        AssignmentView {
            completed: if self.modified {
                self.completed
            } else {
                self.completed || incoming.completed
            },
            locked: incoming.locked,
            description: incoming.description,
            date: incoming.date,
            links: links_in(incoming.description),
            ..self
        }
    }

    /// The address under which fetched records find this record: its
    /// own, unless the user wrote the record, which no fetched record
    /// ever finds.
    pub open spec fn address(self) -> Option<Seq<char>> {
        if self.custom {
            None
        } else {
            Some(self.html_url)
        }
    }

    /// The local record a fetched record becomes when none has its
    /// address yet.
    pub open spec fn adopted(self) -> AssignmentView {
        AssignmentView { custom: false, modified: false, links: links_in(self.description), ..self }
    }
}

/// Index of the first fetched record of `s` with the address `url`, or
/// the length of `s` where there is none. Records the user wrote are
/// passed over.
pub open spec fn url_index(s: Seq<AssignmentView>, url: Seq<char>) -> int
    decreases s.len(),
{
    if s.len() == 0 {
        0
    } else {
        let before = url_index(s.drop_last(), url);
        if before < s.len() - 1 {
            before
        } else if s.last().address() == Some(url) {
            s.len() - 1
        } else {
            s.len() as int
        }
    }
}

/// Whether some fetched record of `s` has the address `url`.
pub open spec fn has_url(s: Seq<AssignmentView>, url: Seq<char>) -> bool {
    url_index(s, url) < s.len()
}

/// The collection after one fetched record came in: the first fetched
/// local record with its address is refreshed, or, where there is none,
/// the record is adopted at the end.
pub open spec fn merge_one(s: Seq<AssignmentView>, incoming: AssignmentView) -> Seq<AssignmentView> {
    let at = url_index(s, incoming.html_url);
    if at < s.len() {
        s.update(at, s[at].refreshed(incoming))
    } else {
        s.push(incoming.adopted())
    }
}

/// The collection after a batch came in, record by record, before it is
/// put back in order.
pub open spec fn merge_all(s: Seq<AssignmentView>, batch: Seq<AssignmentView>) -> Seq<AssignmentView>
    decreases batch.len(),
{
    if batch.len() == 0 {
        s
    } else {
        merge_one(merge_all(s, batch.drop_last()), batch.last())
    }
}

/// The collection after a batch came in.
pub open spec fn merged(s: Seq<AssignmentView>, batch: Seq<AssignmentView>) -> Seq<AssignmentView> {
    stable_sort(merge_all(s, batch), SortOrder::Calendar)
}

/// `url_index` is the first index at which a fetched record with the
/// address stands.
pub proof fn lemma_url_index(s: Seq<AssignmentView>, url: Seq<char>)
    ensures
        0 <= url_index(s, url) <= s.len(),
        forall|j: int| 0 <= j < url_index(s, url) ==> (#[trigger] s[j]).address() != Some(url),
        url_index(s, url) < s.len() ==> s[url_index(s, url)].address() == Some(url),
    decreases s.len(),
{
    if s.len() > 0 {
        lemma_url_index(s.drop_last(), url);
        assert forall|j: int| 0 <= j < url_index(s, url) implies (#[trigger] s[j]).address() != Some(url) by {
            if j < s.len() - 1 {
                assert(s.drop_last()[j] == s[j]);
            }
        }
    }
}

/// An index at which a fetched record with the address stands, with
/// none before it, is `url_index`.
pub proof fn lemma_url_index_is(s: Seq<AssignmentView>, url: Seq<char>, at: int)
    requires
        0 <= at <= s.len(),
        forall|j: int| 0 <= j < at ==> (#[trigger] s[j]).address() != Some(url),
        at < s.len() ==> s[at].address() == Some(url),
    ensures
        url_index(s, url) == at,
{
    lemma_url_index(s, url);
    let k = url_index(s, url);
    if k < at {
        assert(s[k].address() != Some(url));
    } else if at < k {
        assert(s[at].address() != Some(url));
    }
}

/// Index of the last record of `batch` with the address `url`, or -1
/// where there is none.
pub open spec fn last_mention(batch: Seq<AssignmentView>, url: Seq<char>) -> int
    decreases batch.len(),
{
    if batch.len() == 0 {
        -1
    } else if batch.last().html_url == url {
        batch.len() - 1
    } else {
        last_mention(batch.drop_last(), url)
    }
}

/// Whether some record of `batch` with the address `url` is completed.
pub open spec fn reported_done(batch: Seq<AssignmentView>, url: Seq<char>) -> bool
    decreases batch.len(),
{
    if batch.len() == 0 {
        false
    } else {
        reported_done(batch.drop_last(), url) || (batch.last().html_url == url && batch.last().completed)
    }
}

/// How many fetched records of `s` have the address `url`.
pub open spec fn url_count(s: Seq<AssignmentView>, url: Seq<char>) -> nat
    decreases s.len(),
{
    if s.len() == 0 {
        0
    } else {
        url_count(s.drop_last(), url) + if s.last().address() == Some(url) {
            1nat
        } else {
            0nat
        }
    }
}

/// Whether no address of `batch` stands on two fetched records of `s`.
pub open spec fn unambiguous(s: Seq<AssignmentView>, batch: Seq<AssignmentView>) -> bool {
    forall|k: int| 0 <= k < batch.len() ==> url_count(s, (#[trigger] batch[k]).html_url) <= 1
}

impl AssignmentView {
    /// This local record after every record of `batch` with its address
    /// came in: lock, description, due date and links are those of the
    /// last such record; it is completed if it was, or if the user has
    /// not set completion by hand and one of them is. A record the user
    /// wrote stays as it is.
    pub open spec fn absorbed(self, batch: Seq<AssignmentView>) -> AssignmentView {
        let last = last_mention(batch, self.html_url);
        if self.custom || last < 0 {
            self
        } else {
            AssignmentView {
                completed: if self.modified {
                    self.completed
                } else {
                    self.completed || reported_done(batch, self.html_url)
                },
                locked: batch[last].locked,
                description: batch[last].description,
                date: batch[last].date,
                links: links_in(batch[last].description),
                ..self
            }
        }
    }
}

/// `last_mention` is the last index at which the address stands.
pub proof fn lemma_last_mention(batch: Seq<AssignmentView>, url: Seq<char>)
    ensures
        -1 <= last_mention(batch, url) < batch.len(),
        last_mention(batch, url) >= 0 ==> batch[last_mention(batch, url)].html_url == url,
        forall|k: int| last_mention(batch, url) < k < batch.len() ==> (#[trigger] batch[k]).html_url != url,
        last_mention(batch, url) < 0 ==> !reported_done(batch, url),
    decreases batch.len(),
{
    if batch.len() > 0 {
        lemma_last_mention(batch.drop_last(), url);
        assert forall|k: int| last_mention(batch, url) < k < batch.len() implies (#[trigger] batch[k]).html_url
            != url by {
            if k < batch.len() - 1 {
                assert(batch.drop_last()[k] == batch[k]);
            }
        }
    }
}

/// A completed record with the address makes the batch report it done.
pub proof fn lemma_reported_done(batch: Seq<AssignmentView>, url: Seq<char>, k: int)
    requires
        0 <= k < batch.len(),
        batch[k].html_url == url,
        batch[k].completed,
    ensures
        reported_done(batch, url),
    decreases batch.len(),
{
    if k < batch.len() - 1 {
        assert(batch.drop_last()[k] == batch[k]);
        lemma_reported_done(batch.drop_last(), url, k);
    }
}

/// Absorbing a batch record by record: a record with another address
/// changes nothing, one with the same address refreshes a fetched
/// record.
pub proof fn lemma_absorbed_step(local: AssignmentView, batch: Seq<AssignmentView>, incoming: AssignmentView)
    ensures
        local.absorbed(batch.push(incoming)) == if local.address() == Some(incoming.html_url) {
            local.absorbed(batch).refreshed(incoming)
        } else {
            local.absorbed(batch)
        },
{
    let longer = batch.push(incoming);
    assert(longer.drop_last() =~= batch);
    assert(longer.last() == incoming);
    lemma_last_mention(batch, local.html_url);
    let last = last_mention(batch, local.html_url);
    if local.address() != Some(incoming.html_url) {
        if last >= 0 {
            assert(longer[last] == batch[last]);
        }
    }
}

/// What `url_count` and `url_index` say of each other.
pub proof fn lemma_url_count(s: Seq<AssignmentView>, url: Seq<char>)
    ensures
        url_count(s, url) == 0 <==> url_index(s, url) == s.len(),
        url_count(s, url) == 0 ==> forall|i: int| 0 <= i < s.len() ==> (#[trigger] s[i]).address() != Some(url),
        url_count(s, url) <= 1 ==> forall|i: int|
            0 <= i < s.len() && (#[trigger] s[i]).address() == Some(url) ==> url_index(s, url) == i,
    decreases s.len(),
{
    lemma_url_index(s, url);
    if s.len() > 0 {
        let front = s.drop_last();
        lemma_url_count(front, url);
        lemma_url_index(front, url);
        assert forall|i: int| 0 <= i < front.len() implies front[i] == s[i] by {}
        if url_count(s, url) == 0 {
            assert forall|i: int| 0 <= i < s.len() implies (#[trigger] s[i]).address() != Some(url) by {
                if i < front.len() {
                    assert(front[i].address() != Some(url));
                }
            }
        }
        if url_index(s, url) == s.len() {
            assert(url_index(front, url) == front.len());
        }
        if url_count(s, url) <= 1 {
            assert forall|i: int| 0 <= i < s.len() && (#[trigger] s[i]).address() == Some(url) implies url_index(
                s,
                url,
            ) == i by {
                if i < front.len() {
                    assert(front[i].address() == Some(url));
                    assert(url_count(front, url) >= 1);
                    assert(url_index(front, url) == i);
                } else {
                    if s.last().address() == Some(url) {
                        assert(url_count(front, url) == 0);
                    }
                }
            }
        }
    }
}

/// Sequences with the same addresses in the same places count and find
/// addresses alike.
pub proof fn lemma_same_urls(s: Seq<AssignmentView>, t: Seq<AssignmentView>, url: Seq<char>)
    requires
        s.len() == t.len(),
        forall|i: int| 0 <= i < s.len() ==> (#[trigger] s[i]).address() == t[i].address(),
    ensures
        url_count(s, url) == url_count(t, url),
        url_index(s, url) == url_index(t, url),
    decreases s.len(),
{
    if s.len() > 0 {
        assert forall|i: int| 0 <= i < s.drop_last().len() implies (#[trigger] s.drop_last()[i]).address()
            == t.drop_last()[i].address() by {
            assert(s[i].address() == t[i].address());
        }
        lemma_same_urls(s.drop_last(), t.drop_last(), url);
        assert(s[s.len() - 1].address() == t[s.len() - 1].address());
    }
}

/// Putting a record into a sequence counts its address once more.
pub proof fn lemma_url_count_placed(
    s: Seq<AssignmentView>,
    x: AssignmentView,
    order: SortOrder,
    url: Seq<char>,
)
    ensures
        url_count(placed(s, x, order), url) == url_count(s, url) + if x.address() == Some(url) {
            1nat
        } else {
            0nat
        },
    decreases s.len(),
{
    if s.len() == 0 {
        assert(seq![x].drop_last() =~= s);
    } else if crate::types::order::key_le(s.last().sort_key(order), x.sort_key(order)) {
        assert(s.push(x).drop_last() =~= s);
    } else {
        lemma_url_count_placed(s.drop_last(), x, order, url);
        let inner = placed(s.drop_last(), x, order);
        assert(inner.push(s.last()).drop_last() =~= inner);
    }
}

/// Sorting does not change how often an address stands.
pub proof fn lemma_url_count_sorted(s: Seq<AssignmentView>, order: SortOrder, url: Seq<char>)
    ensures
        url_count(stable_sort(s, order), url) == url_count(s, url),
    decreases s.len(),
{
    if s.len() > 0 {
        lemma_url_count_sorted(s.drop_last(), order, url);
        lemma_url_count_placed(stable_sort(s.drop_last(), order), s.last(), order, url);
    }
}

/// What one merge step does to the count of an address.
pub proof fn lemma_url_count_merge_one(s: Seq<AssignmentView>, incoming: AssignmentView, url: Seq<char>)
    ensures
        url_count(merge_one(s, incoming), url) == url_count(s, url) + if !has_url(s, incoming.html_url)
            && incoming.html_url == url {
            1nat
        } else {
            0nat
        },
{
    let at = url_index(s, incoming.html_url);
    lemma_url_index(s, incoming.html_url);
    let m = merge_one(s, incoming);
    if at < s.len() {
        assert forall|i: int| 0 <= i < s.len() implies (#[trigger] m[i]).address() == s[i].address() by {}
        lemma_same_urls(m, s, url);
    } else {
        assert(m.drop_last() =~= s);
    }
}

/// After a batch came in to a collection on which none of its addresses
/// stood on two fetched records: no address that stood on at most one
/// stands on two, every address of the batch stands on exactly one, and
/// every record has absorbed the batch.
pub proof fn lemma_merge_all_settles(s: Seq<AssignmentView>, batch: Seq<AssignmentView>)
    requires
        unambiguous(s, batch),
    ensures
        forall|url: Seq<char>|
            url_count(s, url) <= 1 ==> #[trigger] url_count(merge_all(s, batch), url) <= 1,
        forall|k: int|
            0 <= k < batch.len() ==> url_count(merge_all(s, batch), (#[trigger] batch[k]).html_url) == 1,
        forall|i: int|
            0 <= i < merge_all(s, batch).len() ==> (#[trigger] merge_all(s, batch)[i]).absorbed(batch)
                == merge_all(s, batch)[i],
    decreases batch.len(),
{
    let m = merge_all(s, batch);
    if batch.len() == 0 {
        assert forall|i: int| 0 <= i < m.len() implies (#[trigger] m[i]).absorbed(batch) == m[i] by {}
    } else {
        let front = batch.drop_last();
        let x = batch.last();
        let u = x.html_url;
        assert(batch =~= front.push(x));
        assert forall|k: int| 0 <= k < front.len() implies url_count(s, (#[trigger] front[k]).html_url)
            <= 1 by {
            assert(front[k] == batch[k]);
        }
        lemma_merge_all_settles(s, front);
        let m0 = merge_all(s, front);
        let at = url_index(m0, u);
        assert(url_count(s, batch[batch.len() - 1].html_url) <= 1);
        assert(url_count(m0, u) <= 1);
        lemma_url_count(m0, u);
        lemma_url_index(m0, u);
        assert forall|url: Seq<char>| url_count(s, url) <= 1 implies #[trigger] url_count(m, url)
            <= 1 by {
            lemma_url_count_merge_one(m0, x, url);
            assert(url_count(m0, url) <= 1);
        }
        assert forall|k: int| 0 <= k < batch.len() implies url_count(m, (#[trigger] batch[k]).html_url)
            == 1 by {
            lemma_url_count_merge_one(m0, x, batch[k].html_url);
            if k < front.len() {
                assert(front[k] == batch[k]);
                assert(url_count(m0, front[k].html_url) == 1);
            }
        }
        assert forall|i: int| 0 <= i < m.len() implies (#[trigger] m[i]).absorbed(batch) == m[i] by {
            lemma_absorbed_step(m[i], front, x);
            if at < m0.len() {
                if i == at {
                    let before = m0[at];
                    assert(before.absorbed(front) == before);
                    lemma_last_mention(front, u);
                    lemma_absorbed_step(before, front, x);
                } else {
                    assert(m[i] == m0[i]);
                    assert(m0[i].absorbed(front) == m0[i]);
                    if m0[i].address() == Some(u) {
                        assert(url_index(m0, u) == i);
                    }
                }
            } else {
                if i < m0.len() {
                    assert(m[i] == m0[i]);
                    assert(m0[i].absorbed(front) == m0[i]);
                    assert(m0[i].address() != Some(u));
                } else {
                    assert(m[i] == x.adopted());
                    lemma_last_mention(front, u);
                    let last = last_mention(front, u);
                    if last >= 0 {
                        assert(front[last].html_url == u);
                        assert(url_count(m0, front[last].html_url) == 1);
                    }
                }
            }
        }
    }
}

/// A batch that comes in to a collection on which each of its addresses
/// stands on exactly one fetched record appends nothing: every record
/// absorbs it in place.
pub proof fn lemma_merge_all_in_place(t: Seq<AssignmentView>, batch: Seq<AssignmentView>)
    requires
        forall|k: int| 0 <= k < batch.len() ==> url_count(t, (#[trigger] batch[k]).html_url) == 1,
    ensures
        merge_all(t, batch).len() == t.len(),
        forall|i: int| 0 <= i < t.len() ==> merge_all(t, batch)[i] == (#[trigger] t[i]).absorbed(batch),
    decreases batch.len(),
{
    if batch.len() > 0 {
        let front = batch.drop_last();
        let x = batch.last();
        let u = x.html_url;
        assert(batch =~= front.push(x));
        assert forall|k: int| 0 <= k < front.len() implies url_count(t, (#[trigger] front[k]).html_url)
            == 1 by {
            assert(front[k] == batch[k]);
        }
        lemma_merge_all_in_place(t, front);
        let n0 = merge_all(t, front);
        assert forall|i: int| 0 <= i < n0.len() implies (#[trigger] n0[i]).address() == t[i].address() by {
            assert(n0[i] == t[i].absorbed(front));
        }
        lemma_same_urls(n0, t, u);
        assert(url_count(t, batch[batch.len() - 1].html_url) == 1);
        lemma_url_count(n0, u);
        lemma_url_index(n0, u);
        let at = url_index(n0, u);
        let n = merge_all(t, batch);
        assert forall|i: int| 0 <= i < t.len() implies n[i] == (#[trigger] t[i]).absorbed(batch) by {
            lemma_absorbed_step(t[i], front, x);
            assert(n0[i] == t[i].absorbed(front));
            if i != at && t[i].address() == Some(u) {
                assert(n0[i].address() == Some(u));
                assert(url_index(n0, u) == i);
            }
        }
    }
}

/// Merging the same batch a second time changes nothing, provided that
/// none of the batch's addresses stands on two fetched local records.
/// Records the user wrote never stand in the way.
pub proof fn lemma_merge_idempotent(s: Seq<AssignmentView>, batch: Seq<AssignmentView>)
    requires
        unambiguous(s, batch),
    ensures
        merged(merged(s, batch), batch) == merged(s, batch),
{
    broadcast use vstd::seq_lib::group_to_multiset_ensures;

    let m = merge_all(s, batch);
    let t = stable_sort(m, SortOrder::Calendar);
    lemma_merge_all_settles(s, batch);
    lemma_stable_sort_sorts(m, SortOrder::Calendar);
    assert forall|k: int| 0 <= k < batch.len() implies url_count(t, (#[trigger] batch[k]).html_url)
        == 1 by {
        lemma_url_count_sorted(m, SortOrder::Calendar, batch[k].html_url);
    }
    lemma_merge_all_in_place(t, batch);
    let again = merge_all(t, batch);
    assert forall|i: int| 0 <= i < t.len() implies again[i] == t[i] by {
        assert(t.to_multiset().count(t[i]) > 0);
        assert(m.to_multiset().count(t[i]) > 0);
        assert(m.contains(t[i]));
        let j = choose|j: int| 0 <= j < m.len() && m[j] == t[i];
        assert(m[j].absorbed(batch) == m[j]);
    }
    assert(again =~= t);
    lemma_stable_sort_of_ordered(t, SortOrder::Calendar);
}

/// The local records after a batch came in, each in its place: the first
/// fetched record with an address has absorbed the batch; a later record
/// with the same address, and every record the user wrote, is untouched.
pub open spec fn locals_after(s: Seq<AssignmentView>, batch: Seq<AssignmentView>) -> Seq<AssignmentView> {
    Seq::new(
        s.len(),
        |i: int|
            if url_index(s, s[i].html_url) == i {
                s[i].absorbed(batch)
            } else {
                s[i]
            },
    )
}

/// The records of a batch that are new to `s`, as they are adopted:
/// those whose address no fetched record of `s` has, each address once,
/// in the order the batch first names it.
pub open spec fn newcomers(s: Seq<AssignmentView>, batch: Seq<AssignmentView>) -> Seq<AssignmentView>
    decreases batch.len(),
{
    if batch.len() == 0 {
        Seq::empty()
    } else {
        let front = newcomers(s, batch.drop_last());
        if !has_url(s, batch.last().html_url) && last_mention(batch.drop_last(), batch.last().html_url)
            < 0 {
            front.push(batch.last().adopted())
        } else {
            front
        }
    }
}

/// The local records the newcomers of a batch become: each having
/// absorbed the batch like any local record.
pub open spec fn newcomers_after(s: Seq<AssignmentView>, batch: Seq<AssignmentView>) -> Seq<
    AssignmentView,
> {
    Seq::new(newcomers(s, batch).len(), |j: int| newcomers(s, batch)[j].absorbed(batch))
}

/// An address stands on one newcomer if no fetched local record has it
/// and the batch names it, and on none otherwise.
pub proof fn lemma_url_count_newcomers(s: Seq<AssignmentView>, batch: Seq<AssignmentView>, url: Seq<char>)
    ensures
        url_count(newcomers(s, batch), url) == if !has_url(s, url) && last_mention(batch, url) >= 0 {
            1nat
        } else {
            0nat
        },
    decreases batch.len(),
{
    if batch.len() > 0 {
        let front = batch.drop_last();
        lemma_url_count_newcomers(s, front, url);
        lemma_last_mention(front, url);
        let before = newcomers(s, front);
        if !has_url(s, batch.last().html_url) && last_mention(front, batch.last().html_url) < 0 {
            assert(before.push(batch.last().adopted()).drop_last() =~= before);
        }
    }
}

/// Where an address first stands in two sequences put end to end.
pub proof fn lemma_url_index_concat(a: Seq<AssignmentView>, b: Seq<AssignmentView>, url: Seq<char>)
    ensures
        url_index(a + b, url) == if url_index(a, url) < a.len() {
            url_index(a, url)
        } else {
            a.len() + url_index(b, url)
        },
{
    lemma_url_index(a, url);
    lemma_url_index(b, url);
    let both = a + b;
    let at = if url_index(a, url) < a.len() {
        url_index(a, url)
    } else {
        a.len() + url_index(b, url)
    };
    assert forall|j: int| 0 <= j < at implies (#[trigger] both[j]).address() != Some(url) by {
        if j < a.len() {
            assert(both[j] == a[j]);
        } else {
            assert(both[j] == b[j - a.len()]);
        }
    }
    if at < both.len() {
        if at < a.len() {
            assert(both[at] == a[at]);
        } else {
            assert(both[at] == b[at - a.len()]);
        }
    }
    lemma_url_index_is(both, url, at);
}

/// What a batch makes of a collection, before it is sorted: the local
/// records in their places, followed by the newcomers in the order the
/// batch first names them.
pub proof fn lemma_merge_all_is(s: Seq<AssignmentView>, batch: Seq<AssignmentView>)
    ensures
        merge_all(s, batch) == locals_after(s, batch) + newcomers_after(s, batch),
    decreases batch.len(),
{
    let result = locals_after(s, batch) + newcomers_after(s, batch);
    if batch.len() == 0 {
        assert(merge_all(s, batch) =~= result);
    } else {
        let front = batch.drop_last();
        let x = batch.last();
        let u = x.html_url;
        assert(batch =~= front.push(x));
        lemma_merge_all_is(s, front);
        let locals = locals_after(s, front);
        let fresh = newcomers(s, front);
        let joined = newcomers_after(s, front);
        let m0 = merge_all(s, front);
        assert(m0 == locals + joined);
        assert forall|i: int| 0 <= i < s.len() implies (#[trigger] locals[i]).address() == s[i].address() by {}
        assert forall|j: int| 0 <= j < fresh.len() implies (#[trigger] joined[j]).address()
            == fresh[j].address() by {}
        lemma_same_urls(locals, s, u);
        lemma_same_urls(joined, fresh, u);
        lemma_url_index_concat(locals, joined, u);
        lemma_url_count_newcomers(s, front, u);
        lemma_url_count(fresh, u);
        lemma_url_index(fresh, u);
        lemma_url_index(s, u);
        lemma_last_mention(front, u);
        let at = url_index(m0, u);
        let m = merge_all(s, batch);
        assert(m == merge_one(m0, x));
        assert(m.len() == result.len());
        assert forall|i: int| 0 <= i < m.len() implies m[i] == result[i] by {
            if i < s.len() {
                lemma_absorbed_step(s[i], front, x);
                lemma_url_index(s, s[i].html_url);
                assert(m0[i] == locals[i]);
                assert(result[i] == locals_after(s, batch)[i]);
            } else if i < m0.len() {
                let j = i - s.len();
                assert(m0[i] == joined[j]);
                assert(newcomers(s, batch)[j] == fresh[j]);
                assert(result[i] == newcomers_after(s, batch)[j]);
                lemma_absorbed_step(fresh[j], front, x);
                if fresh[j].address() == Some(u) {
                    assert(url_index(fresh, u) == j);
                }
            } else {
                let j = i - s.len();
                assert(newcomers(s, batch)[j] == x.adopted());
                assert(result[i] == newcomers_after(s, batch)[j]);
                lemma_absorbed_step(x.adopted(), front, x);
            }
        }
        assert(m =~= result);
    }
}

/// Addresses are counted separately in two sequences put end to end.
pub proof fn lemma_url_count_concat(a: Seq<AssignmentView>, b: Seq<AssignmentView>, url: Seq<char>)
    ensures
        url_count(a + b, url) == url_count(a, url) + url_count(b, url),
    decreases b.len(),
{
    if b.len() == 0 {
        assert(a + b =~= a);
    } else {
        lemma_url_count_concat(a, b.drop_last(), url);
        assert((a + b).drop_last() =~= a + b.drop_last());
    }
}

/// A merge never makes an address stand on more fetched records than it
/// did, except that an address no fetched local record had stands on
/// one if the batch names it.
pub proof fn lemma_url_count_merged(s: Seq<AssignmentView>, batch: Seq<AssignmentView>, url: Seq<char>)
    ensures
        url_count(merged(s, batch), url) == if url_count(s, url) == 0 && last_mention(batch, url) >= 0 {
            1nat
        } else {
            url_count(s, url)
        },
        url_count(merge_all(s, batch), url) == url_count(merged(s, batch), url),
{
    lemma_merge_all_is(s, batch);
    let locals = locals_after(s, batch);
    let joined = newcomers_after(s, batch);
    let fresh = newcomers(s, batch);
    assert forall|i: int| 0 <= i < s.len() implies (#[trigger] locals[i]).address() == s[i].address() by {}
    assert forall|j: int| 0 <= j < fresh.len() implies (#[trigger] joined[j]).address()
        == fresh[j].address() by {}
    lemma_same_urls(locals, s, url);
    lemma_same_urls(joined, fresh, url);
    lemma_url_count_concat(locals, joined, url);
    lemma_url_count_newcomers(s, batch, url);
    lemma_url_count(s, url);
    lemma_url_count_sorted(merge_all(s, batch), SortOrder::Calendar, url);
}

/// Where the local records stand after a batch came in, before sorting:
/// each in its old place, the first fetched record with an address
/// having absorbed the batch, every other record untouched.
pub proof fn lemma_merge_all_keeps_places(s: Seq<AssignmentView>, batch: Seq<AssignmentView>)
    ensures
        merge_all(s, batch).len() >= s.len(),
        forall|i: int|
            0 <= i < s.len() ==> #[trigger] merge_all(s, batch)[i] == if url_index(s, s[i].html_url)
                == i {
                s[i].absorbed(batch)
            } else {
                s[i]
            },
{
    lemma_merge_all_is(s, batch);
    assert forall|i: int| 0 <= i < s.len() implies #[trigger] merge_all(s, batch)[i] == locals_after(
        s,
        batch,
    )[i] by {}
}

/// Every local record is still there after a merge, as the record that
/// stood in its place before the collection was sorted.
pub proof fn lemma_merge_keeps_records(s: Seq<AssignmentView>, batch: Seq<AssignmentView>, i: int)
    requires
        0 <= i < s.len(),
    ensures
        i < merge_all(s, batch).len(),
        merged(s, batch).contains(merge_all(s, batch)[i]),
{
    broadcast use vstd::seq_lib::group_to_multiset_ensures;

    lemma_merge_all_keeps_places(s, batch);
    let m = merge_all(s, batch);
    lemma_stable_sort_sorts(m, SortOrder::Calendar);
    assert(m.contains(m[i]));
    assert(m.to_multiset().count(m[i]) > 0);
}

/// A record whose completion the user has set by hand comes out of a
/// merge, whatever the batch holds, with the completion the user gave it.
pub proof fn lemma_merge_respects_user_completion(
    s: Seq<AssignmentView>,
    batch: Seq<AssignmentView>,
    i: int,
)
    requires
        0 <= i < s.len(),
        s[i].modified,
    ensures
        i < merge_all(s, batch).len(),
        merged(s, batch).contains(merge_all(s, batch)[i]),
        merge_all(s, batch)[i].html_url == s[i].html_url,
        merge_all(s, batch)[i].modified,
        merge_all(s, batch)[i].completed == s[i].completed,
{
    lemma_merge_keeps_records(s, batch, i);
    lemma_merge_all_keeps_places(s, batch);
}

/// A merge never takes completion away, and it completes a record whose
/// completion the user has not set by hand exactly when the record was
/// completed or is the first fetched record with its address and the
/// batch reports that address done.
pub proof fn lemma_merge_completion_monotonic(s: Seq<AssignmentView>, batch: Seq<AssignmentView>, i: int)
    requires
        0 <= i < s.len(),
    ensures
        i < merge_all(s, batch).len(),
        merged(s, batch).contains(merge_all(s, batch)[i]),
        merge_all(s, batch)[i].html_url == s[i].html_url,
        s[i].completed ==> merge_all(s, batch)[i].completed,
        !s[i].modified ==> merge_all(s, batch)[i].completed == (s[i].completed || (url_index(
            s,
            s[i].html_url,
        ) == i && reported_done(batch, s[i].html_url))),
{
    lemma_merge_keeps_records(s, batch, i);
    lemma_merge_all_keeps_places(s, batch);
    lemma_last_mention(batch, s[i].html_url);
    lemma_url_index(s, s[i].html_url);
}

/// A record the user wrote comes out of every merge exactly as it went
/// in, whatever the batch holds.
pub proof fn lemma_merge_keeps_custom(s: Seq<AssignmentView>, batch: Seq<AssignmentView>, i: int)
    requires
        0 <= i < s.len(),
        s[i].custom,
    ensures
        i < merge_all(s, batch).len(),
        merge_all(s, batch)[i] == s[i],
        merged(s, batch).contains(s[i]),
{
    lemma_merge_keeps_records(s, batch, i);
    lemma_merge_all_keeps_places(s, batch);
}

/// A local record whose address no record of the batch has comes out of
/// a merge unchanged, as does every record the user wrote.
pub proof fn lemma_merge_leaves_unmentioned(s: Seq<AssignmentView>, batch: Seq<AssignmentView>, i: int)
    requires
        0 <= i < s.len(),
        forall|k: int| 0 <= k < batch.len() ==> (#[trigger] batch[k]).html_url != s[i].html_url,
    ensures
        i < merge_all(s, batch).len(),
        merge_all(s, batch)[i] == s[i],
        merged(s, batch).contains(s[i]),
{
    lemma_merge_keeps_records(s, batch, i);
    lemma_merge_all_keeps_places(s, batch);
    lemma_last_mention(batch, s[i].html_url);
}

} // verus!
