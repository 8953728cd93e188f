//! In-memory download queue: owns every entry, keeps insertion order, and
//! answers "what should run next?".

use vstd::prelude::*;

use crate::model::{DownloadEntry, DownloadStatus, EntryView};
use crate::text::same_text;

verus! {

/// What a queue holds: ids and entries, the oldest first.
pub type QueueView = Seq<(Seq<char>, EntryView)>;

/// Where the id stands in a queue; the length of the queue where it does not.
pub open spec fn index_in(q: QueueView, id: Seq<char>) -> nat
    decreases q.len(),
{
    if q.len() == 0 || q[0].0 == id {
        0
    } else {
        1 + index_in(q.skip(1), id)
    }
}

/// Whether the queue has the id.
pub open spec fn has_id(q: QueueView, id: Seq<char>) -> bool {
    index_in(q, id) < q.len()
}

/// The entry with the id.
pub open spec fn entry_of(q: QueueView, id: Seq<char>) -> Option<EntryView> {
    if has_id(q, id) {
        Some(q[index_in(q, id) as int].1)
    } else {
        None
    }
}

/// No id stands twice.
pub open spec fn distinct(q: QueueView) -> bool {
    forall|i: int, j: int| 0 <= i < j < q.len() ==> (#[trigger] q[i]).0 != (#[trigger] q[j]).0
}

/// Every entry stands under its own id.
pub open spec fn own_ids(q: QueueView) -> bool {
    forall|i: int| 0 <= i < q.len() ==> (#[trigger] q[i]).0 == q[i].1.id
}

/// The queue with the entry under its id: in place of the one that was there,
/// or else at the end.
pub open spec fn added(q: QueueView, e: EntryView) -> QueueView {
    if has_id(q, e.id) {
        q.update(index_in(q, e.id) as int, (e.id, e))
    } else {
        q.push((e.id, e))
    }
}

/// The queue without the id.
pub open spec fn removed(q: QueueView, id: Seq<char>) -> QueueView {
    if has_id(q, id) {
        q.remove(index_in(q, id) as int)
    } else {
        q
    }
}

/// The queue with a status for the entry with the id.
pub open spec fn marked(q: QueueView, id: Seq<char>, status: DownloadStatus) -> QueueView {
    let i = index_in(q, id) as int;
    if has_id(q, id) {
        q.update(i, (q[i].0, EntryView { status, ..q[i].1 }))
    } else {
        q
    }
}

/// Whether the entry with the id can be paused.
pub open spec fn pausable(q: QueueView, id: Seq<char>) -> bool {
    match entry_of(q, id) {
        Some(e) => e.status == DownloadStatus::Queued || e.status == DownloadStatus::Downloading
            || e.status == DownloadStatus::Failed,
        None => false,
    }
}

/// Whether the entry with the id can be resumed.
pub open spec fn resumable(q: QueueView, id: Seq<char>) -> bool {
    match entry_of(q, id) {
        Some(e) => e.status == DownloadStatus::Paused || e.status == DownloadStatus::Failed,
        None => false,
    }
}

/// Where the oldest queued entry stands; the length of the queue where there
/// is none.
pub open spec fn oldest_queued(q: QueueView) -> nat
    decreases q.len(),
{
    if q.len() == 0 || q[0].1.status == DownloadStatus::Queued {
        0
    } else {
        1 + oldest_queued(q.skip(1))
    }
}

/// The entries of a queue, the oldest first.
pub open spec fn entries_of(q: QueueView) -> Seq<EntryView> {
    Seq::new(q.len(), |i: int| q[i].1)
}

/// The queue that comes of adding the entries in order.
pub open spec fn filled_with(q: QueueView, list: Seq<EntryView>) -> QueueView
    decreases list.len(),
{
    if list.len() == 0 {
        q
    } else {
        added(filled_with(q, list.drop_last()), list.last())
    }
}

/// What is found is the id, and no earlier one is.
pub proof fn lemma_index_in(q: QueueView, id: Seq<char>)
    ensures
        index_in(q, id) <= q.len(),
        has_id(q, id) ==> q[index_in(q, id) as int].0 == id,
        forall|i: int| 0 <= i < index_in(q, id) ==> (#[trigger] q[i]).0 != id,
    decreases q.len(),
{
    if q.len() > 0 && q[0].0 != id {
        lemma_index_in(q.skip(1), id);
        assert(forall|i: int| 0 < i < q.len() ==> q.skip(1)[i - 1] == #[trigger] q[i]);
    }
}

proof fn lemma_index_is(q: QueueView, id: Seq<char>, i: int)
    requires
        distinct(q),
        0 <= i < q.len(),
        q[i].0 == id,
    ensures
        index_in(q, id) == i,
{
    lemma_index_in(q, id);
}

proof fn lemma_has_not(q: QueueView, id: Seq<char>)
    requires
        forall|i: int| 0 <= i < q.len() ==> (#[trigger] q[i]).0 != id,
    ensures
        !has_id(q, id),
{
    lemma_index_in(q, id);
}

/// Adding keeps first-insertion order: the ids that were there stay where they
/// are, and a new one comes last.
pub proof fn adding_keeps_order(q: QueueView, e: EntryView)
    requires
        distinct(q),
    ensures
        distinct(added(q, e)),
        added(q, e).len() == q.len() + (if has_id(q, e.id) {
            0int
        } else {
            1int
        }),
        forall|i: int| 0 <= i < q.len() ==> added(q, e)[i].0 == (#[trigger] q[i]).0,
        !has_id(q, e.id) ==> added(q, e).last() == (e.id, e),
{
    lemma_index_in(q, e.id);
}

/// After adding an entry, its id leads to it, and every other id leads where
/// it led before.
pub proof fn added_entry_is_found(q: QueueView, e: EntryView, id: Seq<char>)
    requires
        distinct(q),
    ensures
        entry_of(added(q, e), e.id) == Some(e),
        id != e.id ==> entry_of(added(q, e), id) == entry_of(q, id),
{
    let a = added(q, e);
    adding_keeps_order(q, e);
    lemma_index_in(q, e.id);
    lemma_index_in(q, id);
    let at = if has_id(q, e.id) {
        index_in(q, e.id) as int
    } else {
        q.len() as int
    };
    assert(a[at] == (e.id, e));
    lemma_index_is(a, e.id, at);
    if id != e.id {
        if has_id(q, id) {
            let i = index_in(q, id) as int;
            assert(a[i] == q[i]);
            lemma_index_is(a, id, i);
        } else {
            assert forall|i: int| 0 <= i < a.len() implies (#[trigger] a[i]).0 != id by {
                if i < q.len() {
                    assert(a[i].0 == q[i].0);
                }
            }
            lemma_has_not(a, id);
        }
    }
}

/// A removed id is gone, and the others stay in their order.
pub proof fn removed_entry_is_gone(q: QueueView, id: Seq<char>, other: Seq<char>)
    requires
        distinct(q),
    ensures
        distinct(removed(q, id)),
        !has_id(removed(q, id), id),
        other != id ==> entry_of(removed(q, id), other) == entry_of(q, other),
        !has_id(q, id) ==> removed(q, id) == q,
        has_id(q, id) ==> removed(q, id).len() == q.len() - 1,
{
    let r = removed(q, id);
    lemma_index_in(q, id);
    lemma_index_in(q, other);
    let at = index_in(q, id) as int;
    if has_id(q, id) {
        assert forall|i: int| 0 <= i < r.len() implies (#[trigger] r[i]) == q[if i < at {
            i
        } else {
            i + 1
        }] by {}
        assert forall|i: int| 0 <= i < r.len() implies (#[trigger] r[i]).0 != id by {
            if i >= at {
                assert(q[at].0 != q[i + 1].0);
            } else {
                assert(q[i].0 != q[at].0);
            }
        }
        assert forall|i: int, j: int| 0 <= i < j < r.len() implies (#[trigger] r[i]).0 != (
        #[trigger] r[j]).0 by {
            let a = if i < at {
                i
            } else {
                i + 1
            };
            let b = if j < at {
                j
            } else {
                j + 1
            };
            assert(r[i] == q[a] && r[j] == q[b]);
        }
        lemma_has_not(r, id);
        if other != id {
            if has_id(q, other) {
                let i = index_in(q, other) as int;
                let k = if i < at {
                    i
                } else {
                    i - 1
                };
                assert(r[k] == q[i]);
                lemma_index_is(r, other, k);
            } else {
                assert forall|i: int| 0 <= i < r.len() implies (#[trigger] r[i]).0 != other by {
                    if i < at {
                        assert(q[i].0 != other);
                    } else {
                        assert(q[i + 1].0 != other);
                    }
                }
                lemma_has_not(r, other);
            }
        }
    } else {
        lemma_has_not(r, id);
    }
}

/// Marking an entry changes its status and nothing else.
pub proof fn marking_changes_one_status(
    q: QueueView,
    id: Seq<char>,
    other: Seq<char>,
    status: DownloadStatus,
)
    requires
        distinct(q),
    ensures
        distinct(marked(q, id, status)),
        marked(q, id, status).len() == q.len(),
        forall|i: int| 0 <= i < q.len() ==> marked(q, id, status)[i].0 == (#[trigger] q[i]).0,
        entry_of(marked(q, id, status), id) == (match entry_of(q, id) {
            Some(e) => Some(EntryView { status, ..e }),
            None => None,
        }),
        other != id ==> entry_of(marked(q, id, status), other) == entry_of(q, other),
{
    let m = marked(q, id, status);
    lemma_index_in(q, id);
    lemma_index_in(q, other);
    if has_id(q, id) {
        lemma_index_is(m, id, index_in(q, id) as int);
        if other != id {
            if has_id(q, other) {
                lemma_index_is(m, other, index_in(q, other) as int);
            } else {
                assert forall|i: int| 0 <= i < m.len() implies (#[trigger] m[i]).0 != other by {
                    assert(m[i].0 == q[i].0);
                }
                lemma_has_not(m, other);
            }
        }
    }
}

/// An entry of the queue can be paused exactly when it is neither paused nor
/// finished, and is paused then: its status is the only thing that changes,
/// and no other entry does. An id that no entry has cannot be paused.
pub proof fn all_but_the_paused_and_finished_pause(q: QueueView, id: Seq<char>, i: int)
    requires
        distinct(q),
    ensures
        0 <= i < q.len() && q[i].0 == id ==> {
            let m = marked(q, id, DownloadStatus::Paused);
            &&& pausable(q, id) <==> q[i].1.status != DownloadStatus::Paused && q[i].1.status
                != DownloadStatus::Finished
            &&& m.len() == q.len()
            &&& m[i].0 == id
            &&& m[i].1 == EntryView { status: DownloadStatus::Paused, ..q[i].1 }
            &&& forall|j: int| 0 <= j < q.len() && j != i ==> m[j] == #[trigger] q[j]
        },
        (forall|j: int| 0 <= j < q.len() ==> (#[trigger] q[j]).0 != id) ==> !pausable(q, id),
{
    lemma_index_in(q, id);
    if 0 <= i < q.len() && q[i].0 == id {
        lemma_index_is(q, id, i);
    }
}

/// An entry of the queue can be resumed exactly when it is neither queued,
/// nor downloading, nor finished, and is queued then: its status is the only
/// thing that changes, and no other entry does. An id that no entry has cannot
/// be resumed.
pub proof fn the_paused_and_failed_resume(q: QueueView, id: Seq<char>, i: int)
    requires
        distinct(q),
    ensures
        0 <= i < q.len() && q[i].0 == id ==> {
            let m = marked(q, id, DownloadStatus::Queued);
            &&& resumable(q, id) <==> q[i].1.status != DownloadStatus::Queued && q[i].1.status
                != DownloadStatus::Downloading && q[i].1.status != DownloadStatus::Finished
            &&& m.len() == q.len()
            &&& m[i].0 == id
            &&& m[i].1 == EntryView { status: DownloadStatus::Queued, ..q[i].1 }
            &&& forall|j: int| 0 <= j < q.len() && j != i ==> m[j] == #[trigger] q[j]
        },
        (forall|j: int| 0 <= j < q.len() ==> (#[trigger] q[j]).0 != id) ==> !resumable(q, id),
{
    lemma_index_in(q, id);
    if 0 <= i < q.len() && q[i].0 == id {
        lemma_index_is(q, id, i);
    }
}

/// An entry is found under the id that it stands under, and no entry under
/// any other id.
pub proof fn entries_are_found_under_their_ids(q: QueueView, id: Seq<char>, i: int)
    requires
        distinct(q),
    ensures
        0 <= i < q.len() && q[i].0 == id ==> has_id(q, id) && entry_of(q, id) == Some(q[i].1),
        (forall|j: int| 0 <= j < q.len() ==> (#[trigger] q[j]).0 != id) ==> !has_id(q, id)
            && entry_of(q, id) is None,
{
    lemma_index_in(q, id);
    if 0 <= i < q.len() && q[i].0 == id {
        lemma_index_is(q, id, i);
    }
}

/// Removing the entry at `i` keeps all that stands before it where it is, and
/// all that stands behind it moves up by one.
pub proof fn removing_closes_the_gap(q: QueueView, i: int)
    requires
        distinct(q),
        0 <= i < q.len(),
    ensures
        removed(q, q[i].0).len() == q.len() - 1,
        forall|j: int| 0 <= j < i ==> removed(q, q[i].0)[j] == #[trigger] q[j],
        forall|j: int| i < j < q.len() ==> removed(q, q[i].0)[j - 1] == #[trigger] q[j],
{
    lemma_index_is(q, q[i].0, i);
}

/// The entries of a queue are those that stand in it, in its order.
pub proof fn all_entries_are_listed(q: QueueView)
    ensures
        entries_of(q).len() == q.len(),
        forall|i: int| 0 <= i < q.len() ==> entries_of(q)[i] == (#[trigger] q[i]).1,
{
}

/// What was paused can be resumed, and is queued again; where it was queued
/// before, the queue is what it was.
pub proof fn resume_undoes_pause(q: QueueView, id: Seq<char>)
    requires
        distinct(q),
        pausable(q, id),
    ensures
        resumable(marked(q, id, DownloadStatus::Paused), id),
        marked(marked(q, id, DownloadStatus::Paused), id, DownloadStatus::Queued) == marked(
            q,
            id,
            DownloadStatus::Queued,
        ),
        entry_of(q, id)->0.status == DownloadStatus::Queued ==> marked(
            marked(q, id, DownloadStatus::Paused),
            id,
            DownloadStatus::Queued,
        ) == q,
{
    let m = marked(q, id, DownloadStatus::Paused);
    lemma_index_in(q, id);
    let i = index_in(q, id) as int;
    marking_changes_one_status(q, id, id, DownloadStatus::Paused);
    lemma_index_is(m, id, i);
    let back = marked(m, id, DownloadStatus::Queued);
    assert(back =~= marked(q, id, DownloadStatus::Queued));
    if q[i].1.status == DownloadStatus::Queued {
        assert(EntryView { status: DownloadStatus::Queued, ..q[i].1 } =~= q[i].1);
        assert(back =~= q);
    }
}

/// The next download is queued, and no older one is.
pub proof fn next_is_the_oldest_queued(q: QueueView)
    ensures
        oldest_queued(q) <= q.len(),
        oldest_queued(q) < q.len() ==> q[oldest_queued(q) as int].1.status
            == DownloadStatus::Queued,
        forall|i: int|
            0 <= i < oldest_queued(q) ==> (#[trigger] q[i]).1.status != DownloadStatus::Queued,
    decreases q.len(),
{
    if q.len() > 0 && q[0].1.status != DownloadStatus::Queued {
        next_is_the_oldest_queued(q.skip(1));
        assert(forall|i: int| 0 < i < q.len() ==> q.skip(1)[i - 1] == #[trigger] q[i]);
    }
}

/// Adding, removing and marking keep every entry under its own id.
pub proof fn own_ids_are_kept(
    q: QueueView,
    e: EntryView,
    id: Seq<char>,
    status: DownloadStatus,
)
    requires
        own_ids(q),
    ensures
        own_ids(added(q, e)),
        own_ids(removed(q, id)),
        own_ids(marked(q, id, status)),
{
    let r = removed(q, id);
    let at = index_in(q, id) as int;
    assert forall|i: int| 0 <= i < r.len() implies (#[trigger] r[i]).0 == r[i].1.id by {
        if has_id(q, id) {
            assert(r[i] == q[if i < at {
                i
            } else {
                i + 1
            }]);
        }
    }
}

/// Filling keeps every entry under its own id; a queue that is loaded from
/// entries has each under its own.
pub proof fn filling_keeps_own_ids(q: QueueView, list: Seq<EntryView>)
    requires
        own_ids(q),
    ensures
        own_ids(filled_with(q, list)),
    decreases list.len(),
{
    if list.len() > 0 {
        filling_keeps_own_ids(q, list.drop_last());
        let before = filled_with(q, list.drop_last());
        own_ids_are_kept(before, list.last(), Seq::empty(), DownloadStatus::Queued);
    }
}

/// Filling keeps the ids distinct.
pub proof fn filling_keeps_ids_distinct(q: QueueView, list: Seq<EntryView>)
    requires
        distinct(q),
    ensures
        distinct(filled_with(q, list)),
    decreases list.len(),
{
    if list.len() > 0 {
        filling_keeps_ids_distinct(q, list.drop_last());
        adding_keeps_order(filled_with(q, list.drop_last()), list.last());
    }
}

/// A queue whose entries stand under their own ids comes back from its
/// entries, in the same order.
pub proof fn entries_make_the_queue(q: QueueView)
    requires
        distinct(q),
        own_ids(q),
    ensures
        filled_with(Seq::empty(), entries_of(q)) == q,
    decreases q.len(),
{
    if q.len() > 0 {
        let init = q.drop_last();
        assert forall|i: int| 0 <= i < init.len() implies (#[trigger] init[i]).0
            == init[i].1.id by {
            assert(init[i] == q[i]);
        }
        entries_make_the_queue(init);
        assert(entries_of(q).drop_last() =~= entries_of(init));
        let e = q.last().1;
        assert forall|i: int| 0 <= i < init.len() implies (#[trigger] init[i]).0 != e.id by {
            assert(init[i] == q[i]);
            assert(q[i].0 != q[q.len() - 1].0);
        }
        lemma_has_not(init, e.id);
        assert(init.push((e.id, e)) =~= q);
    } else {
        assert(q =~= Seq::empty());
    }
}

/// Filling a queue with entries of different ids puts every one of them in, each
/// under its id and as it is, and leaves what stands under other ids.
pub proof fn filled_entries_are_found(q: QueueView, list: Seq<EntryView>, id: Seq<char>)
    requires
        distinct(q),
        forall|i: int, j: int|
            0 <= i < j < list.len() ==> (#[trigger] list[i]).id != (#[trigger] list[j]).id,
    ensures
        forall|i: int|
            0 <= i < list.len() ==> entry_of(filled_with(q, list), (#[trigger] list[i]).id) == Some(
                list[i],
            ),
        (forall|i: int| 0 <= i < list.len() ==> (#[trigger] list[i]).id != id) ==> entry_of(
            filled_with(q, list),
            id,
        ) == entry_of(q, id),
    decreases list.len(),
{
    if list.len() > 0 {
        let init = list.drop_last();
        let e = list.last();
        let n = list.len() - 1;
        let before = filled_with(q, init);
        assert forall|i: int, j: int| 0 <= i < j < init.len() implies (#[trigger] init[i]).id != (
        #[trigger] init[j]).id by {
            assert(list[i].id != list[j].id);
        }
        filled_entries_are_found(q, init, id);
        filling_keeps_ids_distinct(q, init);
        added_entry_is_found(before, e, id);
        assert forall|i: int| 0 <= i < list.len() implies entry_of(
            filled_with(q, list),
            (#[trigger] list[i]).id,
        ) == Some(list[i]) by {
            if i < n {
                assert(list[i].id != list[n].id);
                assert(init[i] == list[i]);
                added_entry_is_found(before, e, list[i].id);
            }
        }
        if forall|i: int| 0 <= i < list.len() ==> (#[trigger] list[i]).id != id {
            assert(list[n].id != id);
            assert forall|i: int| 0 <= i < init.len() implies (#[trigger] init[i]).id != id by {
                assert(init[i] == list[i]);
            }
        }
    }
}

/// Ordered set of downloads with lookup by id.
#[derive(Debug)]
pub struct DownloadQueue {
    /// The ids, the oldest first.
    order: Vec<String>,
    /// The entry of each id.
    entries: Vec<DownloadEntry>,
}

spec fn ids_differ(order: Seq<String>) -> bool {
    forall|i: int, j: int|
        0 <= i < j < order.len() ==> (#[trigger] order[i])@ != (#[trigger] order[j])@
}

spec fn paired(order: Seq<String>, entries: Seq<DownloadEntry>) -> QueueView {
    Seq::new(order.len(), |i: int| (order[i]@, entries[i]@))
}

impl View for DownloadQueue {
    type V = QueueView;

    closed spec fn view(&self) -> QueueView {
        paired(self.order@, self.entries@)
    }
}

impl DownloadQueue {
    #[verifier::type_invariant]
    spec fn inv(self) -> bool {
        &&& self.order@.len() == self.entries@.len()
        &&& ids_differ(self.order@)
    }

    /// Empty queue.
    pub fn new() -> (r: Self)
        ensures
            r@ == QueueView::empty(),
    {
        let order: Vec<String> = Vec::new();
        let entries: Vec<DownloadEntry> = Vec::new();
        assert(paired(order@, entries@) =~= Seq::empty());
        DownloadQueue { order, entries }
    }

    fn locate(&self, id: &str) -> (r: usize)
        ensures
            r == index_in(self@, id@),
            r <= self.order@.len(),
            self@.len() == self.order@.len(),
            self.order@.len() == self.entries@.len(),
            distinct(self@),
    {
        proof {
            use_type_invariant(self);
        }
        let ghost all = self@;
        assert forall|i: int, j: int| 0 <= i < j < all.len() implies (#[trigger] all[i]).0 != (
        #[trigger] all[j]).0 by {
            assert(self.order@[i]@ != self.order@[j]@);
        }
        let mut i: usize = 0;
        assert(all.skip(0) =~= all);
        while i < self.order.len()
            invariant
                i <= self.order@.len(),
                self.order@.len() == self.entries@.len(),
                distinct(all),
                all == paired(self.order@, self.entries@),
                index_in(all, id@) == i + index_in(all.skip(i as int), id@),
            decreases self.order.len() - i,
        {
            assert(all.skip(i as int)[0] == all[i as int]);
            assert(all.skip(i as int).skip(1) =~= all.skip(i + 1));
            if same_text(self.order[i].as_str(), id) {
                return i;
            }
            i = i + 1;
        }
        i
    }

    /// Number of entries.
    pub fn len(&self) -> (r: usize)
        ensures
            r == self@.len(),
    {
        self.order.len()
    }

    /// Whether there are no entries.
    pub fn is_empty(&self) -> (r: bool)
        ensures
            r <==> self@.len() == 0,
    {
        self.order.len() == 0
    }

    fn of(order: Vec<String>, entries: Vec<DownloadEntry>) -> (r: DownloadQueue)
        requires
            order@.len() == entries@.len(),
            distinct(paired(order@, entries@)),
        ensures
            r@ == paired(order@, entries@),
    {
        let ghost q = paired(order@, entries@);
        assert forall|i: int, j: int| 0 <= i < j < order@.len() implies (#[trigger] order@[i])@ != (
        #[trigger] order@[j])@ by {
            assert(q[i].0 != q[j].0);
        }
        DownloadQueue { order, entries }
    }

    fn take(&mut self) -> (r: (Vec<String>, Vec<DownloadEntry>))
        ensures
            paired(r.0@, r.1@) == old(self)@,
            r.0@.len() == r.1@.len(),
            final(self)@ == QueueView::empty(),
    {
        let mut q = DownloadQueue::new();
        std::mem::swap(&mut q, self);
        proof {
            use_type_invariant(&q);
        }
        (q.order, q.entries)
    }

    /// Insert (or replace) an entry, preserving first-insertion order.
    pub fn add(&mut self, entry: DownloadEntry)
        ensures
            final(self)@ == added(old(self)@, entry@),
            distinct(final(self)@),
    {
        let i = self.locate(entry.id.as_str());
        let ghost had = self@;
        proof {
            adding_keeps_order(had, entry@);
            lemma_index_in(had, entry@.id);
        }
        let (mut order, mut entries) = self.take();
        if i < entries.len() {
            entries.set(i, entry);
        } else {
            order.push(entry.id.clone());
            entries.push(entry);
        }
        assert(paired(order@, entries@) =~= added(had, entry@));
        *self = DownloadQueue::of(order, entries);
    }

    /// Look up an entry.
    pub fn get(&self, id: &str) -> (r: Option<&DownloadEntry>)
        ensures
            (match r {
                Some(e) => Some(e@),
                None => None,
            }) == entry_of(self@, id@),
    {
        let i = self.locate(id);
        if i < self.entries.len() {
            Some(&self.entries[i])
        } else {
            None
        }
    }

    /// Look up an entry mutably. An entry that is changed stays under the id
    /// that it was added with.
    pub fn get_mut(&mut self, id: &str) -> (r: Option<&mut DownloadEntry>)
        ensures
            r is Some <==> has_id(old(self)@, id@),
            r matches Some(e) ==> {
                let i = index_in(old(self)@, id@) as int;
                &&& e@ == old(self)@[i].1
                &&& final(self)@ == old(self)@.update(i, (old(self)@[i].0, final(e)@))
            },
            r is None ==> final(self)@ == old(self)@,
    {
        let i = self.locate(id);
        proof {
            use_type_invariant(&*self);
        }
        if i < self.entries.len() {
            Some(&mut self.entries[i])
        } else {
            None
        }
    }

    /// Remove an entry; returns true when something was removed.
    pub fn remove(&mut self, id: &str) -> (r: bool)
        ensures
            r <==> has_id(old(self)@, id@),
            final(self)@ == removed(old(self)@, id@),
            distinct(final(self)@),
    {
        let i = self.locate(id);
        let ghost had = self@;
        proof {
            removed_entry_is_gone(had, id@, id@);
        }
        if i < self.entries.len() {
            let (mut order, mut entries) = self.take();
            order.remove(i);
            entries.remove(i);
            assert(paired(order@, entries@) =~= removed(had, id@));
            *self = DownloadQueue::of(order, entries);
            true
        } else {
            false
        }
    }

    fn mark(&mut self, i: usize, status: DownloadStatus)
        requires
            i < old(self)@.len(),
            distinct(old(self)@),
        ensures
            final(self)@ == old(self)@.update(
                i as int,
                (old(self)@[i as int].0, EntryView { status, ..old(self)@[i as int].1 }),
            ),
    {
        let ghost had = self@;
        proof {
            use_type_invariant(&*self);
        }
        let (order, mut entries) = self.take();
        let mut entry = entries.remove(i);
        entry.status = status;
        entries.insert(i, entry);
        assert(paired(order@, entries@) =~= had.update(
            i as int,
            (had[i as int].0, EntryView { status, ..had[i as int].1 }),
        ));
        *self = DownloadQueue::of(order, entries);
    }

    /// Mark a download paused (only from Queued/Downloading/Failed).
    pub fn pause(&mut self, id: &str) -> (r: bool)
        ensures
            r == pausable(old(self)@, id@),
            final(self)@ == (if r {
                marked(old(self)@, id@, DownloadStatus::Paused)
            } else {
                old(self)@
            }),
            distinct(final(self)@),
            forall|i: int|
                0 <= i < old(self)@.len() && (#[trigger] old(self)@[i]).0 == id@ ==> {
                    &&& r <==> old(self)@[i].1.status != DownloadStatus::Paused
                        && old(self)@[i].1.status != DownloadStatus::Finished
                    &&& r ==> final(self)@[i].1.status == DownloadStatus::Paused
                },
    {
        let ghost had = self@;
        let i = self.locate(id);
        proof {
            lemma_index_in(had, id@);
            assert forall|k: int| 0 <= k < had.len() && (#[trigger] had[k]).0 == id@ implies k
                == i by {
                lemma_index_is(had, id@, k);
            }
        }
        if i >= self.entries.len() {
            return false;
        }
        proof {
            marking_changes_one_status(self@, id@, id@, DownloadStatus::Paused);
        }
        match self.entries[i].status {
            DownloadStatus::Queued | DownloadStatus::Downloading | DownloadStatus::Failed => {
                self.mark(i, DownloadStatus::Paused);
                true
            },
            DownloadStatus::Paused | DownloadStatus::Finished => false,
        }
    }

    /// Move a paused/failed download back to Queued.
    pub fn resume(&mut self, id: &str) -> (r: bool)
        ensures
            r == resumable(old(self)@, id@),
            final(self)@ == (if r {
                marked(old(self)@, id@, DownloadStatus::Queued)
            } else {
                old(self)@
            }),
            distinct(final(self)@),
            forall|i: int|
                0 <= i < old(self)@.len() && (#[trigger] old(self)@[i]).0 == id@ ==> {
                    &&& r <==> old(self)@[i].1.status == DownloadStatus::Paused
                        || old(self)@[i].1.status == DownloadStatus::Failed
                    &&& r ==> final(self)@[i].1.status == DownloadStatus::Queued
                },
    {
        let ghost had = self@;
        let i = self.locate(id);
        proof {
            lemma_index_in(had, id@);
            assert forall|k: int| 0 <= k < had.len() && (#[trigger] had[k]).0 == id@ implies k
                == i by {
                lemma_index_is(had, id@, k);
            }
        }
        if i >= self.entries.len() {
            return false;
        }
        proof {
            marking_changes_one_status(self@, id@, id@, DownloadStatus::Queued);
        }
        match self.entries[i].status {
            DownloadStatus::Paused | DownloadStatus::Failed => {
                self.mark(i, DownloadStatus::Queued);
                true
            },
            DownloadStatus::Queued | DownloadStatus::Downloading
            | DownloadStatus::Finished => false,
        }
    }

    /// Id of the oldest still-Queued download, if any.
    pub fn next_queued(&self) -> (r: Option<&str>)
        ensures
            r is Some <==> oldest_queued(self@) < self@.len(),
            r matches Some(id) ==> id@ == self@[oldest_queued(self@) as int].0,
            r is None <==> forall|i: int|
                0 <= i < self@.len() ==> (#[trigger] self@[i]).1.status != DownloadStatus::Queued,
            r matches Some(id) ==> exists|i: int|
                {
                    &&& 0 <= i < self@.len()
                    &&& (#[trigger] self@[i]).0 == id@
                    &&& self@[i].1.status == DownloadStatus::Queued
                    &&& forall|j: int|
                        0 <= j < i ==> (#[trigger] self@[j]).1.status != DownloadStatus::Queued
                },
    {
        proof {
            use_type_invariant(self);
            next_is_the_oldest_queued(self@);
        }
        let ghost all = self@;
        let mut i: usize = 0;
        assert(all.skip(0) =~= all);
        while i < self.order.len()
            invariant
                i <= self.order@.len(),
                self.order@.len() == self.entries@.len(),
                all == paired(self.order@, self.entries@),
                all == self@,
                oldest_queued(all) == i + oldest_queued(all.skip(i as int)),
            decreases self.order.len() - i,
        {
            assert(all.skip(i as int)[0] == all[i as int]);
            assert(all.skip(i as int).skip(1) =~= all.skip(i + 1));
            if self.entries[i].status == DownloadStatus::Queued {
                proof {
                    next_is_the_oldest_queued(all);
                    assert(all[i as int].0 == self.order@[i as int]@);
                }
                return Some(self.order[i].as_str());
            }
            i = i + 1;
        }
        None
    }

    /// All entries in insertion order.
    pub fn iter_ordered(&self) -> (r: Vec<&DownloadEntry>)
        ensures
            r@.len() == self@.len(),
            forall|i: int| 0 <= i < r@.len() ==> (#[trigger] r@[i])@ == entries_of(self@)[i],
    {
        proof {
            use_type_invariant(self);
        }
        let mut list: Vec<&DownloadEntry> = Vec::new();
        let mut i: usize = 0;
        while i < self.entries.len()
            invariant
                i <= self.entries@.len(),
                self@.len() == self.entries@.len(),
                self@ == paired(self.order@, self.entries@),
                list@.len() == i,
                forall|j: int| 0 <= j < i ==> (#[trigger] list@[j])@ == self.entries@[j]@,
            decreases self.entries.len() - i,
        {
            list.push(&self.entries[i]);
            i = i + 1;
        }
        list
    }
}

impl Default for DownloadQueue {
    fn default() -> (r: Self)
        ensures
            r@ == QueueView::empty(),
    {
        DownloadQueue::new()
    }
}

} // verus!
