//! History records, pages of them, and which record of a page is the oldest.
//!
//! The ledger hands out an account's history in pages, newest record first.
//! Within a page that order is not relied upon: the oldest record of a page
//! is found by the timestamps alone, as the head of the page sorted by
//! timestamp would be.

use vstd::prelude::*;

verus! {

/// One entry of an account's history, as the ledger reports it.
#[derive(Clone, Debug, PartialEq, Eq)]
pub struct HistoryRecord {
    /// The signature that identifies the entry, in the ledger's text form.
    pub signature: String,
    /// The ledger's sequence marker of the entry. It is carried, never read.
    pub slot: u64,
    /// Seconds since the Unix epoch, absent while the ledger has not
    /// finalized the entry.
    pub timestamp: Option<i64>,
}

/// The model of a [`HistoryRecord`]: its signature as a sequence of
/// characters, its slot and its timestamp.
pub struct Record {
    pub signature: Seq<char>,
    pub slot: u64,
    pub timestamp: Option<i64>,
}

impl View for HistoryRecord {
    type V = Record;

    open spec fn view(&self) -> Record {
        Record { signature: self.signature@, slot: self.slot, timestamp: self.timestamp }
    }
}

/// The place of a timestamp in the order by which a page is sorted: an
/// absent timestamp comes before every present one, present ones come by
/// their value.
pub open spec fn age_rank(timestamp: Option<i64>) -> int {
    match timestamp {
        None => i64::MIN - 1,
        Some(seconds) => seconds as int,
    }
}

impl Record {
    /// The record's place in the order by age; lower is older.
    pub open spec fn rank(self) -> int {
        age_rank(self.timestamp)
    }
}

/// The models of the records of a page, in the page's order.
pub open spec fn views(page: Seq<HistoryRecord>) -> Seq<Record> {
    Seq::new(page.len(), |i: int| page[i]@)
}

/// `at` is where the oldest record of `page` stands: no record of the page
/// has a lower rank, and every record before it has a higher one. Among
/// records of the least rank it is the first, which is the record that a
/// stable sort by rank puts at the head.
pub open spec fn is_oldest(page: Seq<Record>, at: int) -> bool {
    &&& 0 <= at < page.len()
    &&& forall|j: int| 0 <= j < page.len() ==> page[at].rank() <= #[trigger] page[j].rank()
    &&& forall|j: int| 0 <= j < at ==> page[at].rank() < #[trigger] page[j].rank()
}

/// Where the oldest record of a page stands; meaningful for a page that
/// is not empty.
pub open spec fn oldest_index(page: Seq<Record>) -> int {
    choose|at: int| is_oldest(page, at)
}

/// The oldest record of a page that is not empty.
pub open spec fn oldest(page: Seq<Record>) -> Record {
    page[oldest_index(page)]
}

/// Every page that is not empty has exactly one place that `is_oldest`
/// accepts, and `oldest_index` is that place.
pub proof fn lemma_oldest_index(page: Seq<Record>)
    requires
        page.len() > 0,
    ensures
        is_oldest(page, oldest_index(page)),
        forall|at: int| is_oldest(page, at) ==> at == oldest_index(page),
    decreases page.len(),
{
    if page.len() == 1 {
        assert(is_oldest(page, 0));
    } else {
        let front = page.drop_last();
        lemma_oldest_index(front);
        let at = oldest_index(front);
        let end = page.len() - 1;
        assert(forall|j: int| 0 <= j < front.len() ==> front[j] == page[j]);
        if page[end].rank() < page[at].rank() {
            assert forall|j: int| 0 <= j < page.len() implies page[end].rank()
                <= #[trigger] page[j].rank() by {
                if j < end {
                    assert(front[at].rank() <= front[j].rank());
                }
            }
            assert(is_oldest(page, end));
        } else {
            assert forall|j: int| 0 <= j < page.len() implies page[at].rank()
                <= #[trigger] page[j].rank() by {
                if j < end {
                    assert(front[at].rank() <= front[j].rank());
                }
            }
            assert forall|j: int| 0 <= j < at implies page[at].rank() < #[trigger] page[j].rank() by {
                assert(front[at].rank() < front[j].rank());
            }
            assert(is_oldest(page, at));
        }
    }
    let chosen = oldest_index(page);
    assert forall|at: int| is_oldest(page, at) implies at == chosen by {
        if at < chosen {
            assert(page[chosen].rank() < page[at].rank());
            assert(page[at].rank() <= page[chosen].rank());
        } else if chosen < at {
            assert(page[at].rank() < page[chosen].rank());
            assert(page[chosen].rank() <= page[at].rank());
        }
    }
}

/// In a page whose records come strictly newest first, the oldest record is
/// the last one.
pub proof fn lemma_oldest_of_descending(page: Seq<Record>)
    requires
        page.len() > 0,
        forall|i: int, j: int|
            0 <= i < j < page.len() ==> #[trigger] page[i].rank() > #[trigger] page[j].rank(),
    ensures
        oldest_index(page) == page.len() - 1,
{
    lemma_oldest_index(page);
    assert(is_oldest(page, page.len() - 1));
}

/// Only one record of the page has the rank of its oldest record: any two
/// records of that rank are the same record.
pub open spec fn has_single_oldest(page: Seq<Record>) -> bool {
    forall|i: int, j: int|
        0 <= i < j < page.len() && #[trigger] page[i].rank() == oldest(page).rank()
            && #[trigger] page[j].rank() == oldest(page).rank() ==> page[i] == page[j]
}

/// Shuffling a page does not change which age is found to be the oldest:
/// two pages that hold the same records, in whatever order, have oldest
/// records of the same rank. Where only one record of the page has that
/// rank, both orders find that very record.
pub proof fn lemma_oldest_of_shuffled(page: Seq<Record>, shuffled: Seq<Record>)
    requires
        page.len() > 0,
        page.to_multiset() == shuffled.to_multiset(),
    ensures
        shuffled.len() == page.len(),
        oldest(shuffled).rank() == oldest(page).rank(),
        has_single_oldest(page) ==> oldest(shuffled) == oldest(page),
{
    page.to_multiset_ensures();
    shuffled.to_multiset_ensures();
    lemma_oldest_index(page);
    lemma_oldest_index(shuffled);
    let a = oldest(page);
    let b = oldest(shuffled);
    assert(page.contains(a));
    assert(shuffled.contains(b));
    assert(page.to_multiset().count(a) > 0);
    assert(shuffled.to_multiset().count(b) > 0);
    assert(shuffled.contains(a));
    assert(page.contains(b));
    let a_in_shuffled = choose|k: int| 0 <= k < shuffled.len() && shuffled[k] == a;
    let b_in_page = choose|k: int| 0 <= k < page.len() && page[k] == b;
    assert(b.rank() <= shuffled[a_in_shuffled].rank());
    assert(a.rank() <= page[b_in_page].rank());
    if has_single_oldest(page) {
        let i = oldest_index(page);
        if i < b_in_page {
            assert(page[i] == page[b_in_page]);
        } else if b_in_page < i {
            assert(page[b_in_page] == page[i]);
        }
    }
}

/// Whether the records at two places of a sorted page stand in stable order:
/// the first ranks lower, or they rank the same and the first stood before
/// the second in the page that was sorted.
pub open spec fn in_stable_order(
    sorted: Seq<Record>,
    origin: Seq<int>,
    first: int,
    second: int,
) -> bool {
    sorted[first].rank() < sorted[second].rank() || (sorted[first].rank() == sorted[second].rank()
        && origin[first] < origin[second])
}

/// Whether some place of a sorted page holds the record that stood at `at`.
pub open spec fn is_kept(origin: Seq<int>, at: int) -> bool {
    exists|k: int| 0 <= k < origin.len() && #[trigger] origin[k] == at
}

/// `sorted` holds the records of `page` by rank, oldest first, those of
/// equal rank in the order in which they stood in `page`; `origin` says for
/// each place of `sorted` where in `page` its record stood.
pub open spec fn is_stable_sort(sorted: Seq<Record>, page: Seq<Record>, origin: Seq<int>) -> bool {
    &&& sorted.len() == page.len()
    &&& origin.len() == page.len()
    &&& forall|k: int|
        0 <= k < origin.len() ==> 0 <= #[trigger] origin[k] < page.len() && sorted[k]
            == page[origin[k]]
    &&& forall|at: int| 0 <= at < page.len() ==> #[trigger] is_kept(origin, at)
    &&& forall|k1: int, k2: int|
        0 <= k1 < k2 < origin.len() ==> #[trigger] in_stable_order(sorted, origin, k1, k2)
}

/// `sorted` is `page` sorted by rank, oldest first, with records of equal
/// rank left in their order.
pub open spec fn is_sorted_oldest_first(sorted: Seq<Record>, page: Seq<Record>) -> bool {
    exists|origin: Seq<int>| is_stable_sort(sorted, page, origin)
}

/// The head of a sorted page is the oldest record of the page as it was.
pub proof fn lemma_head_of_sorted(sorted: Seq<Record>, page: Seq<Record>)
    requires
        page.len() > 0,
        is_sorted_oldest_first(sorted, page),
    ensures
        sorted[0] == oldest(page),
{
    let origin = choose|origin: Seq<int>| is_stable_sort(sorted, page, origin);
    let at = origin[0];
    assert forall|j: int| 0 <= j < page.len() implies page[at].rank() <= #[trigger] page[j].rank()
        && (j < at ==> page[at].rank() < page[j].rank()) by {
        assert(is_kept(origin, j));
        let k = choose|k: int| 0 <= k < origin.len() && #[trigger] origin[k] == j;
        if k > 0 {
            assert(in_stable_order(sorted, origin, 0, k));
        }
    }
    assert(is_oldest(page, at));
    lemma_oldest_index(page);
}

/// Whether the record that stood at `first` comes before the one that stood
/// at `second` when the page is sorted.
pub open spec fn sorts_before(page: Seq<Record>, first: int, second: int) -> bool {
    page[first].rank() < page[second].rank() || (page[first].rank() == page[second].rank() && first
        < second)
}

proof fn lemma_origin_is_not_later(
    page: Seq<Record>,
    sorted: Seq<Record>,
    origin: Seq<int>,
    other: Seq<Record>,
    other_origin: Seq<int>,
    k: int,
)
    requires
        is_stable_sort(sorted, page, origin),
        is_stable_sort(other, page, other_origin),
        0 <= k < page.len(),
        forall|below: int| 0 <= below < k ==> origin[below] == other_origin[below],
    ensures
        !sorts_before(page, origin[k], other_origin[k]),
{
    let stood = origin[k];
    if sorts_before(page, stood, other_origin[k]) {
        assert(is_kept(other_origin, stood));
        let m = choose|m: int| 0 <= m < other_origin.len() && #[trigger] other_origin[m] == stood;
        if m < k {
            assert(in_stable_order(sorted, origin, m, k));
        } else if m > k {
            assert(in_stable_order(other, other_origin, k, m));
        }
    }
}

proof fn lemma_origins_agree(
    page: Seq<Record>,
    sorted: Seq<Record>,
    origin: Seq<int>,
    other: Seq<Record>,
    other_origin: Seq<int>,
    upto: int,
)
    requires
        is_stable_sort(sorted, page, origin),
        is_stable_sort(other, page, other_origin),
        0 <= upto <= page.len(),
    ensures
        forall|k: int| 0 <= k < upto ==> origin[k] == other_origin[k],
    decreases upto,
{
    if upto > 0 {
        lemma_origins_agree(page, sorted, origin, other, other_origin, upto - 1);
        lemma_origin_is_not_later(page, sorted, origin, other, other_origin, upto - 1);
        lemma_origin_is_not_later(page, other, other_origin, sorted, origin, upto - 1);
    }
}

/// A page has one sorted form: two pages that are both the page sorted
/// oldest first, with records of equal rank left in their order, are equal.
pub proof fn lemma_sorted_is_unique(page: Seq<Record>, sorted: Seq<Record>, other: Seq<Record>)
    requires
        is_sorted_oldest_first(sorted, page),
        is_sorted_oldest_first(other, page),
    ensures
        sorted == other,
{
    let origin = choose|origin: Seq<int>| is_stable_sort(sorted, page, origin);
    let other_origin = choose|origin: Seq<int>| is_stable_sort(other, page, origin);
    lemma_origins_agree(page, sorted, origin, other, other_origin, page.len() as int);
    assert forall|k: int| 0 <= k < sorted.len() implies sorted[k] == other[k] by {
        assert(sorted[k] == page[origin[k]]);
        assert(other[k] == page[other_origin[k]]);
    }
    assert(sorted =~= other);
}

/// Decides whether the first timestamp ranks strictly before the second.
pub fn ranks_before(first: Option<i64>, second: Option<i64>) -> (before: bool)
    ensures
        before == (age_rank(first) < age_rank(second)),
{
    match (first, second) {
        (None, Some(_)) => true,
        (Some(a), Some(b)) => a < b,
        (_, None) => false,
    }
}

/// Sorts a page by timestamp, oldest first: records without a timestamp
/// come first, and records that rank the same keep their order.
pub fn sort_oldest_first(page: &mut Vec<HistoryRecord>)
    ensures
        is_sorted_oldest_first(views(final(page)@), views(old(page)@)),
{
    let ghost unsorted = views(page@);
    let ghost mut origin: Seq<int> = Seq::new(page.len() as nat, |k: int| k);
    let length: usize = page.len();
    let mut done: usize = if length == 0 {
        0
    } else {
        1
    };
    proof {
        assert forall|at: int| 0 <= at < unsorted.len() implies #[trigger] is_kept(origin, at) by {
            assert(origin[at] == at);
        }
    }
    while done < length
        invariant
            length == page.len(),
            length == unsorted.len(),
            length == origin.len(),
            done <= length,
            length > 0 ==> done >= 1,
            forall|k: int|
                0 <= k < length ==> 0 <= #[trigger] origin[k] < length && views(page@)[k]
                    == unsorted[origin[k]],
            forall|at: int| 0 <= at < length ==> #[trigger] is_kept(origin, at),
            forall|k1: int, k2: int|
                0 <= k1 < k2 < done ==> #[trigger] in_stable_order(views(page@), origin, k1, k2),
            forall|k: int| 0 <= k < done ==> #[trigger] origin[k] < done,
            forall|k: int| done <= k < length ==> #[trigger] origin[k] == k,
        decreases length - done,
    {
        let moved: Option<i64> = page[done].timestamp;
        let mut place: usize = done;
        while place > 0 && ranks_before(moved, page[place - 1].timestamp)
            invariant
                length == page.len(),
                place <= done < length,
                moved == page@[done as int].timestamp,
                forall|k: int|
                    place <= k < done ==> age_rank(moved) < #[trigger] views(page@)[k].rank(),
            decreases place,
        {
            place = place - 1;
        }
        assert(place > 0 ==> views(page@)[place - 1].rank() <= age_rank(moved));
        if place < done {
            let ghost before = views(page@);
            let ghost before_origin = origin;
            let ghost records = page@;
            let record = page.remove(done);
            page.insert(place, record);
            proof {
                origin = before_origin.remove(done as int).insert(place as int, done as int);
                records.remove_ensures(done as int);
                records.remove(done as int).insert_ensures(place as int, record);
                before_origin.remove_ensures(done as int);
                before_origin.remove(done as int).insert_ensures(place as int, done as int);
                let after = views(page@);
                assert forall|k: int| 0 <= k < length implies after[k] == before[moved_from(
                    k,
                    place as int,
                    done as int,
                )] && #[trigger] origin[k] == before_origin[moved_from(
                    k,
                    place as int,
                    done as int,
                )] by {
                    if k > place {
                        assert(page@[k] == records.remove(done as int)[k - 1]);
                        assert(origin[k] == before_origin.remove(done as int)[k - 1]);
                    }
                }
                assert forall|at: int| 0 <= at < length implies #[trigger] is_kept(origin, at) by {
                    assert(is_kept(before_origin, at));
                    let k = choose|k: int|
                        0 <= k < before_origin.len() && #[trigger] before_origin[k] == at;
                    let k2 = if k < place {
                        k
                    } else if k < done {
                        k + 1
                    } else if k == done {
                        place as int
                    } else {
                        k
                    };
                    assert(origin[k2] == at);
                }
                assert forall|k1: int, k2: int| 0 <= k1 < k2 < done + 1 implies #[trigger] in_stable_order(
                    after,
                    origin,
                    k1,
                    k2,
                ) by {
                    let f1 = moved_from(k1, place as int, done as int);
                    let f2 = moved_from(k2, place as int, done as int);
                    assert(origin[k1] == before_origin[f1]);
                    assert(origin[k2] == before_origin[f2]);
                    if k2 == place {
                        assert(before[place - 1].rank() <= age_rank(moved));
                        if k1 < place - 1 {
                            assert(in_stable_order(before, before_origin, k1, place - 1));
                        }
                        assert(before_origin[f1] < done);
                        assert(before_origin[done as int] == done);
                    } else if k1 == place {
                        assert(before[done as int].rank() == age_rank(moved));
                        assert(age_rank(moved) < before[f2].rank());
                    } else {
                        assert(in_stable_order(before, before_origin, f1, f2));
                    }
                }
                assert forall|k: int| 0 <= k < done + 1 implies #[trigger] origin[k] < done + 1 by {
                    assert(origin[k] == before_origin[moved_from(k, place as int, done as int)]);
                }
            }
        } else {
            proof {
                let sorted = views(page@);
                assert forall|k1: int, k2: int| 0 <= k1 < k2 < done + 1 implies #[trigger] in_stable_order(
                    sorted,
                    origin,
                    k1,
                    k2,
                ) by {
                    if k2 == done {
                        assert(sorted[done - 1].rank() <= age_rank(moved));
                        if k1 < done - 1 {
                            assert(in_stable_order(sorted, origin, k1, done - 1));
                        }
                        assert(origin[k1] < done);
                        assert(origin[done as int] == done);
                    }
                }
            }
        }
        done = done + 1;
    }
    proof {
        assert(is_stable_sort(views(page@), unsorted, origin));
    }
}

/// Where the record at place `k` stood before the record at `done` was moved
/// down to `place`.
spec fn moved_from(k: int, place: int, done: int) -> int {
    if k < place {
        k
    } else if k == place {
        done
    } else if k <= done {
        k - 1
    } else {
        k
    }
}

/// Takes the oldest record out of a page: `None` for an empty page, else
/// the head of the page sorted oldest first.
pub fn take_oldest(page: Vec<HistoryRecord>) -> (taken: Option<HistoryRecord>)
    ensures
        taken is None <==> page@.len() == 0,
        taken matches Some(record) ==> record@ == oldest(views(page@)),
{
    let mut sorted = page;
    if sorted.len() == 0 {
        return None;
    }
    sort_oldest_first(&mut sorted);
    proof {
        lemma_head_of_sorted(views(sorted@), views(page@));
    }
    Some(sorted.swap_remove(0))
}

} // verus!
