//! Sorting: what a sorted sequence is, whatever the order.

use vstd::prelude::*;

verus! {

/// `item` put behind those of the sorted items that are not after it.
pub open spec fn insert_by<T>(items: Seq<T>, item: T, le: spec_fn(T, T) -> bool) -> Seq<T>
    decreases items.len(),
{
    if items.len() == 0 || le(items.last(), item) {
        items.push(item)
    } else {
        insert_by(items.drop_last(), item, le).push(items.last())
    }
}

/// `items` sorted by `le`; those that are equal in the order stay as they stood.
pub open spec fn sorted_by<T>(items: Seq<T>, le: spec_fn(T, T) -> bool) -> Seq<T>
    decreases items.len(),
{
    if items.len() == 0 {
        items
    } else {
        insert_by(sorted_by(items.drop_last(), le), items.last(), le)
    }
}

/// `le` holds between neighbours one way or the other, and chains.
pub open spec fn is_total_order<T>(le: spec_fn(T, T) -> bool) -> bool {
    &&& forall|a: T, b: T| #[trigger] le(a, b) || le(b, a)
    &&& forall|a: T, b: T, c: T| #[trigger] le(a, b) && #[trigger] le(b, c) ==> le(a, c)
}

pub proof fn lemma_insert_at<T>(items: Seq<T>, item: T, le: spec_fn(T, T) -> bool, at: int)
    requires
        0 <= at <= items.len(),
        forall|j: int| at <= j < items.len() ==> !le(#[trigger] items[j], item),
        at > 0 ==> le(items[at - 1], item),
    ensures
        insert_by(items, item, le) == items.insert(at, item),
    decreases items.len(),
{
    if at < items.len() {
        assert(!le(items[items.len() - 1], item));
        lemma_insert_at(items.drop_last(), item, le, at);
        assert(items.insert(at, item) =~= items.drop_last().insert(at, item).push(items.last()));
    } else {
        assert(items.insert(at, item) =~= items.push(item));
    }
}

/// Sorting neither adds an item nor loses one.
pub proof fn sorting_keeps_the_items<T>(items: Seq<T>, le: spec_fn(T, T) -> bool)
    ensures
        sorted_by(items, le).to_multiset() == items.to_multiset(),
        sorted_by(items, le).len() == items.len(),
    decreases items.len(),
{
    broadcast use vstd::seq_lib::group_to_multiset_ensures;

    if items.len() > 0 {
        let front = items.drop_last();
        sorting_keeps_the_items(front, le);
        lemma_insert_keeps(sorted_by(front, le), items.last(), le);
        assert(items =~= front.push(items.last()));
    }
}

proof fn lemma_insert_keeps<T>(items: Seq<T>, item: T, le: spec_fn(T, T) -> bool)
    ensures
        insert_by(items, item, le).to_multiset() == items.to_multiset().insert(item),
        insert_by(items, item, le).len() == items.len() + 1,
    decreases items.len(),
{
    broadcast use vstd::seq_lib::group_to_multiset_ensures;

    if items.len() > 0 && !le(items.last(), item) {
        let front = items.drop_last();
        lemma_insert_keeps(front, item, le);
        assert(items =~= front.push(items.last()));
        assert(front.to_multiset().insert(item).insert(items.last())
            =~= front.to_multiset().insert(items.last()).insert(item));
    }
}

/// After sorting, no item stands before one that it is after.
pub proof fn sorting_sorts<T>(items: Seq<T>, le: spec_fn(T, T) -> bool)
    requires
        is_total_order(le),
    ensures
        forall|i: int, j: int|
            0 <= i <= j < items.len() ==> le(
                #[trigger] sorted_by(items, le)[i],
                #[trigger] sorted_by(items, le)[j],
            ),
    decreases items.len(),
{
    sorting_keeps_the_items(items, le);
    if items.len() > 0 {
        let front = sorted_by(items.drop_last(), le);
        sorting_sorts(items.drop_last(), le);
        sorting_keeps_the_items(items.drop_last(), le);
        lemma_insert_sorts(front, items.last(), le);
    }
}

proof fn lemma_insert_all<T>(
    items: Seq<T>,
    item: T,
    le: spec_fn(T, T) -> bool,
    has: spec_fn(T) -> bool,
)
    requires
        forall|i: int| 0 <= i < items.len() ==> has(#[trigger] items[i]),
        has(item),
    ensures
        insert_by(items, item, le).len() == items.len() + 1,
        forall|i: int|
            0 <= i < items.len() + 1 ==> has(#[trigger] insert_by(items, item, le)[i]),
    decreases items.len(),
{
    if items.len() > 0 && !le(items.last(), item) {
        let front = items.drop_last();
        assert forall|i: int| 0 <= i < front.len() implies has(#[trigger] front[i]) by {
            assert(front[i] == items[i]);
        }
        lemma_insert_all(front, item, le, has);
        assert(has(items[items.len() - 1]));
    }
}

proof fn lemma_sorted_all<T>(items: Seq<T>, le: spec_fn(T, T) -> bool, has: spec_fn(T) -> bool)
    requires
        forall|i: int| 0 <= i < items.len() ==> has(#[trigger] items[i]),
    ensures
        sorted_by(items, le).len() == items.len(),
        forall|i: int| 0 <= i < items.len() ==> has(#[trigger] sorted_by(items, le)[i]),
    decreases items.len(),
{
    if items.len() > 0 {
        let front = items.drop_last();
        assert forall|i: int| 0 <= i < front.len() implies has(#[trigger] front[i]) by {
            assert(front[i] == items[i]);
        }
        lemma_sorted_all(front, le, has);
        assert(has(items[items.len() - 1]));
        lemma_insert_all(sorted_by(front, le), items.last(), le, has);
    }
}

proof fn lemma_insert_sorts<T>(items: Seq<T>, item: T, le: spec_fn(T, T) -> bool)
    requires
        is_total_order(le),
        forall|i: int, j: int|
            0 <= i <= j < items.len() ==> le(#[trigger] items[i], #[trigger] items[j]),
    ensures
        insert_by(items, item, le).len() == items.len() + 1,
        forall|i: int, j: int|
            0 <= i <= j < items.len() + 1 ==> le(
                #[trigger] insert_by(items, item, le)[i],
                #[trigger] insert_by(items, item, le)[j],
            ),
    decreases items.len(),
{
    let out = insert_by(items, item, le);
    assert(le(item, item));
    if items.len() == 0 || le(items.last(), item) {
        assert forall|i: int, j: int| 0 <= i <= j < out.len() implies le(
            #[trigger] out[i],
            #[trigger] out[j],
        ) by {
            if j == items.len() && i < j {
                assert(le(items[i], items[items.len() - 1]));
            }
        }
    } else {
        let front = items.drop_last();
        let last = items.last();
        lemma_insert_sorts(front, item, le);
        assert forall|i: int| 0 <= i < front.len() implies le(#[trigger] front[i], last) by {
            assert(le(items[i], items[items.len() - 1]));
        }
        assert(le(item, last) || le(last, item));
        lemma_insert_all(front, item, le, |x: T| le(x, last));
        let inner = insert_by(front, item, le);
        assert(le(items[items.len() - 1], items[items.len() - 1]));
        assert forall|i: int, j: int| 0 <= i <= j < out.len() implies le(
            #[trigger] out[i],
            #[trigger] out[j],
        ) by {
            if j == items.len() && i < j {
                assert((|x: T| le(x, last))(inner[i]));
            } else if j < items.len() {
                assert(le(inner[i], inner[j]));
            }
        }
    }
}

/// `a` may stand before `b` if it is not after it, and where `le` leaves them
/// equal if `tie` allows it.
pub open spec fn may_precede<T>(
    a: T,
    b: T,
    le: spec_fn(T, T) -> bool,
    tie: spec_fn(T, T) -> bool,
) -> bool {
    le(a, b) && (le(b, a) ==> tie(a, b))
}

/// Sorting items that stand in one order by another one keeps those that are equal
/// in the second in the order in which they stood.
pub proof fn sorting_is_stable<T>(
    items: Seq<T>,
    le: spec_fn(T, T) -> bool,
    tie: spec_fn(T, T) -> bool,
)
    requires
        is_total_order(le),
        forall|i: int, j: int|
            0 <= i <= j < items.len() ==> tie(#[trigger] items[i], #[trigger] items[j]),
    ensures
        forall|i: int, j: int|
            0 <= i <= j < items.len() ==> may_precede(
                #[trigger] sorted_by(items, le)[i],
                #[trigger] sorted_by(items, le)[j],
                le,
                tie,
            ),
    decreases items.len(),
{
    if items.len() > 0 {
        let front = items.drop_last();
        let item = items.last();
        assert forall|i: int, j: int| 0 <= i <= j < front.len() implies tie(
            #[trigger] front[i],
            #[trigger] front[j],
        ) by {
            assert(tie(items[i], items[j]));
        }
        sorting_is_stable(front, le, tie);
        let has = |x: T| tie(x, item);
        assert forall|i: int| 0 <= i < front.len() implies has(#[trigger] front[i]) by {
            assert(tie(items[i], items[items.len() - 1]));
        }
        lemma_sorted_all(front, le, has);
        let sorted = sorted_by(front, le);
        assert forall|i: int| 0 <= i < sorted.len() implies tie(#[trigger] sorted[i], item) by {
            assert(has(sorted[i]));
        }
        assert(tie(items[items.len() - 1], items[items.len() - 1]));
        lemma_insert_is_stable(sorted, item, le, tie);
    }
}

proof fn lemma_insert_is_stable<T>(
    items: Seq<T>,
    item: T,
    le: spec_fn(T, T) -> bool,
    tie: spec_fn(T, T) -> bool,
)
    requires
        is_total_order(le),
        forall|i: int, j: int|
            0 <= i <= j < items.len() ==> may_precede(
                #[trigger] items[i],
                #[trigger] items[j],
                le,
                tie,
            ),
        forall|i: int| 0 <= i < items.len() ==> tie(#[trigger] items[i], item),
        tie(item, item),
    ensures
        insert_by(items, item, le).len() == items.len() + 1,
        forall|i: int, j: int|
            0 <= i <= j < items.len() + 1 ==> may_precede(
                #[trigger] insert_by(items, item, le)[i],
                #[trigger] insert_by(items, item, le)[j],
                le,
                tie,
            ),
    decreases items.len(),
{
    let out = insert_by(items, item, le);
    assert(le(item, item));
    if items.len() == 0 || le(items.last(), item) {
        assert forall|i: int, j: int| 0 <= i <= j < out.len() implies may_precede(
            #[trigger] out[i],
            #[trigger] out[j],
            le,
            tie,
        ) by {
            if j == items.len() && i < j {
                assert(may_precede(items[i], items[items.len() - 1], le, tie));
            }
        }
    } else {
        let front = items.drop_last();
        let last = items.last();
        let before_last = |x: T| may_precede(x, last, le, tie);
        assert forall|i: int| 0 <= i < front.len() implies tie(#[trigger] front[i], item) by {
            assert(tie(items[i], item));
        }
        lemma_insert_is_stable(front, item, le, tie);
        assert forall|i: int| 0 <= i < front.len() implies before_last(#[trigger] front[i]) by {
            assert(may_precede(items[i], items[items.len() - 1], le, tie));
        }
        assert(le(item, last) || le(last, item));
        lemma_insert_all(front, item, le, before_last);
        let inner = insert_by(front, item, le);
        assert(may_precede(items[items.len() - 1], items[items.len() - 1], le, tie));
        assert forall|i: int, j: int| 0 <= i <= j < out.len() implies may_precede(
            #[trigger] out[i],
            #[trigger] out[j],
            le,
            tie,
        ) by {
            if j == items.len() && i < j {
                assert(before_last(inner[i]));
            } else if j < items.len() {
                assert(may_precede(inner[i], inner[j], le, tie));
            }
        }
    }
}

} // verus!
