//! Items sorted by how many conditions select them.

use vstd::prelude::*;
use vstd::seq_lib::{lemma_multiset_commutative, to_multiset_len};

use crate::condition_checker::{items_on, CheckItem, Condition, PointOffsetType, Select};
use crate::filter_model::{
    lemma_one_more, selected_by_at_least, selected_by_exactly,
};
use crate::partition::{lemma_between, lemma_pick_again, lemma_pick_either, lemma_splice};

verus! {

/// The items of `ids` before `bound` are those of `before` that at least `count` conditions select.
pub open spec fn bounds_at_least<K: CheckItem, E>(
    ids: Seq<K>,
    bound: usize,
    before: Seq<K>,
    conditions: Seq<Condition<E>>,
    select: Select,
    count: int,
) -> bool {
    &&& bound <= ids.len()
    &&& ids.take(bound as int).to_multiset() == items_on(
        before,
        selected_by_at_least(conditions, select, count),
    )
}

/// Every item is selected by no condition or more.
pub proof fn lemma_all_bound_zero<K: CheckItem, E>(
    ids: Seq<K>,
    bound: usize,
    before: Seq<K>,
    conditions: Seq<Condition<E>>,
    select: Select,
)
    requires
        bound == ids.len(),
        ids.to_multiset() == before.to_multiset(),
    ensures
        bounds_at_least(ids, bound, before, conditions, select, 0),
{
    assert(ids.take(bound as int) =~= ids);
    assert(ids.to_multiset() =~= items_on(before, selected_by_at_least(conditions, select, 0)));
}

/// Between the bounds of two counts that follow each other stand the items of the lower count.
pub proof fn lemma_slot<K: CheckItem, E>(
    ids: Seq<K>,
    start: usize,
    end: usize,
    before: Seq<K>,
    conditions: Seq<Condition<E>>,
    select: Select,
    count: int,
)
    requires
        start <= end,
        bounds_at_least(ids, start, before, conditions, select, count + 1),
        bounds_at_least(ids, end, before, conditions, select, count),
    ensures
        ids.subrange(start as int, end as int).to_multiset() == items_on(
            before,
            selected_by_exactly(conditions, select, count),
        ),
{
    lemma_between(ids, start as int, end as int);
    let slot = ids.subrange(start as int, end as int).to_multiset();
    let exactly = selected_by_exactly(conditions, select, count);
    let above = selected_by_at_least(conditions, select, count + 1);
    lemma_pick_either(before, above, exactly);
    assert(above.union(exactly) =~= selected_by_at_least(conditions, select, count));
    assert forall|k: K| slot.count(k) == items_on(before, exactly).count(k) by {
        assert(ids.take(end as int).to_multiset().count(k) == ids.take(
            start as int,
        ).to_multiset().count(k) + slot.count(k));
        assert(ids.take(end as int).to_multiset().count(k) == items_on(before, above).count(k)
            + items_on(before, exactly).count(k));
    }
    assert(slot =~= items_on(before, exactly));
}

/// One more condition, asked of the items that lack one to `count`, moves the bound of `count`
/// behind those that it selects.
pub proof fn lemma_slot_step<K: CheckItem, E>(
    current: Seq<K>,
    ids: Seq<K>,
    start: usize,
    end: usize,
    n: usize,
    before: Seq<K>,
    conditions: Seq<Condition<E>>,
    j: int,
    select: Select,
    count: int,
)
    requires
        0 <= j < conditions.len(),
        start + n <= end <= current.len(),
        current.len() == ids.len(),
        ids == current.take(start as int) + ids.subrange(start as int, end as int) + current.skip(
            end as int,
        ),
        bounds_at_least(current, start, before, conditions.take(j), select, count),
        current.subrange(start as int, end as int).to_multiset() == items_on(
            before,
            selected_by_exactly(conditions.take(j), select, count - 1),
        ),
        ids.subrange(start as int, end as int).take(n as int).to_multiset() == items_on(
            current.subrange(start as int, end as int),
            select.side(conditions[j].matching),
        ),
    ensures
        bounds_at_least(ids, (start + n) as usize, before, conditions.take(j + 1), select, count),
{
    let part = ids.subrange(start as int, end as int);
    let above = selected_by_at_least(conditions.take(j), select, count);
    let slot = selected_by_exactly(conditions.take(j), select, count - 1);
    let side = select.side(conditions[j].matching);
    lemma_splice(current, part, ids, start as int, end as int);
    lemma_multiset_commutative(current.take(start as int), part.take(n as int));
    lemma_pick_again(current.subrange(start as int, end as int), before, slot, side);
    lemma_pick_either(before, above, slot.intersect(side));
    lemma_one_more(conditions, j, select);
    assert(above.union(slot.intersect(side)) =~= selected_by_at_least(
        conditions.take(j + 1),
        select,
        count,
    ));
    assert(ids.take(start + n) == current.take(start as int) + part.take(n as int));
}

/// Each bound is the number of items that enough conditions select.
pub proof fn lemma_counts<K: CheckItem, E>(
    part: Seq<K>,
    sorted: Seq<K>,
    bounds: Seq<usize>,
    whole: Seq<K>,
    picked: Set<PointOffsetType>,
    conditions: Seq<Condition<E>>,
    select: Select,
    threshold: int,
)
    requires
        part.to_multiset() == items_on(whole, picked),
        forall|s: int|
            0 <= s < bounds.len() ==> bounds_at_least(
                sorted,
                #[trigger] bounds[s],
                part,
                conditions,
                select,
                threshold - s,
            ),
    ensures
        forall|s: int|
            0 <= s < bounds.len() ==> #[trigger] bounds[s] == items_on(
                whole,
                picked.intersect(selected_by_at_least(conditions, select, threshold - s)),
            ).len(),
{
    assert forall|s: int| 0 <= s < bounds.len() implies #[trigger] bounds[s] == items_on(
        whole,
        picked.intersect(selected_by_at_least(conditions, select, threshold - s)),
    ).len() by {
        assert(bounds_at_least(sorted, bounds[s], part, conditions, select, threshold - s));
        let enough = selected_by_at_least(conditions, select, threshold - s);
        lemma_pick_again(part, whole, picked, enough);
        to_multiset_len(sorted.take(bounds[s] as int));
    }
}

} // verus!
