//! What the answers of a filter owe to the checkers that it is made of.

use vstd::prelude::*;

use crate::condition_checker::{
    items_on, points_of, BatchCall, CheckItem, Condition, ConditionChecker, PointOffsetType, Rest,
    Select,
};
use crate::end_laws::lemma_side_is_size;
use crate::filter_model::{matching_any, FilterModel};
use crate::optimized_filter::{ConditionCheckerEnum, OptimizedFilter};
use crate::test_bits::TestBits;

verus! {

/// A filter matches exactly the points that meet its four clauses, whatever they hold: one of
/// `should` matches if there are any, at least `min_should_count` of `min_should` match, all of
/// `must` match, and none of `must_not` does.
pub proof fn law_filter_matches<L: ConditionChecker>(
    filter: OptimizedFilter<L>,
    point: PointOffsetType,
)
    ensures
        filter.condition().matching.contains(point) <==> {
            &&& filter.should().len() == 0 || exists|i: int|
                0 <= i < filter.should().len() && (
                #[trigger] filter.should()[i]).condition().matching.contains(point)
            &&& filter.min_should_count() <= Set::new(
                |i: int|
                    0 <= i < filter.min_should().len()
                        && filter.min_should()[i].condition().matching.contains(point),
            ).len()
            &&& forall|i: int|
                0 <= i < filter.must().len() ==> (
                #[trigger] filter.must()[i]).condition().matching.contains(point)
            &&& forall|i: int|
                0 <= i < filter.must_not().len() ==> !(
                #[trigger] filter.must_not()[i]).condition().matching.contains(point)
        },
{
    filter.lemma_model();
    let model = filter.model();
    lemma_side_is_size(model.min_should, Select::Match, point);
    assert(Set::new(
        |i: int|
            0 <= i < model.min_should.len() && model.min_should[i].matching.contains(point) == (
            Select::Match is Match),
    ) =~= Set::new(
        |i: int|
            0 <= i < filter.min_should().len()
                && filter.min_should()[i].condition().matching.contains(point),
    ));
    assert(forall|i: int|
        0 <= i < filter.should().len() ==> (#[trigger] filter.should()[i]).condition()
            == model.should[i]);
    assert(forall|i: int|
        0 <= i < filter.must().len() ==> (#[trigger] filter.must()[i]).condition()
            == model.must[i]);
    assert(forall|i: int|
        0 <= i < filter.must_not().len() ==> (#[trigger] filter.must_not()[i]).condition()
            == model.must_not[i]);
    if model.should.len() > 0 && matching_any(model.should).contains(point) {
        let i = choose|i: int|
            0 <= i < model.should.len() && (#[trigger] model.should[i]).matching.contains(point);
        assert(filter.should()[i].condition().matching.contains(point));
    }
    if forall|i: int|
        0 <= i < filter.must().len() ==> (
        #[trigger] filter.must()[i]).condition().matching.contains(point) {
        assert forall|i: int| 0 <= i < model.must.len() implies (
        #[trigger] model.must[i]).matching.contains(point) by {
            assert(filter.must()[i].condition().matching.contains(point));
        }
    }
    if matching_any(model.must_not).contains(point) {
        let i = choose|i: int|
            0 <= i < model.must_not.len() && (#[trigger] model.must_not[i]).matching.contains(
                point,
            );
        assert(filter.must_not()[i].condition().matching.contains(point));
    }
}

/// A filter inside a filter is the condition that it is by itself.
pub proof fn law_nested_filter<L: ConditionChecker>(filter: OptimizedFilter<L>)
    ensures
        ConditionCheckerEnum::Filter(filter).condition() == filter.condition(),
{
}

/// A checker that an index supplies stands in a filter as the condition that it is by itself.
pub proof fn law_index_checker<L: ConditionChecker>(checker: L)
    ensures
        ConditionCheckerEnum::Index(checker).condition() == checker.condition(),
{
}

/// A bit set matches a point iff the point has a bit and it is set, by itself as in a filter, and
/// answers whatever it is asked.
pub proof fn law_bits_match<L: ConditionChecker>(bits: TestBits, point: PointOffsetType)
    ensures
        bits.condition().matching.contains(point) <==> point < bits.0@.len()
            && bits.0@[point as int],
        ConditionCheckerEnum::<L>::TestBits(bits).condition().matching.contains(point)
            <==> point < bits.0@.len() && bits.0@[point as int],
        (ConditionCheckerEnum::<L>::TestBits(bits).condition().check_ends)(point) == set![
            Ok::<(), L::Error>(()),
        ],
        forall|call: BatchCall| #[trigger]
            (ConditionCheckerEnum::<L>::TestBits(bits).condition().batch_ends)(call) == set![
                Ok::<(), L::Error>(()),
            ],
        ConditionCheckerEnum::<L>::TestBits(bits).condition().batch_outcomes == set![
            Ok::<(), L::Error>(()),
        ],
{
}

/// A plain id stands for itself.
pub proof fn law_plain_id(id: PointOffsetType)
    ensures
        id.point() == id,
{
}

/// The points of a batch of plain ids are the ids.
pub proof fn law_points_of_plain_ids(ids: Seq<PointOffsetType>, point: PointOffsetType)
    ensures
        points_of(ids).contains(point) <==> ids.contains(point),
{
    if ids.contains(point) {
        let i = choose|i: int| 0 <= i < ids.len() && ids[i] == point;
        assert(ids[i].point() == point);
    }
}

/// A check that comes to an answer tells whether the point is one of those that meet the condition;
/// one that does not, ends in an error that a check of the point may end in.
pub proof fn law_check_tells_membership<E>(
    condition: Condition<E>,
    point: PointOffsetType,
    answer: Result<bool, E>,
)
    requires
        condition.may_answer(point, answer),
    ensures
        answer matches Ok(matched) ==> matched == condition.matching.contains(point)
            && (condition.check_ends)(point).contains(Ok(())),
        answer matches Err(error) ==> (condition.check_ends)(point).contains(Err(error)),
{
}

/// A batched check that comes to a count leaves at the front each item that meets the condition, or
/// each that does not, as often as it came in, and no other. Where the rest is kept, the buffer holds
/// what it held. A check that comes to none ends in an error that a check of those points may end in.
pub proof fn law_batch_selects_members<K: CheckItem, E>(
    condition: Condition<E>,
    before: Seq<K>,
    after: Seq<K>,
    select: Select,
    rest: Rest,
    answer: Result<usize, E>,
)
    requires
        condition.may_partition(before, after, select, rest, answer),
    ensures
        after.len() == before.len(),
        answer matches Ok(n) ==> {
            &&& n <= before.len()
            &&& forall|item: K| #[trigger]
                after.take(n as int).to_multiset().count(item) == if condition.matching.contains(
                    item.point(),
                ) == (select is Match) {
                    before.to_multiset().count(item)
                } else {
                    0
                }
            &&& rest is Keep ==> after.to_multiset() == before.to_multiset()
            &&& (condition.batch_ends)(
                BatchCall {
                    points: Set::new(
                        |p: PointOffsetType|
                            exists|i: int| 0 <= i < before.len() && (#[trigger] before[i]).point() == p,
                    ),
                    select,
                    rest,
                },
            ).contains(Ok(()))
        },
        answer matches Err(error) ==> (condition.batch_ends)(
            BatchCall {
                points: Set::new(
                    |p: PointOffsetType|
                        exists|i: int| 0 <= i < before.len() && (#[trigger] before[i]).point() == p,
                ),
                select,
                rest,
            },
        ).contains(Err(error)),
{
    let points = Set::new(
        |p: PointOffsetType|
            exists|i: int| 0 <= i < before.len() && (#[trigger] before[i]).point() == p,
    );
    assert(points_of(before) =~= points);
    assert forall|item: K, n: usize| answer == Ok::<usize, E>(n) implies #[trigger] after.take(
        n as int,
    ).to_multiset().count(item) == if condition.matching.contains(item.point()) == (
    select is Match) {
        before.to_multiset().count(item)
    } else {
        0
    } by {
        assert(items_on(before, select.side(condition.matching)).count(item) == if select.side(
            condition.matching,
        ).contains(item.point()) {
            before.to_multiset().count(item)
        } else {
            0
        });
    }
}

/// Filters, and the checkers in them, select exactly what they match if the checkers that indexes
/// supply do. Bit sets do.
pub proof fn law_who_selects_exactly<L: ConditionChecker>()
    ensures
        TestBits::obeys_partition(),
        ConditionCheckerEnum::<L>::obeys_partition() == L::obeys_partition(),
        OptimizedFilter::<L>::obeys_partition() == L::obeys_partition(),
{
}

/// What a filter states is put together from what its checkers state, each taken as it is and in
/// its place.
pub proof fn law_filter_holds_its_conditions<L: ConditionChecker>(filter: OptimizedFilter<L>)
    ensures
        filter.condition() == (FilterModel {
            should: Seq::new(filter.should().len(), |i: int| filter.should()[i].condition()),
            min_should: Seq::new(
                filter.min_should().len(),
                |i: int| filter.min_should()[i].condition(),
            ),
            min_should_count: filter.min_should_count() as nat,
            must: Seq::new(filter.must().len(), |i: int| filter.must()[i].condition()),
            must_not: Seq::new(filter.must_not().len(), |i: int| filter.must_not()[i].condition()),
        }).condition(),
{
    filter.lemma_model();
    assert(filter.model() =~= FilterModel {
        should: Seq::new(filter.should().len(), |i: int| filter.should()[i].condition()),
        min_should: Seq::new(
            filter.min_should().len(),
            |i: int| filter.min_should()[i].condition(),
        ),
        min_should_count: filter.min_should_count() as nat,
        must: Seq::new(filter.must().len(), |i: int| filter.must()[i].condition()),
        must_not: Seq::new(filter.must_not().len(), |i: int| filter.must_not()[i].condition()),
    });
}

/// What a batched check leaves of a filter: as many checkers in each clause as there were, each with
/// the ways to end that it had, and the same count. Checkers of `min_should` that are not asked are
/// as they were. An error is one that the first checker to fail may end in, and the checkers that
/// would have been asked behind it are as they were.
pub proof fn law_what_a_batch_leaves<L: ConditionChecker>(
    before: OptimizedFilter<L>,
    after: OptimizedFilter<L>,
    asked: Seq<ConditionCheckerEnum<L>>,
    asked_after: Seq<ConditionCheckerEnum<L>>,
    call: BatchCall,
    answer: Result<usize, L::Error>,
)
    requires
        before.may_become(&after, call, answer),
        asked == before.must() + before.must_not() + before.should() + if 0
            < before.min_should_count() <= before.min_should().len() {
            before.min_should()
        } else {
            Seq::empty()
        },
        asked_after == after.must() + after.must_not() + after.should() + if 0
            < after.min_should_count() <= after.min_should().len() {
            after.min_should()
        } else {
            Seq::empty()
        },
    ensures
        after.should().len() == before.should().len(),
        after.min_should().len() == before.min_should().len(),
        after.min_should_count() == before.min_should_count(),
        after.must().len() == before.must().len(),
        after.must_not().len() == before.must_not().len(),
        before.min_should_count() == 0 || before.min_should_count() > before.min_should().len() ==> {
            &&& after.min_should() == before.min_should()
            &&& after.scratch() == before.scratch()
        },
        asked_after.len() == asked.len(),
        forall|i: int|
            0 <= i < asked.len() ==> (#[trigger] asked_after[i]).condition().batch_outcomes
                == asked[i].condition().batch_outcomes,
        L::obeys_partition() ==> forall|i: int|
            0 <= i < asked.len() ==> (#[trigger] asked_after[i]).condition()
                == asked[i].condition(),
        answer is Err ==> exists|i: int|
            0 <= i < asked.len() && (#[trigger] asked[i]).condition().batch_outcomes.contains(
                Err(answer->Err_0),
            ) && (forall|j: int|
                0 <= j < i ==> (#[trigger] asked[j]).condition().batch_outcomes.contains(Ok(()))) && (
            forall|j: int| i < j < asked.len() ==> #[trigger] asked_after[j] == asked[j]),
{
    before.lemma_model();
    after.lemma_model();
    before.lemma_asked();
    after.lemma_asked();
    assert(before.asked() =~= asked);
    assert(after.asked() =~= asked_after);
    let conditions = before.model().asked();
    let conditions_after = after.model().asked();
    assert forall|i: int| 0 <= i < asked.len() implies (
    #[trigger] asked_after[i]).condition().batch_outcomes == asked[i].condition().batch_outcomes by {
        assert(conditions_after[i].batch_outcomes == conditions[i].batch_outcomes);
    }
    if L::obeys_partition() {
        assert forall|i: int| 0 <= i < asked.len() implies (
        #[trigger] asked_after[i]).condition() == asked[i].condition() by {
            assert(conditions_after[i] == conditions[i]);
        }
    }
    if answer is Err {
        let error = answer->Err_0;
        let i = choose|i: int| before.stopped_at(&after, call, i, error);
        assert(conditions[i] == asked[i].condition());
        assert forall|j: int| 0 <= j < i implies (
        #[trigger] asked[j]).condition().batch_outcomes.contains(Ok(())) by {
            assert(conditions[j].sometimes_answers());
        }
    }
}

/// A batched check asks nothing where there is nothing in the clauses that it asks. It then selects
/// all items or none: all match where nothing has to be met, none where more has to be than there is.
pub proof fn law_nothing_to_ask<E>(model: FilterModel<E>, select: Select, len: nat)
    requires
        model.must.len() == 0,
        model.must_not.len() == 0,
        model.should.len() == 0,
        model.min_should_count == 0 || model.min_should_count > model.min_should.len(),
    ensures
        model.asks_nothing(),
        model.undecided_count(select, len) == if (select is Match) == (model.min_should_count == 0) {
            len
        } else {
            0
        },
{
}

/// What a batched check leaves of its counts: the number of items that meet the other clauses and
/// that enough conditions of `min_should` put on the selected side, for each number short of it.
pub proof fn law_counts_left<K: CheckItem, E>(
    model: FilterModel<E>,
    items: Seq<K>,
    select: Select,
    bounds: Seq<usize>,
    wanted: int,
    s: int,
)
    requires
        model.counts_are(items, select, bounds),
        select is Match ==> wanted == model.min_should_count,
        select is NonMatch ==> wanted == model.min_should.len() - model.min_should_count + 1,
        0 <= s < wanted,
    ensures
        bounds.len() == wanted,
        bounds[s] == items.to_multiset().filter(
            |k: K|
                (FilterModel { min_should_count: 0, ..model }).condition().matching.contains(
                    k.point(),
                ) && Set::new(
                    |i: int|
                        0 <= i < model.min_should.len() && model.min_should[i].matching.contains(
                            k.point(),
                        ) == (select is Match),
                ).len() >= wanted - s,
        ).len(),
{
    let others = FilterModel { min_should_count: 0, ..model };
    let counted = items.to_multiset().filter(
        |k: K|
            others.condition().matching.contains(k.point()) && Set::new(
                |i: int|
                    0 <= i < model.min_should.len() && model.min_should[i].matching.contains(
                        k.point(),
                    ) == (select is Match),
            ).len() >= wanted - s,
    );
    assert forall|k: K| #[trigger] counted.count(k) == model.counted(items, select, s).count(k) by {
        lemma_side_is_size(model.min_should, select, k.point());
    }
    assert(counted =~= model.counted(items, select, s));
    assert(bounds[s] == model.counted(items, select, s).len());
}

} // verus!
