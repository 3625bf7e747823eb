//! What holds of checkers and filters as a whole.

use vstd::prelude::*;
use vstd::seq_lib::{lemma_multiset_commutative, to_multiset_len};

use crate::condition_checker::{
    items_on, points_of, BatchCall, CheckItem, Condition, PointOffsetType, Rest, Select,
};
use crate::filter_model::{
    all_answer, all_call, answer_in_turn, any_answer, any_call, count_answer, count_call,
    fail_in_turn, lemma_one_more, lemma_two_sides, match_count, matching_all, matching_any,
    selected_by_at_least, side_count, FilterModel,
};
use crate::partition::{lemma_pick_either, lemma_rest_of_picked};

verus! {

/// A batched check puts to the front exactly the items that a check of each one by itself would
/// select.
pub proof fn law_batch_agrees_with_check<K: CheckItem, E>(
    condition: Condition<E>,
    before: Seq<K>,
    after: Seq<K>,
    select: Select,
    rest: Rest,
    n: usize,
    answers: spec_fn(PointOffsetType) -> bool,
)
    requires
        condition.may_partition(before, after, select, rest, Ok(n)),
        forall|p: PointOffsetType| #[trigger]
            points_of(before).contains(p) ==> condition.may_answer(p, Ok(answers(p))),
    ensures
        after.take(n as int).to_multiset() == before.to_multiset().filter(
            |k: K| answers(k.point()) == (select is Match),
        ),
{
    broadcast use vstd::seq_lib::group_to_multiset_ensures;

    let checked = before.to_multiset().filter(|k: K| answers(k.point()) == (select is Match));
    assert forall|k: K|
        items_on(before, select.side(condition.matching)).count(k) == checked.count(k) by {
        if before.to_multiset().count(k) > 0 {
            let i = choose|i: int| 0 <= i < before.len() && before[i] == k;
            assert(before[i].point() == k.point());
            assert(points_of(before).contains(k.point()));
        }
    }
    assert(items_on(before, select.side(condition.matching)) =~= checked);
}

/// Where the rest is kept, the items behind the selected ones are exactly those of the other
/// side.
pub proof fn law_keep_leaves_the_other_side<K: CheckItem, E>(
    condition: Condition<E>,
    before: Seq<K>,
    after: Seq<K>,
    select: Select,
    n: usize,
)
    requires
        condition.may_partition(before, after, select, Rest::Keep, Ok(n)),
    ensures
        after.skip(n as int).to_multiset() == items_on(
            before,
            select.side(condition.matching).complement(),
        ),
{
    let side = select.side(condition.matching);
    let all = Set::<PointOffsetType>::full();
    assert(after.to_multiset() =~= items_on(before, all));
    assert(all.intersect(side) =~= side);
    lemma_rest_of_picked(after, n as int, before, all, side);
    assert(all.difference(side) =~= side.complement());
}

/// What is selected, and how many items, hangs neither on the order of the batch nor on what
/// becomes of the rest. A check of a batch that an earlier check rearranged selects the same.
pub proof fn law_order_and_rest_do_not_matter<K: CheckItem, E>(
    condition: Condition<E>,
    select: Select,
    one: Seq<K>,
    one_after: Seq<K>,
    one_rest: Rest,
    n: usize,
    other: Seq<K>,
    other_after: Seq<K>,
    other_rest: Rest,
    m: usize,
)
    requires
        one.to_multiset() == other.to_multiset(),
        condition.may_partition(one, one_after, select, one_rest, Ok(n)),
        condition.may_partition(other, other_after, select, other_rest, Ok(m)),
    ensures
        n == m,
        one_after.take(n as int).to_multiset() == other_after.take(m as int).to_multiset(),
{
    to_multiset_len(one_after.take(n as int));
    to_multiset_len(other_after.take(m as int));
}

/// The number of items selected from two batches together is the sum over the two.
pub proof fn law_counts_add_up<K: CheckItem, E>(
    condition: Condition<E>,
    select: Select,
    one: Seq<K>,
    one_after: Seq<K>,
    one_rest: Rest,
    n: usize,
    other: Seq<K>,
    other_after: Seq<K>,
    other_rest: Rest,
    m: usize,
    both_after: Seq<K>,
    both_rest: Rest,
    k: usize,
)
    requires
        condition.may_partition(one, one_after, select, one_rest, Ok(n)),
        condition.may_partition(other, other_after, select, other_rest, Ok(m)),
        condition.may_partition(one + other, both_after, select, both_rest, Ok(k)),
    ensures
        k == n + m,
{
    let side = select.side(condition.matching);
    lemma_multiset_commutative(one, other);
    assert(items_on(one + other, side) =~= items_on(one, side).add(items_on(other, side)));
    to_multiset_len(one_after.take(n as int));
    to_multiset_len(other_after.take(m as int));
    to_multiset_len(both_after.take(k as int));
}

/// The matches and the non-matches of a batch make up the batch.
pub proof fn law_sides_add_up<K: CheckItem, E>(
    condition: Condition<E>,
    before: Seq<K>,
    matches: Seq<K>,
    match_rest: Rest,
    n: usize,
    non_matches: Seq<K>,
    non_match_rest: Rest,
    m: usize,
)
    requires
        condition.may_partition(before, matches, Select::Match, match_rest, Ok(n)),
        condition.may_partition(before, non_matches, Select::NonMatch, non_match_rest, Ok(m)),
    ensures
        n + m == before.len(),
        matches.take(n as int).to_multiset().add(non_matches.take(m as int).to_multiset())
            == before.to_multiset(),
{
    let met = condition.matching;
    lemma_pick_either(before, met, met.complement());
    assert(met.union(met.complement()) =~= Set::full());
    assert(items_on(before, Set::full()) =~= before.to_multiset());
    to_multiset_len(before);
    to_multiset_len(matches.take(n as int));
    to_multiset_len(non_matches.take(m as int));
}

/// A point is rejected iff it fails any clause: no condition of a `should` that has some matches,
/// too few of `min_should` do, one of `must` does not, or one of `must_not` does.
pub proof fn law_rejected_by_any_clause<E>(model: FilterModel<E>, point: PointOffsetType)
    ensures
        !model.matching().contains(point) <==> {
            ||| model.should.len() > 0 && forall|i: int|
                0 <= i < model.should.len() ==> !(#[trigger] model.should[i]).matching.contains(point)
            ||| match_count(model.min_should, point) < model.min_should_count
            ||| exists|i: int|
                0 <= i < model.must.len() && !(#[trigger] model.must[i]).matching.contains(point)
            ||| exists|i: int|
                0 <= i < model.must_not.len() && (#[trigger] model.must_not[i]).matching.contains(
                    point,
                )
        },
{
}

/// A filter without conditions passes every point, and every check of it comes to an answer.
pub proof fn law_empty_filter<E>(model: FilterModel<E>)
    requires
        model.should.len() == 0,
        model.min_should_count == 0,
        model.must.len() == 0,
        model.must_not.len() == 0,
    ensures
        model.condition().matching == Set::<PointOffsetType>::full(),
        model.condition().never_fails(),
        forall|p: PointOffsetType| #[trigger] model.condition().can_answer(p),
        forall|call: BatchCall| #[trigger] model.condition().can_answer_batch(call),
        model.condition().sometimes_answers(),
{
    assert(model.matching() =~= Set::full());
}

/// A filter of one `must` condition is that condition: it matches the same points, and a check
/// of it ends as a check of the condition does. To select non-matches, the condition is asked to
/// keep the rest whatever the caller needs.
pub proof fn law_single_condition<E>(model: FilterModel<E>, condition: Condition<E>)
    requires
        model.should.len() == 0,
        model.min_should_count == 0,
        model.must == seq![condition],
        model.must_not.len() == 0,
    ensures
        model.condition().matching == condition.matching,
        forall|p: PointOffsetType| #[trigger]
            (model.condition().check_ends)(p) == (condition.check_ends)(p),
        forall|call: BatchCall|
            call.select is Match ==> #[trigger] (model.condition().batch_ends)(call) == (
            condition.batch_ends)(call),
        forall|call: BatchCall|
            call.select is NonMatch ==> #[trigger] (model.condition().batch_ends)(call) == (
            condition.batch_ends)(BatchCall { rest: Rest::Keep, ..call }),
        model.condition().batch_outcomes == condition.batch_outcomes,
{
    assert(model.must[0] == condition);
    assert forall|p: PointOffsetType| model.matching().contains(p) <==> condition.matching.contains(
        p,
    ) by {}
    assert(model.matching() =~= condition.matching);
    assert forall|p: PointOffsetType| #[trigger]
        (model.condition().check_ends)(p) == (condition.check_ends)(p) by {
        assert(model.asks_must(p, 0));
        let ends = (model.condition().check_ends)(p);
        assert forall|end: Result<(), E>| #[trigger]
            ends.contains(end) <==> (condition.check_ends)(p).contains(end) by {
            match end {
                Ok(unit) => {
                    assert(unit == ());
                    assert(model.can_answer(p) <==> condition.can_answer(p));
                },
                Err(error) => {
                    assert(model.can_fail(p, error) <==> condition.can_fail(p, error));
                },
            }
        }
        assert(ends =~= (condition.check_ends)(p));
    }
    assert forall|call: BatchCall| #[trigger]
        (model.condition().batch_ends)(call) == (condition.batch_ends)(
            match call.select {
                Select::Match => call,
                Select::NonMatch => BatchCall { rest: Rest::Keep, ..call },
            },
        ) by {
        let first = all_call(call.points, model.must, Select::Match, call.rest, 0);
        let only = any_call(call.points, model.must, Select::NonMatch, Rest::Keep, 0);
        assert(first.points =~= call.points);
        assert(only.points =~= call.points);
        let asked = match call.select {
            Select::Match => first,
            Select::NonMatch => only,
        };
        let ends = (model.condition().batch_ends)(call);
        assert forall|end: Result<(), E>| #[trigger]
            ends.contains(end) <==> (condition.batch_ends)(asked).contains(end) by {
            match end {
                Ok(unit) => {
                    assert(unit == ());
                    assert(model.can_answer_batch(call) <==> condition.can_answer_batch(asked));
                },
                Err(error) => {
                    assert(model.fails_at(call, 0, error) <==> condition.can_fail_batch(
                        asked,
                        error,
                    ));
                    assert(forall|i: int| i != 0 ==> !model.fails_at(call, i, error));
                },
            }
        }
        assert(ends =~= (condition.batch_ends)(asked));
    }
    assert(model.asked() =~= seq![condition]);
    assert forall|end: Result<(), E>| #[trigger]
        model.batch_outcomes().contains(end) <==> condition.batch_outcomes.contains(end) by {
        match end {
            Ok(unit) => {
                assert(unit == ());
                assert(answer_in_turn(model.asked(), 1) <==> condition.sometimes_answers());
            },
            Err(error) => {
                assert(fail_in_turn(model.asked(), 0, error) <==> condition.sometimes_fails(error));
            },
        }
    }
    assert(model.batch_outcomes() =~= condition.batch_outcomes);
}

/// What never fails in its conditions never fails as a filter.
pub proof fn law_never_fails<E>(model: FilterModel<E>)
    requires
        forall|i: int| 0 <= i < model.should.len() ==> (#[trigger] model.should[i]).never_fails(),
        forall|i: int|
            0 <= i < model.min_should.len() ==> (#[trigger] model.min_should[i]).never_fails(),
        forall|i: int| 0 <= i < model.must.len() ==> (#[trigger] model.must[i]).never_fails(),
        forall|i: int| 0 <= i < model.must_not.len() ==> (#[trigger] model.must_not[i]).never_fails(),
    ensures
        model.condition().never_fails(),
{
}

/// However a batched check by a filter may end, `batch_outcomes` says that one may, where that holds
/// of the conditions that it asks.
pub proof fn law_outcomes_cover_batches<E>(model: FilterModel<E>)
    requires
        forall|i: int|
            0 <= i < model.asked().len() ==> (
            #[trigger] model.asked()[i]).outcomes_cover_batches(),
    ensures
        model.condition().outcomes_cover_batches(),
{
    let asked = model.asked();
    let all = asked.len() as int;
    assert forall|call: BatchCall| #[trigger] model.condition().can_answer_batch(
        call,
    ) implies model.condition().sometimes_answers() by {
        lemma_clauses_covered(model, call);
        assert(answer_in_turn(asked, all));
    }
    assert forall|call: BatchCall, error: E| #[trigger] model.condition().can_fail_batch(
        call,
        error,
    ) implies model.condition().sometimes_fails(error) by {
        lemma_clauses_covered(model, call);
        let i = choose|i: int| model.fails_at(call, i, error);
        assert(fail_in_turn(asked, i, error));
    }
}

/// Where the conditions of a clause can answer a batched check, or one of them can fail, their
/// `batch_outcomes` say so.
proof fn lemma_clauses_covered<E>(model: FilterModel<E>, call: BatchCall)
    requires
        forall|i: int|
            0 <= i < model.asked().len() ==> (
            #[trigger] model.asked()[i]).outcomes_cover_batches(),
    ensures
        model.can_answer_batch(call) ==> answer_in_turn(model.asked(), model.asked().len() as int),
        forall|i: int, error: E| #[trigger]
            model.fails_at(call, i, error) ==> fail_in_turn(model.asked(), i, error),
{
    let asked = model.asked();
    let must_not = model.must.len() as int;
    let should = must_not + model.must_not.len();
    let min_should = should + model.should.len();
    assert(forall|j: int| 0 <= j < must_not ==> #[trigger] model.must[j] == asked[j]);
    assert(forall|j: int|
        0 <= j < model.must_not.len() ==> #[trigger] model.must_not[j] == asked[must_not + j]);
    assert(forall|j: int|
        0 <= j < model.should.len() ==> #[trigger] model.should[j] == asked[should + j]);
    assert(model.counts_min_should() ==> forall|j: int|
        0 <= j < model.min_should.len() ==> #[trigger] model.min_should[j] == asked[min_should + j]);
    lemma_searches_covered(model.must);
    lemma_searches_covered(model.must_not);
    lemma_searches_covered(model.should);
    if model.counts_min_should() {
        lemma_searches_covered(model.min_should);
    }
    assert(model.must_answers_batch(call) ==> answer_in_turn(model.must, must_not));
    assert(model.must_not_answers_batch(call) ==> answer_in_turn(
        model.must_not,
        model.must_not.len() as int,
    ));
    assert(model.should_answers_batch(call) ==> answer_in_turn(
        model.should,
        model.should.len() as int,
    ));
    assert forall|j: int| 0 <= j < asked.len() && model.can_answer_batch(call) implies (
    #[trigger] asked[j]).sometimes_answers() by {
        lemma_asked_at(model, j);
    }
    assert forall|i: int, error: E| #[trigger] model.fails_at(call, i, error) implies fail_in_turn(
        asked,
        i,
        error,
    ) by {
        assert(0 <= i < asked.len());
        lemma_asked_at(model, i);
        assert forall|j: int| 0 <= j < i implies (#[trigger] asked[j]).sometimes_answers() by {
            lemma_asked_at(model, j);
        }
    }
}

/// Which condition a batched check asks as number `j`.
proof fn lemma_asked_at<E>(model: FilterModel<E>, j: int)
    requires
        0 <= j < model.asked().len(),
    ensures
        j < model.must.len() ==> model.asked()[j] == model.must[j],
        0 <= j - model.must.len() < model.must_not.len() ==> model.asked()[j] == model.must_not[j
            - model.must.len()],
        0 <= j - model.must.len() - model.must_not.len() < model.should.len() ==> model.asked()[j]
            == model.should[j - model.must.len() - model.must_not.len()],
        j >= model.min_should_start() ==> model.asked()[j] == model.min_should[j
            - model.min_should_start()],
{
}

/// Where conditions can answer a search, or one of them can fail, their `batch_outcomes` say so.
proof fn lemma_searches_covered<E>(conditions: Seq<Condition<E>>)
    requires
        forall|i: int|
            0 <= i < conditions.len() ==> (#[trigger] conditions[i]).outcomes_cover_batches(),
    ensures
        forall|points: Set<PointOffsetType>, select: Select, rest: Rest, n: int|
            #![trigger all_answer(points, conditions, select, rest, n)]
            n <= conditions.len() && all_answer(points, conditions, select, rest, n)
                ==> answer_in_turn(conditions, n),
        forall|points: Set<PointOffsetType>, select: Select, rest: Rest, n: int|
            #![trigger any_answer(points, conditions, select, rest, n)]
            n <= conditions.len() && any_answer(points, conditions, select, rest, n)
                ==> answer_in_turn(conditions, n),
        forall|points: Set<PointOffsetType>, select: Select, threshold: int, n: int, b: int|
            #![trigger count_answer(points, conditions, select, threshold, n, b)]
            n <= conditions.len() && threshold > 0 && count_answer(
                points,
                conditions,
                select,
                threshold,
                n,
                b,
            ) ==> answer_in_turn(conditions, n),
{
    assert forall|points: Set<PointOffsetType>, select: Select, rest: Rest, n: int|
        #![trigger all_answer(points, conditions, select, rest, n)]
        n <= conditions.len() && all_answer(
            points,
            conditions,
            select,
            rest,
            n,
        ) implies answer_in_turn(conditions, n) by {
        assert forall|i: int| 0 <= i < n implies (#[trigger] conditions[i]).sometimes_answers() by {
            assert(conditions[i].can_answer_batch(all_call(points, conditions, select, rest, i)));
        }
    }
    assert forall|points: Set<PointOffsetType>, select: Select, rest: Rest, n: int|
        #![trigger any_answer(points, conditions, select, rest, n)]
        n <= conditions.len() && any_answer(
            points,
            conditions,
            select,
            rest,
            n,
        ) implies answer_in_turn(conditions, n) by {
        assert forall|i: int| 0 <= i < n implies (#[trigger] conditions[i]).sometimes_answers() by {
            assert(conditions[i].can_answer_batch(any_call(points, conditions, select, rest, i)));
        }
    }
    assert forall|points: Set<PointOffsetType>, select: Select, threshold: int, n: int, b: int|
        #![trigger count_answer(points, conditions, select, threshold, n, b)]
        n <= conditions.len() && threshold > 0 && count_answer(
            points,
            conditions,
            select,
            threshold,
            n,
            b,
        ) implies answer_in_turn(conditions, n) by {
        assert forall|i: int| 0 <= i < n implies (#[trigger] conditions[i]).sometimes_answers() by {
            assert(conditions[i].can_answer_batch(
                count_call(points, conditions, select, threshold, i, 0),
            ));
        }
    }
}

/// A filter makes up no errors: one that ends a batched check, a condition that it asks can fail
/// with.
pub proof fn law_errors_come_from_conditions<E>(model: FilterModel<E>, call: BatchCall, error: E)
    ensures
        model.condition().can_fail_batch(call, error) ==> exists|i: int, asked: BatchCall|
            0 <= i < model.asked().len() && #[trigger] model.asked()[i].can_fail_batch(asked, error),
        model.condition().sometimes_fails(error) ==> exists|i: int|
            0 <= i < model.asked().len() && (#[trigger] model.asked()[i]).sometimes_fails(error),
{
    if model.condition().can_fail_batch(call, error) {
        let i = choose|i: int| model.fails_at(call, i, error);
        let must_not = i - model.must.len();
        let should = must_not - model.must_not.len();
        let min_should = should - model.should.len();
        if must_not < 0 {
            assert(model.must_fails_batch(call, i, error));
            assert(model.asked()[i] == model.must[i]);
        } else if should < 0 {
            assert(model.must_not_fails_batch(call, must_not, error));
            assert(model.asked()[i] == model.must_not[must_not]);
        } else if min_should < 0 {
            assert(model.should_fails_batch(call, should, error));
            assert(model.asked()[i] == model.should[should]);
        } else {
            assert(model.min_should_fails_batch(call, min_should, error));
            assert(model.asked()[i] == model.min_should[min_should]);
        }
    }
    if model.condition().sometimes_fails(error) {
        let i = choose|i: int| fail_in_turn(model.asked(), i, error);
        assert(model.asked()[i].sometimes_fails(error));
    }
}

/// A filter of one `must_not` condition passes exactly the points that do not meet it.
pub proof fn law_must_not_inverts<E>(model: FilterModel<E>, condition: Condition<E>)
    requires
        model.should.len() == 0,
        model.min_should_count == 0,
        model.must.len() == 0,
        model.must_not == seq![condition],
    ensures
        model.matching() == condition.matching.complement(),
{
    assert forall|p: PointOffsetType|
        model.matching().contains(p) <==> !condition.matching.contains(p) by {
        assert(model.must_not[0] == condition);
    }
    assert(model.matching() =~= condition.matching.complement());
}

/// `must_not` over some conditions passes exactly the points that `should` over them does not.
pub proof fn law_must_not_negates_should<E>(
    conditions: Seq<Condition<E>>,
    none: FilterModel<E>,
    any: FilterModel<E>,
)
    requires
        conditions.len() > 0,
        none.should.len() == 0,
        none.min_should_count == 0,
        none.must.len() == 0,
        none.must_not == conditions,
        any.should == conditions,
        any.min_should_count == 0,
        any.must.len() == 0,
        any.must_not.len() == 0,
    ensures
        none.matching() == any.matching().complement(),
{
    assert(none.matching() =~= any.matching().complement());
}

/// A count of zero asks nothing of `min_should`.
pub proof fn law_zero_count_is_met<E>(model: FilterModel<E>)
    requires
        model.min_should_count == 0,
    ensures
        model.matching() == model.meets_should().intersect(model.meets_must()).intersect(
            model.meets_must_not(),
        ),
{
    assert(model.matching() =~= model.meets_should().intersect(model.meets_must()).intersect(
        model.meets_must_not(),
    ));
}

/// A higher count passes no more points.
pub proof fn law_higher_count_passes_fewer<E>(model: FilterModel<E>, count: nat)
    requires
        model.min_should_count <= count,
    ensures
        (FilterModel { min_should_count: count, ..model }).matching().subset_of(model.matching()),
{
}

/// One more condition of `must` or of `must_not` passes no more points; one more of
/// `min_should`, or of a `should` that has some, no fewer.
pub proof fn law_one_more_condition<E>(model: FilterModel<E>, condition: Condition<E>)
    ensures
        (FilterModel { must: model.must.push(condition), ..model }).matching().subset_of(
            model.matching(),
        ),
        (FilterModel { must_not: model.must_not.push(condition), ..model }).matching().subset_of(
            model.matching(),
        ),
        model.matching().subset_of(
            (FilterModel { min_should: model.min_should.push(condition), ..model }).matching(),
        ),
        model.should.len() > 0 ==> model.matching().subset_of(
            (FilterModel { should: model.should.push(condition), ..model }).matching(),
        ),
{
    lemma_push(model.must, condition);
    lemma_push(model.must_not, condition);
    lemma_push(model.min_should, condition);
    lemma_push(model.should, condition);
}

/// One more condition narrows what all match, widens what any matches, and counts for no less.
proof fn lemma_push<E>(conditions: Seq<Condition<E>>, condition: Condition<E>)
    ensures
        matching_all(conditions.push(condition)).subset_of(matching_all(conditions)),
        matching_any(conditions).subset_of(matching_any(conditions.push(condition))),
        forall|p: PointOffsetType| #[trigger]
            match_count(conditions.push(condition), p) >= match_count(conditions, p),
{
    let more = conditions.push(condition);
    let i = conditions.len() as int;
    assert(more.take(i) =~= conditions);
    assert(more.take(i + 1) =~= more);
    lemma_one_more(more, i, Select::Match);
    assert forall|p: PointOffsetType| #[trigger] match_count(more, p) >= match_count(
        conditions,
        p,
    ) by {
        assert(side_count(more.take(i + 1), Select::Match, p) >= side_count(
            more.take(i),
            Select::Match,
            p,
        ));
    }
}

/// Fewer than `k` conditions match a point iff at least `len - k + 1` do not.
pub proof fn law_too_few_match<E>(conditions: Seq<Condition<E>>, k: nat, point: PointOffsetType)
    requires
        k <= conditions.len(),
    ensures
        match_count(conditions, point) < k <==> selected_by_at_least(
            conditions,
            Select::NonMatch,
            conditions.len() - k + 1,
        ).contains(point),
{
    lemma_two_sides(conditions, point);
}

/// A filter that asks for more conditions of `min_should` than there are passes no point.
pub proof fn law_unsatisfiable_min_should<E>(model: FilterModel<E>)
    requires
        model.min_should_count > model.min_should.len(),
    ensures
        model.matching() == Set::<PointOffsetType>::empty(),
{
    model.lemma_min_should_unmet();
    assert(model.matching() =~= Set::empty());
}

/// At least one of some conditions matches iff any does, and as many as there are iff all do.
pub proof fn law_count_between_any_and_all<E>(
    conditions: Seq<Condition<E>>,
    point: PointOffsetType,
)
    ensures
        match_count(conditions, point) >= 1 <==> matching_any(conditions).contains(point),
        match_count(conditions, point) == conditions.len() <==> matching_all(conditions).contains(
            point,
        ),
    decreases conditions.len(),
{
    lemma_two_sides(conditions, point);
    if conditions.len() > 0 {
        let others = conditions.drop_last();
        law_count_between_any_and_all(others, point);
        lemma_two_sides(others, point);
        let last = conditions.len() - 1;
        if matching_any(conditions).contains(point) {
            let i = choose|i: int|
                0 <= i < conditions.len() && (#[trigger] conditions[i]).matching.contains(point);
            if i < last {
                assert(others[i].matching.contains(point));
            }
        }
        if matching_any(others).contains(point) {
            let i = choose|i: int|
                0 <= i < others.len() && (#[trigger] others[i]).matching.contains(point);
            assert(conditions[i].matching.contains(point));
        }
        if matching_all(conditions).contains(point) {
            assert forall|i: int| 0 <= i < last implies (#[trigger] others[i]).matching.contains(
                point,
            ) by {
                assert(conditions[i].matching.contains(point));
            }
        }
        if matching_all(others).contains(point) && conditions[last].matching.contains(point) {
            assert forall|i: int| 0 <= i <= last implies (
            #[trigger] conditions[i]).matching.contains(point) by {
                if i < last {
                    assert(others[i].matching.contains(point));
                }
            }
        }
    }
}

} // verus!
