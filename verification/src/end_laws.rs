//! How checks of a filter end, put together from how checks of its conditions end.

use vstd::prelude::*;

use crate::condition_checker::{BatchCall, Condition, PointOffsetType, Rest, Select};
use crate::filter_model::{
    all_call, any_call, count_answer, count_call, count_fail, each_answers, fail_in_turn,
    lemma_any_grows, lemma_count_grows, matching_all, matching_any, side_count, FilterModel,
};

verus! {

/// The ways in which a check may end are told apart by what it ends with.
pub proof fn law_ends_have_names<E>(
    condition: Condition<E>,
    point: PointOffsetType,
    call: BatchCall,
    error: E,
)
    ensures
        condition.can_answer(point) <==> (condition.check_ends)(point).contains(Ok(())),
        condition.can_fail(point, error) <==> (condition.check_ends)(point).contains(Err(error)),
        condition.can_answer_batch(call) <==> (condition.batch_ends)(call).contains(Ok(())),
        condition.can_fail_batch(call, error) <==> (condition.batch_ends)(call).contains(
            Err(error),
        ),
        condition.sometimes_answers() <==> condition.batch_outcomes.contains(Ok(())),
        condition.sometimes_fails(error) <==> condition.batch_outcomes.contains(Err(error)),
{
}

/// What is known of how a batched check ends, whatever it was asked, is that it is one of the
/// outcomes. Where a checker never fails, no check of it ends in an error.
pub proof fn law_outcomes_have_names<E>(
    condition: Condition<E>,
    answer: Result<usize, E>,
    point: PointOffsetType,
    call: BatchCall,
    error: E,
)
    ensures
        condition.may_end(answer) && answer is Ok ==> condition.batch_outcomes.contains(Ok(())),
        condition.may_end(answer) && answer is Err ==> condition.batch_outcomes.contains(
            Err(answer->Err_0),
        ),
        condition.never_fails() ==> {
            &&& !(condition.check_ends)(point).contains(Err(error))
            &&& !(condition.batch_ends)(call).contains(Err(error))
            &&& !condition.batch_outcomes.contains(Err(error))
        },
{
    assert(condition.never_fails() ==> !condition.can_fail(point, error));
    assert(condition.never_fails() ==> !condition.can_fail_batch(call, error));
    assert(condition.never_fails() ==> !condition.sometimes_fails(error));
}

/// A filter of some conditions in `should` alone.
pub open spec fn only_should<E>(conditions: Seq<Condition<E>>) -> FilterModel<E> {
    FilterModel {
        should: conditions,
        min_should: Seq::empty(),
        min_should_count: 0,
        must: Seq::empty(),
        must_not: Seq::empty(),
    }
}

/// A filter of some conditions in `min_should` alone.
pub open spec fn only_min_should<E>(conditions: Seq<Condition<E>>, count: nat) -> FilterModel<E> {
    FilterModel {
        should: Seq::empty(),
        min_should: conditions,
        min_should_count: count,
        must: Seq::empty(),
        must_not: Seq::empty(),
    }
}

/// A filter of some conditions in `must` alone.
pub open spec fn only_must<E>(conditions: Seq<Condition<E>>) -> FilterModel<E> {
    FilterModel {
        should: Seq::empty(),
        min_should: Seq::empty(),
        min_should_count: 0,
        must: conditions,
        must_not: Seq::empty(),
    }
}

/// A filter of some conditions in `must_not` alone.
pub open spec fn only_must_not<E>(conditions: Seq<Condition<E>>) -> FilterModel<E> {
    FilterModel {
        should: Seq::empty(),
        min_should: Seq::empty(),
        min_should_count: 0,
        must: Seq::empty(),
        must_not: conditions,
    }
}

/// A check of one point takes the clauses in turn, `should`, `min_should`, `must`, `must_not`, as if
/// each were a filter by itself: the next is asked where all before it pass the point, and the first
/// error ends the check.
pub proof fn law_check_takes_clauses_in_turn<E>(
    model: FilterModel<E>,
    point: PointOffsetType,
    error: E,
)
    ensures
        ({
            let should = only_should(model.should).condition();
            let min_should = only_min_should(model.min_should, model.min_should_count).condition();
            let must = only_must(model.must).condition();
            let must_not = only_must_not(model.must_not).condition();
            let whole = model.condition();
            &&& whole.can_answer(point) <==> {
                &&& should.can_answer(point)
                &&& should.matching.contains(point) ==> {
                    &&& min_should.can_answer(point)
                    &&& min_should.matching.contains(point) ==> {
                        &&& must.can_answer(point)
                        &&& must.matching.contains(point) ==> must_not.can_answer(point)
                    }
                }
            }
            &&& whole.can_fail(point, error) <==> {
                ||| should.can_fail(point, error)
                ||| should.can_answer(point) && should.matching.contains(point) && {
                    ||| min_should.can_fail(point, error)
                    ||| min_should.can_answer(point) && min_should.matching.contains(point) && {
                        ||| must.can_fail(point, error)
                        ||| must.can_answer(point) && must.matching.contains(point)
                            && must_not.can_fail(point, error)
                    }
                }
            }
        }),
{
    let should = only_should(model.should);
    let min_should = only_min_should(model.min_should, model.min_should_count);
    let must = only_must(model.must);
    let must_not = only_must_not(model.must_not);
    assert(forall|i: int| #[trigger]
        model.asks_should(point, i) == should.asks_should(point, i));
    assert(forall|i: int| #[trigger]
        should.asks_should(point, i) == model.asks_should(point, i));
    assert(should.matching().contains(point) == model.meets_should().contains(point));
    assert(min_should.matching().contains(point) == model.meets_min_should().contains(point));
    assert(must.matching().contains(point) == model.meets_must().contains(point));
    if model.meets_should().contains(point) {
        assert(forall|i: int| #[trigger]
            model.asks_min_should(point, i) == min_should.asks_min_should(point, i));
        assert(forall|i: int| #[trigger]
            min_should.asks_min_should(point, i) == model.asks_min_should(point, i));
        if model.meets_min_should().contains(point) {
            assert(forall|i: int| #[trigger]
                model.asks_must(point, i) == must.asks_must(point, i));
            assert(forall|i: int| #[trigger]
                must.asks_must(point, i) == model.asks_must(point, i));
            if model.meets_must().contains(point) {
                assert(forall|i: int| #[trigger]
                    model.asks_must_not(point, i) == must_not.asks_must_not(point, i));
                assert(forall|i: int| #[trigger]
                    must_not.asks_must_not(point, i) == model.asks_must_not(point, i));
            }
        }
    }
}

/// One more condition in `should` is asked of a point after the others, where none of them matches.
pub proof fn law_check_asks_one_more_should<E>(
    conditions: Seq<Condition<E>>,
    next: Condition<E>,
    point: PointOffsetType,
    error: E,
)
    ensures
        ({
            let fewer = only_should(conditions).condition();
            let more = only_should(conditions.push(next)).condition();
            let asked = conditions.len() == 0 || !fewer.matching.contains(point);
            &&& more.can_answer(point) <==> fewer.can_answer(point) && (asked ==> next.can_answer(
                point,
            ))
            &&& more.can_fail(point, error) <==> fewer.can_fail(point, error) || (fewer.can_answer(
                point,
            ) && asked && next.can_fail(point, error))
        }),
{
    let fewer = only_should(conditions);
    let more = only_should(conditions.push(next));
    let n = conditions.len() as int;
    let all = conditions.push(next);
    assert(all.take(n) =~= conditions);
    assert(all[n] == next);
    assert forall|i: int| 0 <= i < n implies #[trigger] all.take(i) == conditions.take(i) && all[i]
        == conditions[i] by {
        assert(all.take(i) =~= conditions.take(i));
    }
    assert(conditions.take(n) =~= conditions);
    assert forall|i: int| i < n implies #[trigger] fewer.asks_should(point, i) == more.asks_should(
        point,
        i,
    ) by {
        if 0 <= i {
            assert(all.take(i) == conditions.take(i));
        }
    }
    assert forall|i: int| i < n implies #[trigger] more.asks_should(point, i) == fewer.asks_should(
        point,
        i,
    ) by {
        assert(fewer.asks_should(point, i) == more.asks_should(point, i));
    }
    assert(forall|i: int| i >= n ==> !(#[trigger] fewer.asks_should(point, i)));
    assert(forall|i: int| i > n ==> !(#[trigger] more.asks_should(point, i)));
    if more.asks_should(point, n) {
        assert forall|i: int| 0 <= i < n implies #[trigger] fewer.asks_should(point, i) by {
            if matching_any(conditions.take(i)).contains(point) {
                lemma_any_grows(conditions, i, n, point);
            }
        }
        if fewer.can_answer(point) {
            assert forall|i: int| 0 <= i < n implies (#[trigger] conditions[i]).can_answer(
                point,
            ) by {
                assert(fewer.asks_should(point, i));
            }
        }
        if each_answers(conditions, point) {
            assert(fewer.can_answer(point));
        }
    }
    if more.can_fail(point, error) {
        let i = choose|i: int| #[trigger]
            more.asks_should(point, i) && each_answers(all.take(i), point) && all[i].can_fail(
                point,
                error,
            );
        if i < n {
            assert(all.take(i) == conditions.take(i));
            assert(fewer.asks_should(point, i));
        }
    }
    if fewer.can_fail(point, error) {
        let i = choose|i: int| #[trigger]
            fewer.asks_should(point, i) && each_answers(conditions.take(i), point)
                && conditions[i].can_fail(point, error);
        assert(all.take(i) == conditions.take(i));
        assert(more.asks_should(point, i));
    }
}

/// One more condition in `min_should` is asked of a point after the others, where too few of them
/// match.
pub proof fn law_check_asks_one_more_min_should<E>(
    conditions: Seq<Condition<E>>,
    count: nat,
    next: Condition<E>,
    point: PointOffsetType,
    error: E,
)
    ensures
        ({
            let fewer = only_min_should(conditions, count).condition();
            let more = only_min_should(conditions.push(next), count).condition();
            let asked = !fewer.matching.contains(point);
            &&& more.can_answer(point) <==> fewer.can_answer(point) && (asked ==> next.can_answer(
                point,
            ))
            &&& more.can_fail(point, error) <==> fewer.can_fail(point, error) || (fewer.can_answer(
                point,
            ) && asked && next.can_fail(point, error))
        }),
{
    let fewer = only_min_should(conditions, count);
    let more = only_min_should(conditions.push(next), count);
    let n = conditions.len() as int;
    let all = conditions.push(next);
    assert(all.take(n) =~= conditions);
    assert(all[n] == next);
    assert forall|i: int| 0 <= i < n implies #[trigger] all.take(i) == conditions.take(i) && all[i]
        == conditions[i] by {
        assert(all.take(i) =~= conditions.take(i));
    }
    assert(conditions.take(n) =~= conditions);
    assert forall|i: int| i < n implies #[trigger] fewer.asks_min_should(point, i) == more.asks_min_should(
        point,
        i,
    ) by {
        if 0 <= i {
            assert(all.take(i) == conditions.take(i));
        }
    }
    assert forall|i: int| i < n implies #[trigger] more.asks_min_should(point, i) == fewer.asks_min_should(
        point,
        i,
    ) by {
        assert(fewer.asks_min_should(point, i) == more.asks_min_should(point, i));
    }
    assert(forall|i: int| i >= n ==> !(#[trigger] fewer.asks_min_should(point, i)));
    assert(forall|i: int| i > n ==> !(#[trigger] more.asks_min_should(point, i)));
    if more.asks_min_should(point, n) {
        assert forall|i: int| 0 <= i < n implies #[trigger] fewer.asks_min_should(point, i) by {
            lemma_count_grows(conditions, i, point);
        }
        if fewer.can_answer(point) {
            assert forall|i: int| 0 <= i < n implies (#[trigger] conditions[i]).can_answer(
                point,
            ) by {
                assert(fewer.asks_min_should(point, i));
            }
        }
        if each_answers(conditions, point) {
            assert(fewer.can_answer(point));
        }
    }
    if more.can_fail(point, error) {
        let i = choose|i: int| #[trigger]
            more.asks_min_should(point, i) && each_answers(all.take(i), point) && all[i].can_fail(
                point,
                error,
            );
        if i < n {
            assert(all.take(i) == conditions.take(i));
            assert(fewer.asks_min_should(point, i));
        }
    }
    if fewer.can_fail(point, error) {
        let i = choose|i: int| #[trigger]
            fewer.asks_min_should(point, i) && each_answers(conditions.take(i), point)
                && conditions[i].can_fail(point, error);
        assert(all.take(i) == conditions.take(i));
        assert(more.asks_min_should(point, i));
    }
}

/// One more condition in `must` is asked of a point after the others, where all of them match.
pub proof fn law_check_asks_one_more_must<E>(
    conditions: Seq<Condition<E>>,
    next: Condition<E>,
    point: PointOffsetType,
    error: E,
)
    ensures
        ({
            let fewer = only_must(conditions).condition();
            let more = only_must(conditions.push(next)).condition();
            let asked = fewer.matching.contains(point);
            &&& more.can_answer(point) <==> fewer.can_answer(point) && (asked ==> next.can_answer(
                point,
            ))
            &&& more.can_fail(point, error) <==> fewer.can_fail(point, error) || (fewer.can_answer(
                point,
            ) && asked && next.can_fail(point, error))
        }),
{
    let fewer = only_must(conditions);
    let more = only_must(conditions.push(next));
    let n = conditions.len() as int;
    let all = conditions.push(next);
    assert(all.take(n) =~= conditions);
    assert(all[n] == next);
    assert forall|i: int| 0 <= i < n implies #[trigger] all.take(i) == conditions.take(i) && all[i]
        == conditions[i] by {
        assert(all.take(i) =~= conditions.take(i));
    }
    assert(conditions.take(n) =~= conditions);
    assert forall|i: int| i < n implies #[trigger] fewer.asks_must(point, i) == more.asks_must(
        point,
        i,
    ) by {
        if 0 <= i {
            assert(all.take(i) == conditions.take(i));
        }
    }
    assert forall|i: int| i < n implies #[trigger] more.asks_must(point, i) == fewer.asks_must(
        point,
        i,
    ) by {
        assert(fewer.asks_must(point, i) == more.asks_must(point, i));
    }
    assert(forall|i: int| i >= n ==> !(#[trigger] fewer.asks_must(point, i)));
    assert(forall|i: int| i > n ==> !(#[trigger] more.asks_must(point, i)));
    if more.asks_must(point, n) {
        assert forall|i: int| 0 <= i < n implies #[trigger] fewer.asks_must(point, i) by {
            assert forall|j: int| 0 <= j < i implies (
            #[trigger] conditions.take(i)[j]).matching.contains(point) by {
                assert(conditions[j].matching.contains(point));
            }
        }
        if fewer.can_answer(point) {
            assert forall|i: int| 0 <= i < n implies (#[trigger] conditions[i]).can_answer(
                point,
            ) by {
                assert(fewer.asks_must(point, i));
            }
        }
        if each_answers(conditions, point) {
            assert(fewer.can_answer(point));
        }
    }
    if more.can_fail(point, error) {
        let i = choose|i: int| #[trigger]
            more.asks_must(point, i) && each_answers(all.take(i), point) && all[i].can_fail(
                point,
                error,
            );
        if i < n {
            assert(all.take(i) == conditions.take(i));
            assert(fewer.asks_must(point, i));
        }
    }
    if fewer.can_fail(point, error) {
        let i = choose|i: int| #[trigger]
            fewer.asks_must(point, i) && each_answers(conditions.take(i), point)
                && conditions[i].can_fail(point, error);
        assert(all.take(i) == conditions.take(i));
        assert(more.asks_must(point, i));
    }
}

/// One more condition in `must_not` is asked of a point after the others, where none of them
/// matches.
pub proof fn law_check_asks_one_more_must_not<E>(
    conditions: Seq<Condition<E>>,
    next: Condition<E>,
    point: PointOffsetType,
    error: E,
)
    ensures
        ({
            let fewer = only_must_not(conditions).condition();
            let more = only_must_not(conditions.push(next)).condition();
            let asked = fewer.matching.contains(point);
            &&& more.can_answer(point) <==> fewer.can_answer(point) && (asked ==> next.can_answer(
                point,
            ))
            &&& more.can_fail(point, error) <==> fewer.can_fail(point, error) || (fewer.can_answer(
                point,
            ) && asked && next.can_fail(point, error))
        }),
{
    let fewer = only_must_not(conditions);
    let more = only_must_not(conditions.push(next));
    let n = conditions.len() as int;
    let all = conditions.push(next);
    assert(all.take(n) =~= conditions);
    assert(all[n] == next);
    assert forall|i: int| 0 <= i < n implies #[trigger] all.take(i) == conditions.take(i) && all[i]
        == conditions[i] by {
        assert(all.take(i) =~= conditions.take(i));
    }
    assert(conditions.take(n) =~= conditions);
    assert forall|i: int| i < n implies #[trigger] fewer.asks_must_not(point, i) == more.asks_must_not(
        point,
        i,
    ) by {
        if 0 <= i {
            assert(all.take(i) == conditions.take(i));
        }
    }
    assert forall|i: int| i < n implies #[trigger] more.asks_must_not(point, i) == fewer.asks_must_not(
        point,
        i,
    ) by {
        assert(fewer.asks_must_not(point, i) == more.asks_must_not(point, i));
    }
    assert(forall|i: int| i >= n ==> !(#[trigger] fewer.asks_must_not(point, i)));
    assert(forall|i: int| i > n ==> !(#[trigger] more.asks_must_not(point, i)));
    if more.asks_must_not(point, n) {
        assert forall|i: int| 0 <= i < n implies #[trigger] fewer.asks_must_not(point, i) by {
            if matching_any(conditions.take(i)).contains(point) {
                lemma_any_grows(conditions, i, n, point);
            }
        }
        if fewer.can_answer(point) {
            assert forall|i: int| 0 <= i < n implies (#[trigger] conditions[i]).can_answer(
                point,
            ) by {
                assert(fewer.asks_must_not(point, i));
            }
        }
        if each_answers(conditions, point) {
            assert(fewer.can_answer(point));
        }
    }
    if more.can_fail(point, error) {
        let i = choose|i: int| #[trigger]
            more.asks_must_not(point, i) && each_answers(all.take(i), point) && all[i].can_fail(
                point,
                error,
            );
        if i < n {
            assert(all.take(i) == conditions.take(i));
            assert(fewer.asks_must_not(point, i));
        }
    }
    if fewer.can_fail(point, error) {
        let i = choose|i: int| #[trigger]
            fewer.asks_must_not(point, i) && each_answers(conditions.take(i), point)
                && conditions[i].can_fail(point, error);
        assert(all.take(i) == conditions.take(i));
        assert(more.asks_must_not(point, i));
    }
}

/// A batched check takes the clauses in turn, `must`, `must_not`, `should`, `min_should`, as if each
/// were a filter by itself: each is asked of the points that all before it pass, and the first error
/// ends the check.
pub proof fn law_batch_takes_clauses_in_turn<E>(
    model: FilterModel<E>,
    call: BatchCall,
    error: E,
)
    ensures
        ({
            let must = only_must(model.must).condition();
            let must_not = only_must_not(model.must_not).condition();
            let should = only_should(model.should).condition();
            let min_should = only_min_should(model.min_should, model.min_should_count).condition();
            let whole = model.condition();
            let second = BatchCall { points: call.points.intersect(must.matching), ..call };
            let third = BatchCall { points: second.points.intersect(must_not.matching), ..call };
            let fourth = BatchCall { points: third.points.intersect(should.matching), ..call };
            &&& whole.can_answer_batch(call) <==> {
                &&& must.can_answer_batch(call)
                &&& must_not.can_answer_batch(second)
                &&& should.can_answer_batch(third)
                &&& min_should.can_answer_batch(fourth)
            }
            &&& whole.can_fail_batch(call, error) <==> {
                ||| must.can_fail_batch(call, error)
                ||| must.can_answer_batch(call) && {
                    ||| must_not.can_fail_batch(second, error)
                    ||| must_not.can_answer_batch(second) && {
                        ||| should.can_fail_batch(third, error)
                        ||| should.can_answer_batch(third) && min_should.can_fail_batch(
                            fourth,
                            error,
                        )
                    }
                }
            }
        }),
{
    let must = only_must(model.must);
    let must_not = only_must_not(model.must_not);
    let should = only_should(model.should);
    let min_should = only_min_should(model.min_should, model.min_should_count);
    assert(must.matching() =~= model.meets_must());
    assert(must_not.matching() =~= model.meets_must_not());
    assert(should.matching() =~= model.meets_should());
    let second = BatchCall { points: call.points.intersect(model.meets_must()), ..call };
    let third = BatchCall { points: second.points.intersect(model.meets_must_not()), ..call };
    let fourth = BatchCall { points: third.points.intersect(model.meets_should()), ..call };
    assert(second.points.intersect(must_not.meets_must()) =~= second.points);
    assert(third.points =~= model.left_for_should(call.points));
    assert(should.left_for_should(third.points) =~= third.points);
    assert(fourth.points =~= model.left_for_min_should(call.points));
    assert(min_should.left_for_min_should(fourth.points) =~= fourth.points);
    assert(must.can_answer_batch(call) == model.must_answers_batch(call));
    assert(must_not.can_answer_batch(second) == model.must_not_answers_batch(call));
    assert(should.can_answer_batch(third) == model.should_answers_batch(call));
    assert(min_should.can_answer_batch(fourth) == model.min_should_answers_batch(call));
    let m = model.must.len() as int;
    let n = m + model.must_not.len();
    let o = n + model.should.len();
    assert(forall|i: int| #[trigger]
        must.fails_at(call, i, error) == model.must_fails_batch(call, i, error));
    assert(forall|i: int| #[trigger]
        must_not.fails_at(second, i, error) == model.must_not_fails_batch(call, i, error));
    assert(forall|i: int| #[trigger]
        should.fails_at(third, i, error) == model.should_fails_batch(call, i, error));
    assert(forall|i: int| #[trigger]
        min_should.fails_at(fourth, i, error) == model.min_should_fails_batch(call, i, error));
    if model.can_fail_batch(call, error) {
        let i = choose|i: int| model.fails_at(call, i, error);
        if i < m {
            assert(must.fails_at(call, i, error));
        } else if i < n {
            assert(must_not.fails_at(second, i - m, error));
        } else if i < o {
            assert(should.fails_at(third, i - n, error));
        } else {
            assert(min_should.fails_at(fourth, i - o, error));
        }
    }
    if must.can_fail_batch(call, error) {
        let i = choose|i: int| must.fails_at(call, i, error);
        assert(model.fails_at(call, i, error));
    }
    if must_not.can_fail_batch(second, error) && model.must_answers_batch(call) {
        let i = choose|i: int| must_not.fails_at(second, i, error);
        assert(model.fails_at(call, m + i, error));
    }
    if should.can_fail_batch(third, error) && model.must_answers_batch(call)
        && model.must_not_answers_batch(call) {
        let i = choose|i: int| should.fails_at(third, i, error);
        assert(model.fails_at(call, n + i, error));
    }
    if min_should.can_fail_batch(fourth, error) && model.must_answers_batch(call)
        && model.must_not_answers_batch(call) && model.should_answers_batch(call) {
        let i = choose|i: int| min_should.fails_at(fourth, i, error);
        assert(model.fails_at(call, o + i, error));
    }
}

/// One more condition in `must` is asked of the points that all others match.
pub proof fn law_batch_asks_one_more_must<E>(
    conditions: Seq<Condition<E>>,
    next: Condition<E>,
    call: BatchCall,
    error: E,
)
    ensures
        ({
            let fewer = only_must(conditions).condition();
            let more = only_must(conditions.push(next)).condition();
            let left = BatchCall {
                points: call.points.intersect(fewer.matching),
                select: call.select,
                rest: match call.select {
                    Select::Match => call.rest,
                    Select::NonMatch => Rest::Keep,
                },
            };
            &&& more.can_answer_batch(call) <==> fewer.can_answer_batch(call)
                && next.can_answer_batch(left)
            &&& more.can_fail_batch(call, error) <==> fewer.can_fail_batch(call, error) || (
            fewer.can_answer_batch(call) && next.can_fail_batch(left, error))
        }),
{
    let fewer = only_must(conditions);
    let more = only_must(conditions.push(next));
    let all = conditions.push(next);
    let n = conditions.len() as int;
    assert(all.take(n) =~= conditions);
    assert forall|i: int| 0 <= i < n implies #[trigger] all.take(i) == conditions.take(i) && all[i]
        == conditions[i] by {
        assert(all.take(i) =~= conditions.take(i));
    }
    let points = call.points;
    assert(fewer.matching() =~= matching_all(conditions));
    if call.select is Match {
        assert forall|i: int| 0 <= i < n implies #[trigger] all_call(
            points,
            all,
            Select::Match,
            call.rest,
            i,
        ) == all_call(points, conditions, Select::Match, call.rest, i) by {
            assert(all.take(i) == conditions.take(i));
        }
        assert forall|i: int| 0 <= i < n implies #[trigger] all_call(
            points,
            conditions,
            Select::Match,
            call.rest,
            i,
        ) == all_call(points, all, Select::Match, call.rest, i) by {
            assert(all.take(i) == conditions.take(i));
        }
        let last = all_call(points, all, Select::Match, call.rest, n);
        assert(last.points =~= points.intersect(fewer.matching()));
    } else {
        assert forall|i: int| 0 <= i < n implies #[trigger] any_call(
            points,
            all,
            Select::NonMatch,
            Rest::Keep,
            i,
        ) == any_call(points, conditions, Select::NonMatch, Rest::Keep, i) by {
            assert(all.take(i) == conditions.take(i));
        }
        assert forall|i: int| 0 <= i < n implies #[trigger] any_call(
            points,
            conditions,
            Select::NonMatch,
            Rest::Keep,
            i,
        ) == any_call(points, all, Select::NonMatch, Rest::Keep, i) by {
            assert(all.take(i) == conditions.take(i));
        }
        let last = any_call(points, all, Select::NonMatch, Rest::Keep, n);
        assert(last.points =~= points.intersect(fewer.matching()));
    }
    assert(forall|i: int| #[trigger]
        fewer.fails_at(call, i, error) == fewer.must_fails_batch(call, i, error));
    assert(forall|i: int| #[trigger]
        more.fails_at(call, i, error) == more.must_fails_batch(call, i, error));
    assert forall|i: int| 0 <= i < n implies fewer.must_fails_batch(call, i, error)
        == #[trigger] more.must_fails_batch(call, i, error) by {
        assert(all.take(i) == conditions.take(i));
    }
    if more.can_fail_batch(call, error) {
        let i = choose|i: int| more.fails_at(call, i, error);
        if i < n {
            assert(fewer.fails_at(call, i, error));
        }
    }
    if fewer.can_fail_batch(call, error) {
        let i = choose|i: int| fewer.fails_at(call, i, error);
        assert(more.must_fails_batch(call, i, error));
        assert(more.fails_at(call, i, error));
    }
    assert(more.fails_at(call, n, error) == more.must_fails_batch(call, n, error));
}

/// One more condition in `must_not` is asked of the points that no other matches.
pub proof fn law_batch_asks_one_more_must_not<E>(
    conditions: Seq<Condition<E>>,
    next: Condition<E>,
    call: BatchCall,
    error: E,
)
    ensures
        ({
            let fewer = only_must_not(conditions).condition();
            let more = only_must_not(conditions.push(next)).condition();
            let left = BatchCall {
                points: call.points.intersect(fewer.matching),
                select: match call.select {
                    Select::Match => Select::NonMatch,
                    Select::NonMatch => Select::Match,
                },
                rest: match call.select {
                    Select::Match => call.rest,
                    Select::NonMatch => Rest::Keep,
                },
            };
            &&& more.can_answer_batch(call) <==> fewer.can_answer_batch(call)
                && next.can_answer_batch(left)
            &&& more.can_fail_batch(call, error) <==> fewer.can_fail_batch(call, error) || (
            fewer.can_answer_batch(call) && next.can_fail_batch(left, error))
        }),
{
    let fewer = only_must_not(conditions);
    let more = only_must_not(conditions.push(next));
    let all = conditions.push(next);
    let n = conditions.len() as int;
    assert(all.take(n) =~= conditions);
    assert forall|i: int| 0 <= i < n implies #[trigger] all.take(i) == conditions.take(i) && all[i]
        == conditions[i] by {
        assert(all.take(i) =~= conditions.take(i));
    }
    let points = call.points;
    assert(fewer.matching() =~= matching_any(conditions).complement());
    assert(points.intersect(fewer.meets_must()) =~= points);
    assert(points.intersect(more.meets_must()) =~= points);
    if call.select is Match {
        assert forall|i: int| 0 <= i < n implies #[trigger] all_call(
            points,
            all,
            Select::NonMatch,
            call.rest,
            i,
        ) == all_call(points, conditions, Select::NonMatch, call.rest, i) by {
            assert(all.take(i) == conditions.take(i));
        }
        assert forall|i: int| 0 <= i < n implies #[trigger] all_call(
            points,
            conditions,
            Select::NonMatch,
            call.rest,
            i,
        ) == all_call(points, all, Select::NonMatch, call.rest, i) by {
            assert(all.take(i) == conditions.take(i));
        }
        let last = all_call(points, all, Select::NonMatch, call.rest, n);
        assert(last.points =~= points.intersect(fewer.matching()));
    } else {
        assert forall|i: int| 0 <= i < n implies #[trigger] any_call(
            points,
            all,
            Select::Match,
            Rest::Keep,
            i,
        ) == any_call(points, conditions, Select::Match, Rest::Keep, i) by {
            assert(all.take(i) == conditions.take(i));
        }
        assert forall|i: int| 0 <= i < n implies #[trigger] any_call(
            points,
            conditions,
            Select::Match,
            Rest::Keep,
            i,
        ) == any_call(points, all, Select::Match, Rest::Keep, i) by {
            assert(all.take(i) == conditions.take(i));
        }
        let last = any_call(points, all, Select::Match, Rest::Keep, n);
        assert(last.points =~= points.intersect(fewer.matching()));
    }
    assert(forall|i: int| #[trigger]
        fewer.fails_at(call, i, error) == fewer.must_not_fails_batch(call, i, error));
    assert(forall|i: int| #[trigger]
        more.fails_at(call, i, error) == more.must_not_fails_batch(call, i, error));
    assert forall|i: int| 0 <= i < n implies fewer.must_not_fails_batch(call, i, error)
        == #[trigger] more.must_not_fails_batch(call, i, error) by {
        assert(all.take(i) == conditions.take(i));
    }
    if more.can_fail_batch(call, error) {
        let i = choose|i: int| more.fails_at(call, i, error);
        if i < n {
            assert(fewer.fails_at(call, i, error));
        }
    }
    if fewer.can_fail_batch(call, error) {
        let i = choose|i: int| fewer.fails_at(call, i, error);
        assert(more.must_not_fails_batch(call, i, error));
        assert(more.fails_at(call, i, error));
    }
    assert(more.fails_at(call, n, error) == more.must_not_fails_batch(call, n, error));
}

/// One more condition in `should` is asked of the points that no other matches, which the others
/// keep for it.
pub proof fn law_batch_asks_one_more_should<E>(
    conditions: Seq<Condition<E>>,
    next: Condition<E>,
    call: BatchCall,
    error: E,
)
    ensures
        ({
            let fewer = only_should(conditions).condition();
            let more = only_should(conditions.push(next)).condition();
            let left = BatchCall {
                points: if conditions.len() == 0 {
                    call.points
                } else {
                    call.points.difference(fewer.matching)
                },
                select: call.select,
                rest: match call.select {
                    Select::Match => call.rest,
                    Select::NonMatch => Rest::Keep,
                },
            };
            let first = BatchCall { rest: Rest::Keep, ..call };
            &&& more.can_answer_batch(call) <==> fewer.can_answer_batch(first)
                && next.can_answer_batch(left)
            &&& more.can_fail_batch(call, error) <==> fewer.can_fail_batch(first, error) || (
            fewer.can_answer_batch(first) && next.can_fail_batch(left, error))
        }),
{
    let fewer = only_should(conditions);
    let more = only_should(conditions.push(next));
    let all = conditions.push(next);
    let n = conditions.len() as int;
    let first = BatchCall { rest: Rest::Keep, ..call };
    assert(all.take(n) =~= conditions);
    assert forall|i: int| 0 <= i < n implies #[trigger] all.take(i) == conditions.take(i) && all[i]
        == conditions[i] by {
        assert(all.take(i) =~= conditions.take(i));
    }
    let points = call.points;
    if n > 0 {
        assert(fewer.matching() =~= matching_any(conditions));
    }
    assert(fewer.left_for_should(points) =~= points);
    assert(more.left_for_should(points) =~= points);
    if call.select is Match {
        assert forall|i: int| 0 <= i < n implies #[trigger] any_call(
            points,
            all,
            Select::Match,
            call.rest,
            i,
        ) == any_call(points, conditions, Select::Match, Rest::Keep, i) by {
            assert(all.take(i) == conditions.take(i));
        }
        assert forall|i: int| 0 <= i < n implies #[trigger] any_call(
            points,
            conditions,
            Select::Match,
            Rest::Keep,
            i,
        ) == any_call(points, all, Select::Match, call.rest, i) by {
            assert(all.take(i) == conditions.take(i));
        }
        let last = any_call(points, all, Select::Match, call.rest, n);
        assert(last.points =~= (if n == 0 { points } else { points.difference(fewer.matching()) }));
    } else {
        assert forall|i: int| 0 <= i < n implies #[trigger] all_call(
            points,
            all,
            Select::NonMatch,
            Rest::Keep,
            i,
        ) == all_call(points, conditions, Select::NonMatch, Rest::Keep, i) by {
            assert(all.take(i) == conditions.take(i));
        }
        assert forall|i: int| 0 <= i < n implies #[trigger] all_call(
            points,
            conditions,
            Select::NonMatch,
            Rest::Keep,
            i,
        ) == all_call(points, all, Select::NonMatch, Rest::Keep, i) by {
            assert(all.take(i) == conditions.take(i));
        }
        let last = all_call(points, all, Select::NonMatch, Rest::Keep, n);
        assert(last.points =~= (if n == 0 { points } else { points.difference(fewer.matching()) }));
    }
    assert(forall|i: int| #[trigger]
        fewer.fails_at(first, i, error) == fewer.should_fails_batch(first, i, error));
    assert(forall|i: int| #[trigger]
        more.fails_at(call, i, error) == more.should_fails_batch(call, i, error));
    assert forall|i: int| 0 <= i < n implies fewer.should_fails_batch(first, i, error)
        == #[trigger] more.should_fails_batch(call, i, error) by {
        assert(all.take(i) == conditions.take(i));
    }
    if more.can_fail_batch(call, error) {
        let i = choose|i: int| more.fails_at(call, i, error);
        if i < n {
            assert(fewer.fails_at(first, i, error));
        }
    }
    if fewer.can_fail_batch(first, error) {
        let i = choose|i: int| fewer.fails_at(first, i, error);
        assert(more.should_fails_batch(call, i, error));
        assert(more.fails_at(call, i, error));
    }
    assert(more.fails_at(call, n, error) == more.should_fails_batch(call, n, error));
}

/// How many conditions put a point on a side is the number of places at which one does.
pub(crate) proof fn lemma_side_is_size<E>(
    conditions: Seq<Condition<E>>,
    select: Select,
    point: PointOffsetType,
)
    ensures
        Set::new(
            |i: int|
                0 <= i < conditions.len() && conditions[i].matching.contains(point) == (
                select is Match),
        ).finite(),
        side_count(conditions, select, point) == Set::new(
            |i: int|
                0 <= i < conditions.len() && conditions[i].matching.contains(point) == (
                select is Match),
        ).len(),
    decreases conditions.len(),
{
    let put = Set::new(
        |i: int|
            0 <= i < conditions.len() && conditions[i].matching.contains(point) == (
            select is Match),
    );
    if conditions.len() == 0 {
        assert(put =~= Set::empty());
    } else {
        let others = conditions.drop_last();
        let last = conditions.len() - 1;
        let fewer = Set::new(
            |i: int|
                0 <= i < others.len() && others[i].matching.contains(point) == (select is Match),
        );
        lemma_side_is_size(others, select, point);
        if conditions[last].matching.contains(point) == (select is Match) {
            assert(put =~= fewer.insert(last));
        } else {
            assert(put =~= fewer);
        }
    }
}

/// A batched check by `min_should` selects the points that at least `wanted` conditions put on the
/// selected side. It asks each condition `wanted` times in turn, in call `b` of the points that all
/// but `b + 1` of the wanted ones have put there so far. It asks nothing where no condition has to
/// match, or more than there are.
pub proof fn law_batch_counts_min_should<E>(
    conditions: Seq<Condition<E>>,
    count: nat,
    wanted: int,
    slot: spec_fn(int, int) -> BatchCall,
    call: BatchCall,
    error: E,
)
    requires
        call.select is Match ==> wanted == count,
        call.select is NonMatch ==> wanted == conditions.len() - count + 1,
        forall|i: int, b: int| #[trigger]
            slot(i, b) == (BatchCall {
                points: Set::new(
                    |p: PointOffsetType|
                        call.points.contains(p) && Set::new(
                            |j: int|
                                0 <= j < i && conditions[j].matching.contains(p) == (
                                call.select is Match),
                        ).len() == wanted - 1 - b,
                ),
                select: call.select,
                rest: Rest::Keep,
            }),
    ensures
        count == 0 || count > conditions.len() ==> {
            let whole = only_min_should(conditions, count).condition();
            whole.can_answer_batch(call) && !whole.can_fail_batch(call, error)
        },
        0 < count <= conditions.len() ==> (only_min_should(
            conditions,
            count,
        ).condition().can_answer_batch(call) <==> forall|i: int, b: int|
            0 <= i < conditions.len() && 0 <= b < wanted ==> conditions[i].can_answer_batch(
                #[trigger] slot(i, b),
            )),
        0 < count <= conditions.len() ==> (only_min_should(
            conditions,
            count,
        ).condition().can_fail_batch(call, error) <==> exists|i: int, b: int|
            0 <= i < conditions.len() && 0 <= b < wanted && conditions[i].can_fail_batch(
                #[trigger] slot(i, b),
                error,
            ) && forall|j: int, c: int|
                0 <= j <= i && 0 <= c < wanted && (j < i || c < b)
                    ==> conditions[j].can_answer_batch(#[trigger] slot(j, c))),
{
    let whole = only_min_should(conditions, count);
    assert(whole.left_for_min_should(call.points) =~= call.points);
    assert forall|i: int, b: int| 0 <= i < conditions.len() implies #[trigger] slot(i, b)
        == count_call(call.points, conditions, call.select, wanted, i, b) by {
        let asked = count_call(call.points, conditions, call.select, wanted, i, b);
        assert forall|p: PointOffsetType|
            slot(i, b).points.contains(p) == asked.points.contains(p) by {
            lemma_side_is_size(conditions.take(i), call.select, p);
            assert(Set::new(
                |j: int|
                    0 <= j < i && conditions[j].matching.contains(p) == (call.select is Match),
            ) =~= Set::new(
                |j: int|
                    0 <= j < conditions.take(i).len() && conditions.take(i)[j].matching.contains(p)
                        == (call.select is Match),
            ));
        }
        assert(slot(i, b).points =~= asked.points);
    }
    assert forall|i: int, b: int| 0 <= i < conditions.len() implies #[trigger] count_call(
        call.points,
        conditions,
        call.select,
        wanted,
        i,
        b,
    ) == slot(i, b) by {
        assert(slot(i, b) == count_call(call.points, conditions, call.select, wanted, i, b));
    }
    if 0 < count <= conditions.len() {
        let n = conditions.len() as int;
        assert(whole.can_answer_batch(call) <==> count_answer(
            call.points,
            conditions,
            call.select,
            wanted,
            n,
            0,
        ));
        assert(forall|i: int| #[trigger]
            whole.fails_at(call, i, error) == whole.min_should_fails_batch(call, i, error));
        if whole.can_fail_batch(call, error) {
            let i = choose|i: int| whole.fails_at(call, i, error);
            let b = choose|b: int|
                0 <= b < wanted && count_answer(
                    call.points,
                    conditions,
                    call.select,
                    wanted,
                    i,
                    b,
                ) && conditions[i].can_fail_batch(
                    #[trigger] count_call(call.points, conditions, call.select, wanted, i, b),
                    error,
                );
            assert(conditions[i].can_fail_batch(slot(i, b), error));
        }
        if exists|i: int, b: int|
            0 <= i < n && 0 <= b < wanted && conditions[i].can_fail_batch(
                #[trigger] slot(i, b),
                error,
            ) && forall|j: int, c: int|
                0 <= j <= i && 0 <= c < wanted && (j < i || c < b)
                    ==> conditions[j].can_answer_batch(#[trigger] slot(j, c)) {
            let (i, b) = choose|i: int, b: int|
                0 <= i < n && 0 <= b < wanted && conditions[i].can_fail_batch(
                    #[trigger] slot(i, b),
                    error,
                ) && forall|j: int, c: int|
                    0 <= j <= i && 0 <= c < wanted && (j < i || c < b)
                        ==> conditions[j].can_answer_batch(#[trigger] slot(j, c));
            assert(count_answer(call.points, conditions, call.select, wanted, i, b));
            assert(count_fail(call.points, conditions, call.select, wanted, i, error));
            assert(whole.fails_at(call, i, error));
        }
    }
}

/// Whatever a filter is asked, a batched check of it may come to an answer iff each condition that
/// it asks answers some batched checks, and may end in an error iff a condition may and all asked
/// before it answer some. `min_should` is asked where some of its conditions have to match and not
/// more than there are.
pub proof fn law_outcomes_of_filter<E>(
    model: FilterModel<E>,
    asked: Seq<Condition<E>>,
    error: E,
)
    requires
        0 < model.min_should_count <= model.min_should.len() ==> asked == model.must
            + model.must_not + model.should + model.min_should,
        model.min_should_count == 0 || model.min_should_count > model.min_should.len() ==> asked
            == model.must + model.must_not + model.should,
    ensures
        model.asked() == asked,
        model.condition().sometimes_answers() <==> forall|i: int|
            0 <= i < asked.len() ==> (#[trigger] asked[i]).sometimes_answers(),
        model.condition().sometimes_fails(error) <==> exists|i: int|
            0 <= i < asked.len() && (#[trigger] asked[i]).sometimes_fails(error) && forall|j: int|
                0 <= j < i ==> (#[trigger] asked[j]).sometimes_answers(),
{
    assert(model.asked() =~= asked);
    if exists|i: int|
        0 <= i < asked.len() && (#[trigger] asked[i]).sometimes_fails(error) && forall|j: int|
            0 <= j < i ==> (#[trigger] asked[j]).sometimes_answers() {
        let i = choose|i: int|
            0 <= i < asked.len() && (#[trigger] asked[i]).sometimes_fails(error) && forall|j: int|
                0 <= j < i ==> (#[trigger] asked[j]).sometimes_answers();
        assert(fail_in_turn(asked, i, error));
    }
}

} // verus!
