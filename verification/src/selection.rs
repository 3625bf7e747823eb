//! Searches of a batch for the items that checkers select.

use vstd::prelude::*;
use vstd::seq_lib::{lemma_multiset_commutative, to_multiset_len};

use crate::condition_checker::{
    items_on, points_of, CheckItem, ConditionChecker, PointOffsetType, Rest, Select,
};
use crate::counting::{bounds_at_least, lemma_all_bound_zero, lemma_slot, lemma_slot_step};
use crate::filter_model::{
    all_answer, all_call, all_fail, answer_in_turn, any_answer, any_call, any_fail, count_answer,
    count_call, count_fail, lemma_one_more, same_outcomes, selected_by_all,
    selected_by_any, selected_by_at_least, selected_by_exactly,
};
use crate::optimized_filter::{
    conditions_of, lemma_outcomes_update, lemma_tallest, lemma_tallest_update, stops_at,
    tallest, ConditionCheckerEnum,
};
use crate::partition::{
    lemma_cut, lemma_narrow, lemma_pick_again, lemma_pick_either, lemma_points_of_picked,
    lemma_rest_of_picked, lemma_splice, window,
};

verus! {

/// Has the items of `ids` from `lo` up to `hi` checked, and leaves the others as they are.
pub(crate) fn check_window<L: ConditionChecker, K: CheckItem>(
    checker: &mut ConditionCheckerEnum<L>,
    ids: &mut [K],
    lo: usize,
    hi: usize,
    select: Select,
    rest: Rest,
) -> (answer: Result<usize, L::Error>)
    requires
        lo <= hi <= old(ids)@.len(),
    ensures
        final(checker).height() == old(checker).height(),
        final(ids)@.len() == old(ids)@.len(),
        final(ids)@ == old(ids)@.take(lo as int) + final(ids)@.subrange(lo as int, hi as int)
            + old(ids)@.skip(hi as int),
        answer matches Ok(n) ==> n <= hi - lo,
        old(checker).condition().may_end(answer),
        final(checker).condition().batch_outcomes == old(checker).condition().batch_outcomes,
        L::obeys_partition() ==> final(checker).condition() == old(checker).condition(),
        L::obeys_partition() ==> old(checker).condition().may_partition(
            old(ids)@.subrange(lo as int, hi as int),
            final(ids)@.subrange(lo as int, hi as int),
            select,
            rest,
            answer,
        ),
    decreases old(checker).height(), 4nat,
{
    let part = window(ids, lo, hi);
    let answer: Result<usize, L::Error> = checker.check_batched(part, select, rest);
    let ghost changed = part@;
    assert(ids@.subrange(lo as int, hi as int) =~= changed);
    answer
}

/// A search for what all `checkers` select, which are left as `after`, ended in `error`.
pub open spec fn all_stopped<L: ConditionChecker>(
    checkers: Seq<ConditionCheckerEnum<L>>,
    after: Seq<ConditionCheckerEnum<L>>,
    points: Set<PointOffsetType>,
    select: Select,
    rest: Rest,
    error: L::Error,
) -> bool {
    exists|i: int| #[trigger]
        stops_at(checkers, after, i, error) && (L::obeys_partition() ==> all_fail(
            points,
            conditions_of(checkers),
            select,
            rest,
            i,
            error,
        ))
}

/// Moves the items that every checker selects to the front of `ids` and returns how many they
/// are. Each checker is asked of the items that all before it selected.
pub(crate) fn select_by_all<L: ConditionChecker, K: CheckItem>(
    checkers: &mut Vec<ConditionCheckerEnum<L>>,
    ids: &mut [K],
    select: Select,
    rest: Rest,
) -> (answer: Result<usize, L::Error>)
    ensures
        final(checkers)@.len() == old(checkers)@.len(),
        tallest(final(checkers)@) == tallest(old(checkers)@),
        final(ids)@.len() == old(ids)@.len(),
        answer matches Ok(n) ==> n <= final(ids)@.len(),
        old(checkers)@.len() == 0 ==> {
            &&& final(ids)@ == old(ids)@
            &&& answer matches Ok(n) && n == old(ids)@.len()
        },
        same_outcomes(conditions_of(final(checkers)@), conditions_of(old(checkers)@)),
        answer is Ok ==> answer_in_turn(
            conditions_of(old(checkers)@),
            old(checkers)@.len() as int,
        ),
        answer matches Err(error) ==> all_stopped(
            old(checkers)@,
            final(checkers)@,
            points_of(old(ids)@),
            select,
            rest,
            error,
        ),
        L::obeys_partition() ==> conditions_of(final(checkers)@) == conditions_of(old(checkers)@),
        L::obeys_partition() ==> match answer {
            Ok(n) => {
                &&& all_answer(
                    points_of(old(ids)@),
                    conditions_of(old(checkers)@),
                    select,
                    rest,
                    old(checkers)@.len() as int,
                )
                &&& final(ids)@.take(n as int).to_multiset() == items_on(
                    old(ids)@,
                    selected_by_all(conditions_of(old(checkers)@), select),
                )
                &&& rest is Keep ==> final(ids)@.to_multiset() == old(ids)@.to_multiset()
            },
            Err(_) => true,
        },
    decreases tallest(old(checkers)@), 5nat,
{
    let ghost conditions = conditions_of(checkers@);
    let ghost before = ids@;
    let ghost depth = tallest(checkers@);
    let mut hi: usize = ids.len();
    let mut i: usize = 0;
    proof {
        assert(before.take(hi as int) =~= before);
        assert(before.to_multiset() =~= items_on(
            before,
            selected_by_all(conditions.take(0), select),
        ));
    }
    while i < checkers.len()
        invariant
            i <= checkers@.len(),
            hi <= ids@.len(),
            ids@.len() == before.len(),
            conditions == conditions_of(old(checkers)@),
            checkers@.len() == old(checkers)@.len(),
            conditions.len() == checkers@.len(),
            forall|k: int| i <= k < checkers@.len() ==> #[trigger] checkers@[k] == old(checkers)@[k],
            same_outcomes(conditions_of(checkers@), conditions),
            answer_in_turn(conditions, i as int),
            L::obeys_partition() ==> conditions == conditions_of(checkers@),
            before == old(ids)@,
            depth == tallest(old(checkers)@),
            depth == tallest(checkers@),
            i == 0 ==> ids@ == before && hi == before.len(),
            L::obeys_partition() ==> {
                &&& ids@.take(hi as int).to_multiset() == items_on(
                    before,
                    selected_by_all(conditions.take(i as int), select),
                )
                &&& rest is Keep ==> ids@.to_multiset() == before.to_multiset()
                &&& all_answer(points_of(before), conditions, select, rest, i as int)
            },
        decreases checkers@.len() - i,
    {
        let ghost current = ids@;
        let ghost checkers_before = checkers@;
        let ghost picked = selected_by_all(conditions.take(i as int), select);
        proof {
            lemma_tallest(checkers@, i as int);
            if L::obeys_partition() {
                lemma_points_of_picked(current.take(hi as int), before, picked);
                assert(current.subrange(0, hi as int) =~= current.take(hi as int));
                let call = all_call(points_of(before), conditions, select, rest, i as int);
                assert(call.points == points_of(current.subrange(0, hi as int)));
                assert(checkers@[i as int].condition() == conditions[i as int]);
            }
        }
        let answer: Result<usize, L::Error> = check_window(
            &mut checkers[i],
            ids,
            0,
            hi,
            select,
            rest,
        );
        proof {
            if L::obeys_partition() {
                assert(conditions_of(checkers@) =~= conditions);
            }
            lemma_tallest_update(checkers_before, checkers@);
            lemma_outcomes_update(checkers_before, checkers@, conditions, i as int);
        }
        match answer {
            Ok(n) => {
                proof {
                    if L::obeys_partition() {
                        lemma_one_more(conditions, i as int, select);
                        lemma_narrow(
                            current,
                            ids@.subrange(0, hi as int),
                            ids@,
                            hi as int,
                            n as int,
                            before,
                            picked,
                            select.side(conditions[i as int].matching),
                        );
                    }
                }
                hi = n;
            },
            Err(error) => {
                assert(stops_at(old(checkers)@, checkers@, i as int, error));
                return Err(error);
            },
        }
        i = i + 1;
    }
    assert(conditions.take(i as int) =~= conditions);
    Ok(hi)
}

/// A search for what any of `checkers` selects, which are left as `after`, ended in `error`.
pub open spec fn any_stopped<L: ConditionChecker>(
    checkers: Seq<ConditionCheckerEnum<L>>,
    after: Seq<ConditionCheckerEnum<L>>,
    points: Set<PointOffsetType>,
    select: Select,
    rest: Rest,
    error: L::Error,
) -> bool {
    exists|i: int| #[trigger]
        stops_at(checkers, after, i, error) && (L::obeys_partition() ==> any_fail(
            points,
            conditions_of(checkers),
            select,
            rest,
            i,
            error,
        ))
}

/// Moves the items that at least one checker selects to the front of `ids` and returns how many
/// they are. Each checker is asked of the items that none before it selected; all but the last
/// keep those that they do not select for the next.
pub(crate) fn select_by_any<L: ConditionChecker, K: CheckItem>(
    checkers: &mut Vec<ConditionCheckerEnum<L>>,
    ids: &mut [K],
    select: Select,
    rest: Rest,
) -> (answer: Result<usize, L::Error>)
    ensures
        final(checkers)@.len() == old(checkers)@.len(),
        tallest(final(checkers)@) == tallest(old(checkers)@),
        final(ids)@.len() == old(ids)@.len(),
        answer matches Ok(n) ==> n <= final(ids)@.len(),
        old(checkers)@.len() == 0 ==> {
            &&& final(ids)@ == old(ids)@
            &&& answer matches Ok(n) && n == 0
        },
        same_outcomes(conditions_of(final(checkers)@), conditions_of(old(checkers)@)),
        answer is Ok ==> answer_in_turn(
            conditions_of(old(checkers)@),
            old(checkers)@.len() as int,
        ),
        answer matches Err(error) ==> any_stopped(
            old(checkers)@,
            final(checkers)@,
            points_of(old(ids)@),
            select,
            rest,
            error,
        ),
        L::obeys_partition() ==> conditions_of(final(checkers)@) == conditions_of(old(checkers)@),
        L::obeys_partition() ==> match answer {
            Ok(n) => {
                &&& any_answer(
                    points_of(old(ids)@),
                    conditions_of(old(checkers)@),
                    select,
                    rest,
                    old(checkers)@.len() as int,
                )
                &&& final(ids)@.take(n as int).to_multiset() == items_on(
                    old(ids)@,
                    selected_by_any(conditions_of(old(checkers)@), select),
                )
                &&& rest is Keep ==> final(ids)@.to_multiset() == old(ids)@.to_multiset()
            },
            Err(_) => true,
        },
    decreases tallest(old(checkers)@), 5nat,
{
    let ghost conditions = conditions_of(checkers@);
    let ghost before = ids@;
    let ghost depth = tallest(checkers@);
    let len: usize = ids.len();
    let mut matched: usize = 0;
    let mut i: usize = 0;
    proof {
        to_multiset_len(before.take(0));
        assert(before.skip(0) =~= before);
        assert(before.take(0).to_multiset() =~= items_on(
            before,
            selected_by_any(conditions.take(0), select),
        ));
        assert(before.to_multiset() =~= items_on(
            before,
            selected_by_any(conditions.take(0), select).complement(),
        ));
    }
    while i < checkers.len()
        invariant
            i <= checkers@.len(),
            matched <= len,
            ids@.len() == len,
            before.len() == len,
            conditions == conditions_of(old(checkers)@),
            checkers@.len() == old(checkers)@.len(),
            conditions.len() == checkers@.len(),
            forall|k: int| i <= k < checkers@.len() ==> #[trigger] checkers@[k] == old(checkers)@[k],
            same_outcomes(conditions_of(checkers@), conditions),
            answer_in_turn(conditions, i as int),
            L::obeys_partition() ==> conditions == conditions_of(checkers@),
            before == old(ids)@,
            depth == tallest(old(checkers)@),
            depth == tallest(checkers@),
            i == 0 ==> ids@ == before && matched == 0,
            L::obeys_partition() ==> {
                let picked = selected_by_any(conditions.take(i as int), select);
                &&& ids@.take(matched as int).to_multiset() == items_on(before, picked)
                &&& i < checkers@.len() || rest is Keep ==> ids@.skip(
                    matched as int,
                ).to_multiset() == items_on(before, picked.complement())
                &&& any_answer(points_of(before), conditions, select, rest, i as int)
            },
        decreases checkers@.len() - i,
    {
        let ghost current = ids@;
        let ghost checkers_before = checkers@;
        let ghost picked = selected_by_any(conditions.take(i as int), select);
        let ghost side = select.side(conditions[i as int].matching);
        proof {
            lemma_tallest(checkers@, i as int);
            if L::obeys_partition() {
                let part = current.subrange(matched as int, len as int);
                lemma_points_of_picked(current.skip(matched as int), before, picked.complement());
                assert(part =~= current.skip(matched as int));
                assert(points_of(before).intersect(picked.complement()) =~= points_of(
                    before,
                ).difference(picked));
                let call = any_call(points_of(before), conditions, select, rest, i as int);
                assert(call.points == points_of(part));
                assert(checkers@[i as int].condition() == conditions[i as int]);
            }
        }
        let checker_rest: Rest = if i != checkers.len() - 1 {
            Rest::Keep
        } else {
            rest
        };
        let answer: Result<usize, L::Error> = check_window(
            &mut checkers[i],
            ids,
            matched,
            len,
            select,
            checker_rest,
        );
        proof {
            if L::obeys_partition() {
                assert(conditions_of(checkers@) =~= conditions);
            }
            lemma_tallest_update(checkers_before, checkers@);
            lemma_outcomes_update(checkers_before, checkers@, conditions, i as int);
        }
        match answer {
            Ok(n) => {
                proof {
                    if L::obeys_partition() {
                        let part = ids@.subrange(matched as int, len as int);
                        lemma_splice(current, part, ids@, matched as int, len as int);
                        lemma_one_more(conditions, i as int, select);
                        lemma_pick_again(
                            current.skip(matched as int),
                            before,
                            picked.complement(),
                            side,
                        );
                        lemma_pick_either(before, picked, picked.complement().intersect(side));
                        assert(picked.union(picked.complement().intersect(side)) =~= picked.union(
                            side,
                        ));
                        assert(ids@.take(matched + n) == current.take(matched as int) + part.take(
                            n as int,
                        ));
                        lemma_multiset_commutative(current.take(matched as int), part.take(n as int));
                        if checker_rest is Keep {
                            lemma_rest_of_picked(part, n as int, before, picked.complement(), side);
                            assert(ids@.skip(matched + n) =~= part.skip(n as int));
                            assert(picked.complement().difference(side) =~= picked.union(
                                side,
                            ).complement());
                        }
                    }
                }
                matched = matched + n;
            },
            Err(error) => {
                assert(stops_at(old(checkers)@, checkers@, i as int, error));
                return Err(error);
            },
        }
        i = i + 1;
    }
    proof {
        assert(conditions.take(i as int) =~= conditions);
        if L::obeys_partition() && rest is Keep {
            lemma_cut(ids@, matched as int);
            assert(ids@.to_multiset() =~= before.to_multiset());
        }
    }
    Ok(matched)
}

/// A count of the `checkers` that select an item, which are left as `after`, ended in `error`.
pub open spec fn count_stopped<L: ConditionChecker>(
    checkers: Seq<ConditionCheckerEnum<L>>,
    after: Seq<ConditionCheckerEnum<L>>,
    points: Set<PointOffsetType>,
    select: Select,
    threshold: int,
    error: L::Error,
) -> bool {
    exists|i: int| #[trigger]
        stops_at(checkers, after, i, error) && (L::obeys_partition() ==> count_fail(
            points,
            conditions_of(checkers),
            select,
            threshold,
            i,
            error,
        ))
}

/// Sorts `ids` by how many checkers select an item, up to `threshold`, the most selected first.
/// Leaves in `scratch[i]` how many items at least `threshold - i` checkers select.
pub(crate) fn counting_sort<L: ConditionChecker, K: CheckItem>(
    checkers: &mut Vec<ConditionCheckerEnum<L>>,
    ids: &mut [K],
    threshold: usize,
    select: Select,
    scratch: &mut Vec<usize>,
) -> (answer: Result<(), L::Error>)
    ensures
        final(checkers)@.len() == old(checkers)@.len(),
        tallest(final(checkers)@) == tallest(old(checkers)@),
        final(ids)@.len() == old(ids)@.len(),
        final(scratch)@.len() == threshold,
        forall|s: int|
            0 <= s < threshold ==> #[trigger] final(scratch)@[s] <= final(ids)@.len(),
        forall|s: int, r: int|
            0 <= s <= r < threshold ==> final(scratch)@[s] <= final(scratch)@[r],
        threshold == 0 ==> final(checkers)@ == old(checkers)@,
        threshold == 0 || old(checkers)@.len() == 0 ==> {
            &&& answer is Ok
            &&& final(ids)@ == old(ids)@
            &&& forall|s: int| 0 <= s < threshold ==> #[trigger] final(scratch)@[s] == 0
        },
        same_outcomes(conditions_of(final(checkers)@), conditions_of(old(checkers)@)),
        answer is Ok && threshold > 0 ==> answer_in_turn(
            conditions_of(old(checkers)@),
            old(checkers)@.len() as int,
        ),
        answer matches Err(error) ==> count_stopped(
            old(checkers)@,
            final(checkers)@,
            points_of(old(ids)@),
            select,
            threshold as int,
            error,
        ),
        L::obeys_partition() ==> conditions_of(final(checkers)@) == conditions_of(old(checkers)@),
        L::obeys_partition() ==> match answer {
            Ok(_) => {
                &&& count_answer(
                    points_of(old(ids)@),
                    conditions_of(old(checkers)@),
                    select,
                    threshold as int,
                    old(checkers)@.len() as int,
                    0,
                )
                &&& final(ids)@.to_multiset() == old(ids)@.to_multiset()
                &&& forall|s: int|
                    0 <= s < threshold ==> bounds_at_least(
                        final(ids)@,
                        #[trigger] final(scratch)@[s],
                        old(ids)@,
                        conditions_of(old(checkers)@),
                        select,
                        threshold - s,
                    )
            },
            Err(_) => true,
        },
    decreases tallest(old(checkers)@), 5nat,
{
    let ghost conditions = conditions_of(checkers@);
    let ghost before = ids@;
    let ghost depth = tallest(checkers@);
    let m: usize = ids.len();
    scratch.clear();
    scratch.resize(threshold, 0);
    proof {
        to_multiset_len(before.take(0));
        assert forall|s: int| 0 <= s < threshold implies bounds_at_least(
            before,
            #[trigger] scratch@[s],
            before,
            conditions.take(0),
            select,
            threshold - s,
        ) by {
            assert(before.take(0).to_multiset() =~= items_on(
                before,
                selected_by_at_least(conditions.take(0), select, threshold - s),
            ));
        }
    }
    let mut j: usize = 0;
    while j < checkers.len()
        invariant
            j <= checkers@.len(),
            ids@.len() == m,
            before.len() == m,
            conditions == conditions_of(old(checkers)@),
            checkers@.len() == old(checkers)@.len(),
            conditions.len() == checkers@.len(),
            forall|k: int| j <= k < checkers@.len() ==> #[trigger] checkers@[k] == old(checkers)@[k],
            threshold == 0 ==> checkers@ == old(checkers)@,
            same_outcomes(conditions_of(checkers@), conditions),
            threshold > 0 ==> answer_in_turn(conditions, j as int),
            L::obeys_partition() ==> conditions == conditions_of(checkers@),
            before == old(ids)@,
            depth == tallest(old(checkers)@),
            depth == tallest(checkers@),
            scratch@.len() == threshold,
            forall|s: int, r: int| 0 <= s <= r < threshold ==> scratch@[s] <= scratch@[r],
            forall|s: int| 0 <= s < threshold ==> #[trigger] scratch@[s] <= m,
            threshold == 0 || j == 0 ==> ids@ == before,
            j == 0 ==> forall|s: int| 0 <= s < threshold ==> #[trigger] scratch@[s] == 0,
            L::obeys_partition() ==> {
                &&& ids@.to_multiset() == before.to_multiset()
                &&& count_answer(
                    points_of(before),
                    conditions,
                    select,
                    threshold as int,
                    j as int,
                    0,
                )
                &&& forall|s: int|
                    0 <= s < threshold ==> bounds_at_least(
                        ids@,
                        #[trigger] scratch@[s],
                        before,
                        conditions.take(j as int),
                        select,
                        threshold - s,
                    )
            },
        decreases checkers@.len() - j,
    {
        let mut i: usize = 0;
        while i < threshold
            invariant
                i <= threshold,
                j < checkers@.len(),
                ids@.len() == m,
                before.len() == m,
                conditions == conditions_of(old(checkers)@),
                checkers@.len() == old(checkers)@.len(),
                conditions.len() == checkers@.len(),
                forall|k: int|
                    j < k < checkers@.len() ==> #[trigger] checkers@[k] == old(checkers)@[k],
                threshold == 0 ==> checkers@ == old(checkers)@,
                same_outcomes(conditions_of(checkers@), conditions),
                threshold > 0 ==> answer_in_turn(conditions, j as int),
                i > 0 ==> answer_in_turn(conditions, j + 1),
                L::obeys_partition() ==> conditions == conditions_of(checkers@),
                before == old(ids)@,
                depth == tallest(old(checkers)@),
                depth == tallest(checkers@),
                scratch@.len() == threshold,
                forall|s: int, r: int| 0 <= s <= r < threshold ==> scratch@[s] <= scratch@[r],
                forall|s: int| 0 <= s < threshold ==> #[trigger] scratch@[s] <= m,
                threshold == 0 ==> ids@ == before,
                L::obeys_partition() ==> {
                    &&& ids@.to_multiset() == before.to_multiset()
                    &&& count_answer(
                        points_of(before),
                        conditions,
                        select,
                        threshold as int,
                        j as int,
                        i as int,
                    )
                    &&& forall|s: int|
                        0 <= s < threshold ==> bounds_at_least(
                            ids@,
                            #[trigger] scratch@[s],
                            before,
                            conditions.take(if s < i { j + 1 } else { j as int }),
                            select,
                            threshold - s,
                        )
                },
            decreases threshold - i,
        {
            let start: usize = scratch[i];
            let end: usize = if i + 1 < threshold {
                scratch[i + 1]
            } else {
                m
            };
            let ghost current = ids@;
            let ghost bounds = scratch@;
            let ghost checkers_before = checkers@;
            let ghost less = conditions.take(j as int);
            let ghost slot = selected_by_exactly(less, select, threshold - 1 - i);
            proof {
                lemma_tallest(checkers@, j as int);
                if L::obeys_partition() {
                    if i + 1 == threshold {
                        lemma_all_bound_zero(current, m, before, less, select);
                    }
                    assert(bounds_at_least(current, start, before, less, select, threshold - i));
                    assert(bounds_at_least(current, end, before, less, select, threshold - 1 - i));
                    lemma_slot(current, start, end, before, less, select, threshold - 1 - i);
                    lemma_points_of_picked(
                        current.subrange(start as int, end as int),
                        before,
                        slot,
                    );
                    let call = count_call(
                        points_of(before),
                        conditions,
                        select,
                        threshold as int,
                        j as int,
                        i as int,
                    );
                    assert(call.points == points_of(current.subrange(start as int, end as int)));
                    assert(checkers@[j as int].condition() == conditions[j as int]);
                }
            }
            let answer: Result<usize, L::Error> = check_window(
                &mut checkers[j],
                ids,
                start,
                end,
                select,
                Rest::Keep,
            );
            proof {
                if L::obeys_partition() {
                    assert(conditions_of(checkers@) =~= conditions);
                }
                lemma_tallest_update(checkers_before, checkers@);
                lemma_outcomes_update(checkers_before, checkers@, conditions, j as int);
            }
            match answer {
                Ok(n) => {
                    scratch[i] = start + n;
                    proof {
                        if L::obeys_partition() {
                            let part = ids@.subrange(start as int, end as int);
                            lemma_splice(current, part, ids@, start as int, end as int);
                            lemma_slot_step(
                                current,
                                ids@,
                                start,
                                end,
                                n,
                                before,
                                conditions,
                                j as int,
                                select,
                                threshold - i,
                            );
                            assert(ids@.take(m as int) =~= ids@);
                            assert(current.take(m as int) =~= current);
                            assert forall|s: int| 0 <= s < threshold implies bounds_at_least(
                                ids@,
                                #[trigger] scratch@[s],
                                before,
                                conditions.take(if s < i + 1 { j + 1 } else { j as int }),
                                select,
                                threshold - s,
                            ) by {
                                assert(bounds_at_least(
                                    current,
                                    bounds[s],
                                    before,
                                    conditions.take(if s < i { j + 1 } else { j as int }),
                                    select,
                                    threshold - s,
                                ));
                            }
                        }
                    }
                },
                Err(error) => {
                    proof {
                        if L::obeys_partition() {
                            let call = count_call(
                                points_of(before),
                                conditions,
                                select,
                                threshold as int,
                                j as int,
                                i as int,
                            );
                            assert(conditions[j as int].can_fail_batch(call, error));
                        }
                        assert(stops_at(old(checkers)@, checkers@, j as int, error));
                    }
                    return Err(error);
                },
            }
            i = i + 1;
        }
        j = j + 1;
    }
    assert(conditions.take(j as int) =~= conditions);
    Ok(())
}

} // verus!
