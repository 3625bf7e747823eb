//! The condition that a filter states, in terms of the conditions it is made of.

use vstd::multiset::Multiset;
use vstd::prelude::*;

use crate::condition_checker::{
    items_on, BatchCall, CheckItem, Condition, PointOffsetType, Rest, Select,
};

verus! {

/// The points that meet every one of `conditions`.
pub open spec fn matching_all<E>(conditions: Seq<Condition<E>>) -> Set<PointOffsetType> {
    Set::new(
        |p: PointOffsetType|
            forall|i: int|
                0 <= i < conditions.len() ==> (#[trigger] conditions[i]).matching.contains(p),
    )
}

/// The points that meet at least one of `conditions`.
pub open spec fn matching_any<E>(conditions: Seq<Condition<E>>) -> Set<PointOffsetType> {
    Set::new(
        |p: PointOffsetType|
            exists|i: int|
                0 <= i < conditions.len() && (#[trigger] conditions[i]).matching.contains(p),
    )
}

/// How many of `conditions` put the point on the selected side.
pub open spec fn side_count<E>(
    conditions: Seq<Condition<E>>,
    select: Select,
    point: PointOffsetType,
) -> nat
    decreases conditions.len(),
{
    if conditions.len() == 0 {
        0
    } else {
        let others = side_count(conditions.drop_last(), select, point);
        if select.side(conditions.last().matching).contains(point) {
            others + 1
        } else {
            others
        }
    }
}

/// How many of `conditions` the point meets.
pub open spec fn match_count<E>(conditions: Seq<Condition<E>>, point: PointOffsetType) -> nat {
    side_count(conditions, Select::Match, point)
}

/// The points that every one of `conditions` puts on the selected side.
pub open spec fn selected_by_all<E>(conditions: Seq<Condition<E>>, select: Select) -> Set<
    PointOffsetType,
> {
    match select {
        Select::Match => matching_all(conditions),
        Select::NonMatch => matching_any(conditions).complement(),
    }
}

/// The points that at least one of `conditions` puts on the selected side.
pub open spec fn selected_by_any<E>(conditions: Seq<Condition<E>>, select: Select) -> Set<
    PointOffsetType,
> {
    match select {
        Select::Match => matching_any(conditions),
        Select::NonMatch => matching_all(conditions).complement(),
    }
}

/// The points that at least `count` of `conditions` put on the selected side.
pub open spec fn selected_by_at_least<E>(
    conditions: Seq<Condition<E>>,
    select: Select,
    count: int,
) -> Set<PointOffsetType> {
    Set::new(|p: PointOffsetType| side_count(conditions, select, p) >= count)
}

/// The points that exactly `count` of `conditions` put on the selected side.
pub open spec fn selected_by_exactly<E>(conditions: Seq<Condition<E>>, select: Select, count: int) -> Set<
    PointOffsetType,
> {
    Set::new(|p: PointOffsetType| side_count(conditions, select, p) == count)
}

/// What condition `i` is asked in a search for the points that all `conditions` select: the points
/// that all before it selected.
pub open spec fn all_call<E>(
    points: Set<PointOffsetType>,
    conditions: Seq<Condition<E>>,
    select: Select,
    rest: Rest,
    i: int,
) -> BatchCall {
    BatchCall { points: points.intersect(selected_by_all(conditions.take(i), select)), select, rest }
}

/// The first `n` of `conditions` can answer in a search for the points that all select.
pub open spec fn all_answer<E>(
    points: Set<PointOffsetType>,
    conditions: Seq<Condition<E>>,
    select: Select,
    rest: Rest,
    n: int,
) -> bool {
    forall|i: int|
        0 <= i < n ==> conditions[i].can_answer_batch(
            #[trigger] all_call(points, conditions, select, rest, i),
        )
}

/// A search for the points that all `conditions` select can end in `error` at condition `i`: all
/// before it can answer what they are asked, and it can fail.
pub open spec fn all_fail<E>(
    points: Set<PointOffsetType>,
    conditions: Seq<Condition<E>>,
    select: Select,
    rest: Rest,
    i: int,
    error: E,
) -> bool {
    &&& 0 <= i < conditions.len()
    &&& all_answer(points, conditions, select, rest, i)
    &&& conditions[i].can_fail_batch(all_call(points, conditions, select, rest, i), error)
}

/// What condition `i` is asked in a search for the points that any of `conditions` selects: the
/// points that none before it selected. Those that it does not select either are kept for the
/// next condition, if there is one.
pub open spec fn any_call<E>(
    points: Set<PointOffsetType>,
    conditions: Seq<Condition<E>>,
    select: Select,
    rest: Rest,
    i: int,
) -> BatchCall {
    BatchCall {
        points: points.difference(selected_by_any(conditions.take(i), select)),
        select,
        rest: if i != conditions.len() - 1 {
            Rest::Keep
        } else {
            rest
        },
    }
}

/// The first `n` of `conditions` can answer in a search for the points that any selects.
pub open spec fn any_answer<E>(
    points: Set<PointOffsetType>,
    conditions: Seq<Condition<E>>,
    select: Select,
    rest: Rest,
    n: int,
) -> bool {
    forall|i: int|
        0 <= i < n ==> conditions[i].can_answer_batch(
            #[trigger] any_call(points, conditions, select, rest, i),
        )
}

/// A search for the points that any of `conditions` selects can end in `error` at condition `i`:
/// all before it can answer what they are asked, and it can fail.
pub open spec fn any_fail<E>(
    points: Set<PointOffsetType>,
    conditions: Seq<Condition<E>>,
    select: Select,
    rest: Rest,
    i: int,
    error: E,
) -> bool {
    &&& 0 <= i < conditions.len()
    &&& any_answer(points, conditions, select, rest, i)
    &&& conditions[i].can_fail_batch(any_call(points, conditions, select, rest, i), error)
}

/// What condition `i` is asked in its call `b` of a search for the points that at least
/// `threshold` of `conditions` select: the points that lack `b + 1` of them so far.
pub open spec fn count_call<E>(
    points: Set<PointOffsetType>,
    conditions: Seq<Condition<E>>,
    select: Select,
    threshold: int,
    i: int,
    b: int,
) -> BatchCall {
    BatchCall {
        points: points.intersect(selected_by_exactly(conditions.take(i), select, threshold - 1 - b)),
        select,
        rest: Rest::Keep,
    }
}

/// The calls before call `b` of condition `n` can be answered in a search for the points that at
/// least `threshold` of `conditions` select. Each condition is called `threshold` times.
pub open spec fn count_answer<E>(
    points: Set<PointOffsetType>,
    conditions: Seq<Condition<E>>,
    select: Select,
    threshold: int,
    n: int,
    b: int,
) -> bool {
    forall|i: int, c: int|
        0 <= i <= n && 0 <= c < threshold && (i < n || c < b) ==> conditions[i].can_answer_batch(
            #[trigger] count_call(points, conditions, select, threshold, i, c),
        )
}

/// A search for the points that at least `threshold` of `conditions` select can end in `error` at
/// condition `i`: all calls before one of its calls can be answered, and that one can fail.
pub open spec fn count_fail<E>(
    points: Set<PointOffsetType>,
    conditions: Seq<Condition<E>>,
    select: Select,
    threshold: int,
    i: int,
    error: E,
) -> bool {
    &&& 0 <= i < conditions.len()
    &&& exists|b: int|
        0 <= b < threshold && count_answer(points, conditions, select, threshold, i, b)
            && conditions[i].can_fail_batch(
            #[trigger] count_call(points, conditions, select, threshold, i, b),
            error,
        )
}

/// Each of the first `n` of `conditions` answers some batched checks.
pub open spec fn answer_in_turn<E>(conditions: Seq<Condition<E>>, n: int) -> bool {
    forall|i: int| 0 <= i < n ==> (#[trigger] conditions[i]).sometimes_answers()
}

/// Batched checks by one of `conditions` after the other can end in `error` at condition `i`.
pub open spec fn fail_in_turn<E>(conditions: Seq<Condition<E>>, i: int, error: E) -> bool {
    &&& 0 <= i < conditions.len()
    &&& answer_in_turn(conditions, i)
    &&& conditions[i].sometimes_fails(error)
}

/// Batched checks by one of `conditions` after the other can end in `error`.
pub open spec fn can_fail_in_turn<E>(conditions: Seq<Condition<E>>, error: E) -> bool {
    exists|i: int| fail_in_turn(conditions, i, error)
}

/// The batched checks of both can end in the same ways, one by one.
pub open spec fn same_outcomes<E>(one: Seq<Condition<E>>, other: Seq<Condition<E>>) -> bool {
    &&& one.len() == other.len()
    &&& forall|i: int|
        0 <= i < one.len() ==> (#[trigger] one[i]).batch_outcomes == other[i].batch_outcomes
}

/// Each of `conditions` can answer a check of the point.
pub open spec fn each_answers<E>(conditions: Seq<Condition<E>>, point: PointOffsetType) -> bool {
    forall|i: int| 0 <= i < conditions.len() ==> (#[trigger] conditions[i]).can_answer(point)
}

/// The conditions of a filter, clause by clause.
#[verifier::ext_equal]
#[verifier::reject_recursive_types(E)]
pub struct FilterModel<E> {
    /// At least one has to match, if there are any.
    pub should: Seq<Condition<E>>,
    /// At least `min_should_count` have to match.
    pub min_should: Seq<Condition<E>>,
    pub min_should_count: nat,
    /// All have to match.
    pub must: Seq<Condition<E>>,
    /// None may match.
    pub must_not: Seq<Condition<E>>,
}

/// One more condition narrows what all select, widens what any selects, and counts for one.
pub proof fn lemma_one_more<E>(conditions: Seq<Condition<E>>, i: int, select: Select)
    requires
        0 <= i < conditions.len(),
    ensures
        selected_by_all(conditions.take(i + 1), select) == selected_by_all(
            conditions.take(i),
            select,
        ).intersect(select.side(conditions[i].matching)),
        selected_by_any(conditions.take(i + 1), select) == selected_by_any(
            conditions.take(i),
            select,
        ).union(select.side(conditions[i].matching)),
        forall|p: PointOffsetType| #[trigger]
            side_count(conditions.take(i + 1), select, p) == side_count(
                conditions.take(i),
                select,
                p,
            ) + if select.side(conditions[i].matching).contains(p) {
                1int
            } else {
                0int
            },
{
    let less = conditions.take(i);
    let more = conditions.take(i + 1);
    assert(more.drop_last() =~= less);
    assert(more.last() == conditions[i]);
    assert forall|p: PointOffsetType|
        matching_all(more).contains(p) <==> matching_all(less).contains(p)
            && conditions[i].matching.contains(p) by {
        if matching_all(more).contains(p) {
            assert forall|j: int| 0 <= j < less.len() implies (#[trigger] less[j]).matching.contains(
                p,
            ) by {
                assert(more[j].matching.contains(p));
            }
            assert(more[i].matching.contains(p));
        }
        if matching_all(less).contains(p) && conditions[i].matching.contains(p) {
            assert forall|j: int| 0 <= j < more.len() implies (#[trigger] more[j]).matching.contains(
                p,
            ) by {
                if j < i {
                    assert(less[j].matching.contains(p));
                }
            }
        }
    }
    assert forall|p: PointOffsetType|
        matching_any(more).contains(p) <==> matching_any(less).contains(p)
            || conditions[i].matching.contains(p) by {
        if matching_any(more).contains(p) {
            let j = choose|j: int|
                0 <= j < more.len() && (#[trigger] more[j]).matching.contains(p);
            if j < i {
                assert(less[j].matching.contains(p));
            }
        }
        if matching_any(less).contains(p) {
            let j = choose|j: int|
                0 <= j < less.len() && (#[trigger] less[j]).matching.contains(p);
            assert(more[j].matching.contains(p));
        }
        if conditions[i].matching.contains(p) {
            assert(more[i].matching.contains(p));
        }
    }
    assert(selected_by_all(more, select) =~= selected_by_all(less, select).intersect(
        select.side(conditions[i].matching),
    ));
    assert(selected_by_any(more, select) =~= selected_by_any(less, select).union(
        select.side(conditions[i].matching),
    ));
}

/// Each condition puts the point on one side or the other.
pub proof fn lemma_two_sides<E>(conditions: Seq<Condition<E>>, point: PointOffsetType)
    ensures
        side_count(conditions, Select::Match, point) + side_count(
            conditions,
            Select::NonMatch,
            point,
        ) == conditions.len(),
    decreases conditions.len(),
{
    if conditions.len() > 0 {
        lemma_two_sides(conditions.drop_last(), point);
    }
}

/// More conditions count for no less.
pub proof fn lemma_count_grows<E>(conditions: Seq<Condition<E>>, i: int, point: PointOffsetType)
    requires
        0 <= i <= conditions.len(),
    ensures
        match_count(conditions.take(i), point) <= match_count(conditions, point),
    decreases conditions.len() - i,
{
    if i < conditions.len() {
        lemma_one_more(conditions, i, Select::Match);
        assert(match_count(conditions.take(i + 1), point) >= match_count(conditions.take(i), point));
        lemma_count_grows(conditions, i + 1, point);
    } else {
        assert(conditions.take(i) =~= conditions);
    }
}

/// Where the first conditions answer and the next one does, all of them do.
pub proof fn lemma_one_more_answers<E>(
    conditions: Seq<Condition<E>>,
    i: int,
    point: PointOffsetType,
)
    requires
        0 <= i < conditions.len(),
        each_answers(conditions.take(i), point),
        conditions[i].can_answer(point),
    ensures
        each_answers(conditions.take(i + 1), point),
{
    assert forall|j: int| 0 <= j <= i implies (#[trigger] conditions.take(i + 1)[j]).can_answer(
        point,
    ) by {
        if j < i {
            assert(conditions.take(i)[j].can_answer(point));
        }
    }
}

/// A point that any of the first conditions matches, any of more matches too.
pub proof fn lemma_any_grows<E>(
    conditions: Seq<Condition<E>>,
    i: int,
    j: int,
    point: PointOffsetType,
)
    requires
        0 <= i <= j <= conditions.len(),
        matching_any(conditions.take(i)).contains(point),
    ensures
        matching_any(conditions.take(j)).contains(point),
{
    let at = choose|at: int|
        0 <= at < i && (#[trigger] conditions.take(i)[at]).matching.contains(point);
    assert(conditions.take(j)[at].matching.contains(point));
}

impl<E> FilterModel<E> {
    /// At least one condition of `should` is met, if there are any.
    pub open spec fn meets_should(self) -> Set<PointOffsetType> {
        if self.should.len() == 0 {
            Set::full()
        } else {
            matching_any(self.should)
        }
    }

    /// At least `min_should_count` conditions of `min_should` are met.
    pub open spec fn meets_min_should(self) -> Set<PointOffsetType> {
        Set::new(|p: PointOffsetType| match_count(self.min_should, p) >= self.min_should_count)
    }

    /// All conditions of `must` are met.
    pub open spec fn meets_must(self) -> Set<PointOffsetType> {
        matching_all(self.must)
    }

    /// No condition of `must_not` is met.
    pub open spec fn meets_must_not(self) -> Set<PointOffsetType> {
        matching_any(self.must_not).complement()
    }

    /// The points that pass the filter.
    pub open spec fn matching(self) -> Set<PointOffsetType> {
        self.meets_should().intersect(self.meets_min_should()).intersect(
            self.meets_must(),
        ).intersect(self.meets_must_not())
    }

    /// A check of one point asks condition `i` of `should`: none before it is met.
    pub open spec fn asks_should(self, point: PointOffsetType, i: int) -> bool {
        &&& 0 <= i < self.should.len()
        &&& !matching_any(self.should.take(i)).contains(point)
    }

    /// A check of one point asks condition `i` of `min_should`: the `should` clause is met, and
    /// fewer than `min_should_count` conditions before this one are.
    pub open spec fn asks_min_should(self, point: PointOffsetType, i: int) -> bool {
        &&& 0 <= i < self.min_should.len()
        &&& self.meets_should().contains(point)
        &&& match_count(self.min_should.take(i), point) < self.min_should_count
    }

    /// A check of one point asks condition `i` of `must`: the clauses `should` and `min_should`
    /// are met, and all conditions before this one are.
    pub open spec fn asks_must(self, point: PointOffsetType, i: int) -> bool {
        &&& 0 <= i < self.must.len()
        &&& self.meets_should().contains(point)
        &&& self.meets_min_should().contains(point)
        &&& matching_all(self.must.take(i)).contains(point)
    }

    /// A check of one point asks condition `i` of `must_not`: the other clauses are met, and no
    /// condition before this one is.
    pub open spec fn asks_must_not(self, point: PointOffsetType, i: int) -> bool {
        &&& 0 <= i < self.must_not.len()
        &&& self.meets_should().contains(point)
        &&& self.meets_min_should().contains(point)
        &&& self.meets_must().contains(point)
        &&& !matching_any(self.must_not.take(i)).contains(point)
    }

    /// Every condition of `should` that a check of the point asks can answer.
    pub open spec fn should_answers(self, point: PointOffsetType) -> bool {
        forall|i: int| #[trigger] self.asks_should(point, i) ==> self.should[i].can_answer(point)
    }

    /// Every condition of `min_should` that a check of the point asks can answer.
    pub open spec fn min_should_answers(self, point: PointOffsetType) -> bool {
        forall|i: int| #[trigger]
            self.asks_min_should(point, i) ==> self.min_should[i].can_answer(point)
    }

    /// Every condition of `must` that a check of the point asks can answer.
    pub open spec fn must_answers(self, point: PointOffsetType) -> bool {
        forall|i: int| #[trigger] self.asks_must(point, i) ==> self.must[i].can_answer(point)
    }

    /// Every condition of `must_not` that a check of the point asks can answer.
    pub open spec fn must_not_answers(self, point: PointOffsetType) -> bool {
        forall|i: int| #[trigger]
            self.asks_must_not(point, i) ==> self.must_not[i].can_answer(point)
    }

    /// A check of one point may come to an answer: every condition that it asks can.
    pub open spec fn can_answer(self, point: PointOffsetType) -> bool {
        &&& self.should_answers(point)
        &&& self.min_should_answers(point)
        &&& self.must_answers(point)
        &&& self.must_not_answers(point)
    }

    /// A check of one point may end in `error`: the first condition that it asks and that does
    /// not answer can fail with it.
    pub open spec fn can_fail(self, point: PointOffsetType, error: E) -> bool {
        ||| exists|i: int| #[trigger]
            self.asks_should(point, i) && each_answers(self.should.take(i), point)
                && self.should[i].can_fail(point, error)
        ||| self.should_answers(point) && exists|i: int| #[trigger]
            self.asks_min_should(point, i) && each_answers(self.min_should.take(i), point)
                && self.min_should[i].can_fail(point, error)
        ||| self.should_answers(point) && self.min_should_answers(point) && exists|i: int|
            #[trigger]
            self.asks_must(point, i) && each_answers(self.must.take(i), point)
                && self.must[i].can_fail(point, error)
        ||| self.should_answers(point) && self.min_should_answers(point) && self.must_answers(point)
            && exists|i: int| #[trigger]
            self.asks_must_not(point, i) && each_answers(self.must_not.take(i), point)
                && self.must_not[i].can_fail(point, error)
    }

    /// The points that are left of `points` for `should`.
    pub open spec fn left_for_should(self, points: Set<PointOffsetType>) -> Set<PointOffsetType> {
        points.intersect(self.meets_must().intersect(self.meets_must_not()))
    }

    /// The points that are left of `points` for `min_should`.
    pub open spec fn left_for_min_should(self, points: Set<PointOffsetType>) -> Set<
        PointOffsetType,
    > {
        points.intersect(
            self.meets_must().intersect(self.meets_must_not()).intersect(self.meets_should()),
        )
    }

    /// How many conditions of `min_should` have to put a point on the selected side: to meet the
    /// clause `min_should_count`, to fail it all but `min_should_count - 1`.
    pub open spec fn threshold(self, select: Select) -> int {
        match select {
            Select::Match => self.min_should_count as int,
            Select::NonMatch => self.min_should.len() - self.min_should_count + 1,
        }
    }

    /// The conditions of `must` can answer a batched check. They are asked first: to select
    /// matches, for what all of them select; to select non-matches, for what any rejects.
    pub open spec fn must_answers_batch(self, call: BatchCall) -> bool {
        let n = self.must.len() as int;
        match call.select {
            Select::Match => all_answer(call.points, self.must, Select::Match, call.rest, n),
            Select::NonMatch => any_answer(call.points, self.must, Select::NonMatch, Rest::Keep, n),
        }
    }

    /// Condition `i` of `must` can end a batched check in `error`.
    pub open spec fn must_fails_batch(self, call: BatchCall, i: int, error: E) -> bool {
        match call.select {
            Select::Match => all_fail(call.points, self.must, Select::Match, call.rest, i, error),
            Select::NonMatch => any_fail(
                call.points,
                self.must,
                Select::NonMatch,
                Rest::Keep,
                i,
                error,
            ),
        }
    }

    /// The conditions of `must_not` can answer a batched check. They are asked second, of what
    /// meets `must`: to select matches, for what all of them reject; to select non-matches, for
    /// what any selects.
    pub open spec fn must_not_answers_batch(self, call: BatchCall) -> bool {
        let points = call.points.intersect(self.meets_must());
        let n = self.must_not.len() as int;
        match call.select {
            Select::Match => all_answer(points, self.must_not, Select::NonMatch, call.rest, n),
            Select::NonMatch => any_answer(points, self.must_not, Select::Match, Rest::Keep, n),
        }
    }

    /// Condition `i` of `must_not` can end a batched check in `error`.
    pub open spec fn must_not_fails_batch(self, call: BatchCall, i: int, error: E) -> bool {
        let points = call.points.intersect(self.meets_must());
        match call.select {
            Select::Match => all_fail(points, self.must_not, Select::NonMatch, call.rest, i, error),
            Select::NonMatch => any_fail(points, self.must_not, Select::Match, Rest::Keep, i, error),
        }
    }

    /// The conditions of `should` can answer a batched check. They are asked third, of what meets
    /// `must` and `must_not`: to select matches, for what any of them selects; to select
    /// non-matches, for what all reject.
    pub open spec fn should_answers_batch(self, call: BatchCall) -> bool {
        let points = self.left_for_should(call.points);
        let n = self.should.len() as int;
        match call.select {
            Select::Match => any_answer(points, self.should, Select::Match, call.rest, n),
            Select::NonMatch => all_answer(points, self.should, Select::NonMatch, Rest::Keep, n),
        }
    }

    /// Condition `i` of `should` can end a batched check in `error`.
    pub open spec fn should_fails_batch(self, call: BatchCall, i: int, error: E) -> bool {
        let points = self.left_for_should(call.points);
        match call.select {
            Select::Match => any_fail(points, self.should, Select::Match, call.rest, i, error),
            Select::NonMatch => all_fail(points, self.should, Select::NonMatch, Rest::Keep, i, error),
        }
    }

    /// The conditions of `min_should` are asked by a batched check: some have to be met, and not
    /// more than there are.
    pub open spec fn counts_min_should(self) -> bool {
        0 < self.min_should_count <= self.min_should.len()
    }

    /// Both filters hold as many conditions in each clause and ask for the same count.
    pub open spec fn same_shape(self, other: Self) -> bool {
        &&& self.should.len() == other.should.len()
        &&& self.min_should.len() == other.min_should.len()
        &&& self.min_should_count == other.min_should_count
        &&& self.must.len() == other.must.len()
        &&& self.must_not.len() == other.must_not.len()
    }

    /// A batched check asks no condition: there is none in the clauses that it asks.
    pub open spec fn asks_nothing(self) -> bool {
        &&& self.must.len() == 0
        &&& self.must_not.len() == 0
        &&& self.should.len() == 0
        &&& !self.counts_min_should()
    }

    /// How many of `len` items are selected where no condition is asked: all or none of them
    /// match, as nothing has to be met or more than there is.
    pub open spec fn undecided_count(self, select: Select, len: nat) -> nat {
        if (select is Match) == (self.min_should_count == 0) {
            len
        } else {
            0
        }
    }

    /// The items that meet the other clauses and that at least `threshold - s` conditions of
    /// `min_should` put on the selected side.
    pub open spec fn counted<K: CheckItem>(self, items: Seq<K>, select: Select, s: int) -> Multiset<
        K,
    > {
        items_on(
            items,
            self.meets_must().intersect(self.meets_must_not()).intersect(
                self.meets_should(),
            ).intersect(
                selected_by_at_least(self.min_should, select, self.threshold(select) - s),
            ),
        )
    }

    /// `bounds` is what a batched check leaves of its counts: how many items are `counted`, for
    /// each `s` below the threshold.
    pub open spec fn counts_are<K: CheckItem>(
        self,
        items: Seq<K>,
        select: Select,
        bounds: Seq<usize>,
    ) -> bool {
        &&& bounds.len() == self.threshold(select)
        &&& forall|s: int|
            0 <= s < bounds.len() ==> #[trigger] bounds[s] == self.counted(items, select, s).len()
    }

    /// The conditions of `min_should` can answer a batched check. They are asked last, of what
    /// meets the other clauses.
    pub open spec fn min_should_answers_batch(self, call: BatchCall) -> bool {
        self.counts_min_should() ==> count_answer(
            self.left_for_min_should(call.points),
            self.min_should,
            call.select,
            self.threshold(call.select),
            self.min_should.len() as int,
            0,
        )
    }

    /// Condition `i` of `min_should` can end a batched check in `error`.
    pub open spec fn min_should_fails_batch(self, call: BatchCall, i: int, error: E) -> bool {
        self.counts_min_should() && count_fail(
            self.left_for_min_should(call.points),
            self.min_should,
            call.select,
            self.threshold(call.select),
            i,
            error,
        )
    }

    /// A batched check may come to an answer: every condition that it asks can.
    pub open spec fn can_answer_batch(self, call: BatchCall) -> bool {
        &&& self.must_answers_batch(call)
        &&& self.must_not_answers_batch(call)
        &&& self.should_answers_batch(call)
        &&& self.min_should_answers_batch(call)
    }

    /// The conditions that a batched check asks, in the order in which it does.
    pub open spec fn asked(self) -> Seq<Condition<E>> {
        self.must + self.must_not + self.should + if self.counts_min_should() {
            self.min_should
        } else {
            Seq::empty()
        }
    }

    /// Where the conditions of `min_should` start among those that a batched check asks.
    pub open spec fn min_should_start(self) -> nat {
        self.must.len() + self.must_not.len() + self.should.len()
    }

    /// A batched check may end in `error` at the condition `asked()[i]`: all before it can answer
    /// what they are asked, and it can fail with it.
    pub open spec fn fails_at(self, call: BatchCall, i: int, error: E) -> bool {
        let must = self.must.len();
        let must_not = must + self.must_not.len();
        let should = must_not + self.should.len();
        if i < must {
            self.must_fails_batch(call, i, error)
        } else if i < must_not {
            &&& self.must_answers_batch(call)
            &&& self.must_not_fails_batch(call, i - must, error)
        } else if i < should {
            &&& self.must_answers_batch(call)
            &&& self.must_not_answers_batch(call)
            &&& self.should_fails_batch(call, i - must_not, error)
        } else {
            &&& self.must_answers_batch(call)
            &&& self.must_not_answers_batch(call)
            &&& self.should_answers_batch(call)
            &&& self.min_should_fails_batch(call, i - should, error)
        }
    }

    /// A batched check may end in `error`: the first condition that does not answer what it is
    /// asked can fail with it.
    pub open spec fn can_fail_batch(self, call: BatchCall, error: E) -> bool {
        exists|i: int| self.fails_at(call, i, error)
    }

    /// How a batched check may end, whatever it is asked: with an answer if all conditions that
    /// it asks answer some, or in an error of the first that does not.
    pub open spec fn batch_outcomes(self) -> Set<Result<(), E>> {
        let asked = self.asked();
        Set::new(
            |end: Result<(), E>|
                match end {
                    Ok(_) => answer_in_turn(asked, asked.len() as int),
                    Err(error) => can_fail_in_turn(asked, error),
                },
        )
    }

    /// The condition that the filter states.
    pub open spec fn condition(self) -> Condition<E> {
        Condition {
            matching: self.matching(),
            check_ends: |p: PointOffsetType|
                Set::new(
                    |end: Result<(), E>|
                        match end {
                            Ok(_) => self.can_answer(p),
                            Err(error) => self.can_fail(p, error),
                        },
                ),
            batch_ends: |call: BatchCall|
                Set::new(
                    |end: Result<(), E>|
                        match end {
                            Ok(_) => self.can_answer_batch(call),
                            Err(error) => self.can_fail_batch(call, error),
                        },
                ),
            batch_outcomes: self.batch_outcomes(),
        }
    }

    /// A batched check can end as before where those of the conditions that it asks can.
    pub proof fn lemma_same_outcomes(self, other: Self)
        requires
            self.same_shape(other),
            same_outcomes(self.must, other.must),
            same_outcomes(self.must_not, other.must_not),
            same_outcomes(self.should, other.should),
            same_outcomes(self.min_should, other.min_should),
        ensures
            same_outcomes(self.asked(), other.asked()),
            self.batch_outcomes() == other.batch_outcomes(),
    {
        let one = self.asked();
        let two = other.asked();
        assert forall|i: int| 0 <= i < one.len() implies (#[trigger] one[i]).batch_outcomes
            == two[i].batch_outcomes by {
            let must_not = i - self.must.len();
            let should = must_not - self.must_not.len();
            let min_should = should - self.should.len();
            if must_not < 0 {
                assert(one[i] == self.must[i] && two[i] == other.must[i]);
            } else if should < 0 {
                assert(one[i] == self.must_not[must_not] && two[i] == other.must_not[must_not]);
            } else if min_should < 0 {
                assert(one[i] == self.should[should] && two[i] == other.should[should]);
            } else {
                assert(one[i] == self.min_should[min_should] && two[i]
                    == other.min_should[min_should]);
            }
        }
        assert forall|n: int| 0 <= n <= one.len() implies #[trigger] answer_in_turn(one, n)
            == answer_in_turn(two, n) by {
            assert(answer_in_turn(one, n) ==> answer_in_turn(two, n)) by {
                assert forall|i: int| 0 <= i < n && answer_in_turn(one, n) implies (
                #[trigger] two[i]).sometimes_answers() by {
                    assert(one[i].sometimes_answers());
                }
            }
            assert(answer_in_turn(two, n) ==> answer_in_turn(one, n));
        }
        assert forall|i: int, error: E| #[trigger]
            fail_in_turn(one, i, error) == fail_in_turn(two, i, error) by {
            assert(0 <= i <= one.len() ==> answer_in_turn(one, i) == answer_in_turn(two, i));
            if 0 <= i < one.len() {
                assert(one[i].batch_outcomes == two[i].batch_outcomes);
            }
        }
        assert forall|end: Result<(), E>| #[trigger]
            self.batch_outcomes().contains(end) == other.batch_outcomes().contains(end) by {
            match end {
                Ok(_) => {
                    assert(answer_in_turn(one, one.len() as int) == answer_in_turn(
                        two,
                        two.len() as int,
                    ));
                },
                Err(error) => {
                    if can_fail_in_turn(one, error) {
                        let i = choose|i: int| fail_in_turn(one, i, error);
                        assert(fail_in_turn(two, i, error));
                    }
                    if can_fail_in_turn(two, error) {
                        let i = choose|i: int| fail_in_turn(two, i, error);
                        assert(fail_in_turn(one, i, error));
                    }
                },
            }
        }
        assert(self.batch_outcomes() =~= other.batch_outcomes());
    }

    /// To select non-matches, the conditions are asked to keep the rest whatever the caller needs.
    pub proof fn lemma_non_match_keeps(self, call: BatchCall)
        requires
            call.select is NonMatch,
        ensures
            forall|i: int, error: E| #[trigger]
                self.fails_at(BatchCall { rest: Rest::Keep, ..call }, i, error) == self.fails_at(
                    call,
                    i,
                    error,
                ),
            forall|error: E| #[trigger]
                self.can_fail_batch(BatchCall { rest: Rest::Keep, ..call }, error)
                    == self.can_fail_batch(call, error),
    {
        let keep = BatchCall { rest: Rest::Keep, ..call };
        assert forall|error: E| #[trigger] self.can_fail_batch(keep, error) == self.can_fail_batch(
            call,
            error,
        ) by {
            assert(forall|i: int| #[trigger]
                self.fails_at(keep, i, error) == self.fails_at(call, i, error));
            assert(forall|i: int| #[trigger]
                self.fails_at(call, i, error) == self.fails_at(keep, i, error));
        }
    }

    /// What `min_should` is searched for: the points that meet it, or those that do not.
    pub proof fn lemma_min_should_side(self)
        requires
            0 < self.min_should_count <= self.min_should.len(),
        ensures
            selected_by_at_least(self.min_should, Select::Match, self.threshold(Select::Match))
                == self.meets_min_should(),
            selected_by_at_least(
                self.min_should,
                Select::NonMatch,
                self.threshold(Select::NonMatch),
            ) == self.meets_min_should().complement(),
    {
        assert(selected_by_at_least(self.min_should, Select::Match, self.threshold(Select::Match))
            =~= self.meets_min_should());
        let too_few = selected_by_at_least(
            self.min_should,
            Select::NonMatch,
            self.threshold(Select::NonMatch),
        );
        assert forall|p: PointOffsetType|
            too_few.contains(p) <==> !self.meets_min_should().contains(p) by {
            lemma_two_sides(self.min_should, p);
        }
        assert(too_few =~= self.meets_min_should().complement());
    }

    /// Where more conditions are asked for than there are, no point meets `min_should`.
    pub proof fn lemma_min_should_unmet(self)
        requires
            self.min_should_count > self.min_should.len(),
        ensures
            self.meets_min_should() == Set::<PointOffsetType>::empty(),
    {
        assert forall|p: PointOffsetType| !self.meets_min_should().contains(p) by {
            lemma_two_sides(self.min_should, p);
        }
        assert(self.meets_min_should() =~= Set::empty());
    }
}

} // verus!
