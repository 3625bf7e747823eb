//! A filter made of conditions.

use vstd::prelude::*;
use vstd::seq_lib::to_multiset_len;

use crate::condition_checker::{
    items_on, points_of, BatchCall, CheckItem, Condition, ConditionChecker, PointOffsetType, Rest,
    Select,
};
use crate::clause_laws::{law_batch_selects_members, law_filter_matches};
use crate::counting::lemma_counts;
use crate::filter_model::{
    answer_in_turn, each_answers, fail_in_turn, lemma_any_grows, lemma_count_grows, lemma_one_more,
    lemma_one_more_answers, match_count, matching_all, matching_any, same_outcomes, FilterModel,
};
use crate::partition::{
    lemma_narrow, lemma_parted_keeps, lemma_parted_start, lemma_points_of_picked, lemma_widen,
    window,
};
use crate::selection::{
    all_stopped, any_stopped, count_stopped, counting_sort, select_by_all, select_by_any,
};
use crate::test_bits::TestBits;

verus! {

/// A checker that can stand in a filter.
pub enum ConditionCheckerEnum<L> {
    /// A filter inside a filter.
    Filter(OptimizedFilter<L>),
    /// A checker that holds its answers.
    TestBits(TestBits),
    /// A checker that an index supplies.
    Index(L),
}

/// A filter over points.
pub struct OptimizedFilter<L> {
    /// At least one of those conditions should match, if not empty.
    should: Vec<ConditionCheckerEnum<L>>,
    /// At least minimum amount of given conditions should match.
    min_should: Vec<ConditionCheckerEnum<L>>,
    min_should_count: usize,
    /// All conditions must match.
    must: Vec<ConditionCheckerEnum<L>>,
    /// All conditions must NOT match.
    must_not: Vec<ConditionCheckerEnum<L>>,
    scratch: Vec<usize>,
}

/// The conditions that `checkers` check.
pub open spec fn conditions_of<L: ConditionChecker>(checkers: Seq<ConditionCheckerEnum<L>>) -> Seq<
    Condition<L::Error>,
>
    decreases checkers,
{
    Seq::new(
        checkers.len(),
        |i: int| if 0 <= i < checkers.len() { checkers[i].condition() } else { arbitrary() },
    )
}

/// Of `checkers`, asked in turn and left as `after`, number `i` ended in `error`: it can, all before
/// it can answer, and none behind it was asked.
pub open spec fn stops_at<L: ConditionChecker>(
    checkers: Seq<ConditionCheckerEnum<L>>,
    after: Seq<ConditionCheckerEnum<L>>,
    i: int,
    error: L::Error,
) -> bool {
    &&& fail_in_turn(conditions_of(checkers), i, error)
    &&& after.len() == checkers.len()
    &&& forall|j: int| i < j < checkers.len() ==> #[trigger] after[j] == checkers[j]
}

impl<L: ConditionChecker> OptimizedFilter<L> {
    /// The conditions of the filter, clause by clause.
    pub closed spec fn model(&self) -> FilterModel<L::Error>
        decreases self,
    {
        FilterModel {
            should: conditions_of(self.should@),
            min_should: conditions_of(self.min_should@),
            min_should_count: self.min_should_count as nat,
            must: conditions_of(self.must@),
            must_not: conditions_of(self.must_not@),
        }
    }

    /// The checkers of `should`.
    pub closed spec fn should(&self) -> Seq<ConditionCheckerEnum<L>> {
        self.should@
    }

    /// The checkers of `min_should`.
    pub closed spec fn min_should(&self) -> Seq<ConditionCheckerEnum<L>> {
        self.min_should@
    }

    /// How many checkers of `min_should` have to match.
    pub closed spec fn min_should_count(&self) -> usize {
        self.min_should_count
    }

    /// The checkers of `must`.
    pub closed spec fn must(&self) -> Seq<ConditionCheckerEnum<L>> {
        self.must@
    }

    /// The checkers of `must_not`.
    pub closed spec fn must_not(&self) -> Seq<ConditionCheckerEnum<L>> {
        self.must_not@
    }

    /// What the last counting sort left behind.
    pub closed spec fn scratch(&self) -> Seq<usize> {
        self.scratch@
    }

    /// The checkers of `min_should`, if a batched check asks them.
    pub open spec fn counted(&self) -> Seq<ConditionCheckerEnum<L>> {
        if self.model().counts_min_should() {
            self.min_should()
        } else {
            Seq::empty()
        }
    }

    /// The checkers that a batched check asks, in the order in which it does.
    pub open spec fn asked(&self) -> Seq<ConditionCheckerEnum<L>> {
        self.must() + self.must_not() + self.should() + self.counted()
    }

    /// A batched check by the filter, left as `after`, ended in `error` at the checker `asked()[i]`.
    /// What the last counting sort left behind stays unless another one started.
    pub open spec fn stopped_at(
        &self,
        after: &Self,
        call: BatchCall,
        i: int,
        error: L::Error,
    ) -> bool {
        &&& stops_at(self.asked(), after.asked(), i, error)
        &&& if i < self.model().min_should_start() {
            after.scratch() == self.scratch()
        } else {
            after.scratch().len() == self.model().threshold(call.select)
        }
        &&& L::obeys_partition() ==> self.model().fails_at(call, i, error)
    }

    /// A batched check by the filter, left as `after`, ended in `error`.
    pub open spec fn stopped(&self, after: &Self, call: BatchCall, error: L::Error) -> bool {
        exists|i: int| self.stopped_at(after, call, i, error)
    }

    /// Where the checkers of a clause cannot answer a batched check by the filter, left as `after`,
    /// those of the clauses behind it are as they were.
    pub open spec fn unasked_stay(&self, after: &Self, call: BatchCall) -> bool {
        let model = self.model();
        &&& !model.must_answers_batch(call) ==> {
            &&& after.must_not() == self.must_not()
            &&& after.should() == self.should()
            &&& after.min_should() == self.min_should()
        }
        &&& !model.must_not_answers_batch(call) ==> {
            &&& after.should() == self.should()
            &&& after.min_should() == self.min_should()
        }
        &&& !model.should_answers_batch(call) ==> after.min_should() == self.min_should()
    }

    /// `answer` is one with which a batched check may leave the filter as `after`: only the checkers
    /// that it asked may change, none of them behind the first error, and what is checked does not.
    pub open spec fn may_become(
        &self,
        after: &Self,
        call: BatchCall,
        answer: Result<usize, L::Error>,
    ) -> bool {
        &&& after.model().same_shape(self.model())
        &&& same_outcomes(after.model().asked(), self.model().asked())
        &&& !self.model().counts_min_should() ==> {
            &&& after.min_should() == self.min_should()
            &&& after.scratch() == self.scratch()
        }
        &&& answer matches Err(error) ==> self.stopped(after, call, error)
        &&& L::obeys_partition() ==> after.model() == self.model()
        &&& L::obeys_partition() ==> self.unasked_stay(after, call)
    }

    /// The conditions that a batched check asks are those of the checkers that it asks.
    pub proof fn lemma_asked(&self)
        ensures
            self.model().asked() == conditions_of(self.asked()),
    {
        assert(self.model().asked() =~= conditions_of(self.asked()));
    }

    /// The conditions of the filter are those of its checkers.
    pub proof fn lemma_model(&self)
        ensures
            self.model() == (FilterModel {
                should: conditions_of(self.should()),
                min_should: conditions_of(self.min_should()),
                min_should_count: self.min_should_count() as nat,
                must: conditions_of(self.must()),
                must_not: conditions_of(self.must_not()),
            }),
    {
    }

    /// A filter that a point passes iff it meets all four clauses.
    pub fn new(
        should: Vec<ConditionCheckerEnum<L>>,
        min_should: Vec<ConditionCheckerEnum<L>>,
        min_should_count: usize,
        must: Vec<ConditionCheckerEnum<L>>,
        must_not: Vec<ConditionCheckerEnum<L>>,
    ) -> (filter: Self)
        ensures
            filter.model() == (FilterModel {
                should: conditions_of(should@),
                min_should: conditions_of(min_should@),
                min_should_count: min_should_count as nat,
                must: conditions_of(must@),
                must_not: conditions_of(must_not@),
            }),
            filter.should() == should@,
            filter.min_should() == min_should@,
            filter.min_should_count() == min_should_count,
            filter.must() == must@,
            filter.must_not() == must_not@,
            filter.scratch() == Seq::<usize>::empty(),
    {
        OptimizedFilter { should, min_should, min_should_count, must, must_not, scratch: Vec::new() }
    }

    /// A filter that matches a point iff the single given checker matches it.
    pub fn from_checker(checker: ConditionCheckerEnum<L>) -> (filter: Self)
        ensures
            filter.model() == (FilterModel {
                should: Seq::empty(),
                min_should: Seq::empty(),
                min_should_count: 0,
                must: seq![checker.condition()],
                must_not: Seq::empty(),
            }),
            filter.condition().matching == checker.condition().matching,
            filter.should() == Seq::<ConditionCheckerEnum<L>>::empty(),
            filter.min_should() == Seq::<ConditionCheckerEnum<L>>::empty(),
            filter.min_should_count() == 0,
            filter.must() == seq![checker],
            filter.must_not() == Seq::<ConditionCheckerEnum<L>>::empty(),
            filter.scratch() == Seq::<usize>::empty(),
    {
        let filter: Self = Self::new(Vec::new(), Vec::new(), 0, vec![checker], Vec::new());
        proof {
            assert(filter.model() =~= FilterModel {
                should: Seq::empty(),
                min_should: Seq::empty(),
                min_should_count: 0,
                must: seq![checker.condition()],
                must_not: Seq::empty(),
            });
            assert forall|p: PointOffsetType|
                filter.condition().matching.contains(p) == checker.condition().matching.contains(
                    p,
                ) by {
                assert(filter.model().must[0] == checker.condition());
            }
            assert(filter.condition().matching =~= checker.condition().matching);
        }
        filter
    }
}

/// The larger of two numbers.
spec fn larger(a: nat, b: nat) -> nat {
    if a > b {
        a
    } else {
        b
    }
}

/// How deep filters are nested in the tallest of `checkers`.
pub(crate) closed spec fn tallest<L>(checkers: Seq<ConditionCheckerEnum<L>>) -> nat
    decreases checkers,
{
    if checkers.len() == 0 {
        0
    } else {
        larger(tallest(checkers.drop_last()), checkers[checkers.len() - 1].height())
    }
}

impl<L> ConditionCheckerEnum<L> {
    /// How deep filters are nested in the checker.
    pub closed spec fn height(&self) -> nat
        decreases self,
    {
        match self {
            ConditionCheckerEnum::Filter(filter) => filter.height(),
            _ => 0,
        }
    }
}

impl<L> OptimizedFilter<L> {
    /// How deep filters are nested in the filter, itself included.
    pub closed spec fn height(&self) -> nat
        decreases self,
    {
        1 + larger(
            larger(tallest(self.should@), tallest(self.min_should@)),
            larger(tallest(self.must@), tallest(self.must_not@)),
        )
    }
}

/// None of `checkers` is deeper than the tallest.
pub(crate) proof fn lemma_tallest<L>(checkers: Seq<ConditionCheckerEnum<L>>, i: int)
    requires
        0 <= i < checkers.len(),
    ensures
        checkers[i].height() <= tallest(checkers),
    decreases checkers.len(),
{
    if i < checkers.len() - 1 {
        lemma_tallest(checkers.drop_last(), i);
    }
}

/// The tallest is as deep as before where every checker is.
pub(crate) proof fn lemma_tallest_update<L>(
    before: Seq<ConditionCheckerEnum<L>>,
    after: Seq<ConditionCheckerEnum<L>>,
)
    requires
        before.len() == after.len(),
        forall|i: int| 0 <= i < before.len() ==> (#[trigger] after[i]).height() == before[i].height(),
    ensures
        tallest(after) == tallest(before),
    decreases before.len(),
{
    if before.len() > 0 {
        lemma_tallest_update(before.drop_last(), after.drop_last());
    }
}

/// Where some checkers can answer, and the next ones as well, all of them can.
proof fn lemma_answer_both<L: ConditionChecker>(
    front: Seq<ConditionCheckerEnum<L>>,
    checkers: Seq<ConditionCheckerEnum<L>>,
)
    requires
        answer_in_turn(conditions_of(front), front.len() as int),
        answer_in_turn(conditions_of(checkers), checkers.len() as int),
    ensures
        answer_in_turn(conditions_of(front + checkers), (front + checkers).len() as int),
{
    assert forall|j: int| 0 <= j < (front + checkers).len() implies (#[trigger] conditions_of(
        front + checkers,
    )[j]).sometimes_answers() by {
        if j < front.len() {
            assert(conditions_of(front)[j].sometimes_answers());
        } else {
            assert(conditions_of(checkers)[j - front.len()].sometimes_answers());
        }
    }
}

/// Where some checkers can answer and one of the next ones ends in an error, it is the first of all
/// of them that does.
proof fn lemma_stops_between<L: ConditionChecker>(
    front: Seq<ConditionCheckerEnum<L>>,
    front_after: Seq<ConditionCheckerEnum<L>>,
    checkers: Seq<ConditionCheckerEnum<L>>,
    after: Seq<ConditionCheckerEnum<L>>,
    back: Seq<ConditionCheckerEnum<L>>,
    i: int,
    error: L::Error,
)
    requires
        front_after.len() == front.len(),
        answer_in_turn(conditions_of(front), front.len() as int),
        stops_at(checkers, after, i, error),
    ensures
        stops_at(front + checkers + back, front_after + after + back, front.len() + i, error),
{
    let all = conditions_of(front + checkers + back);
    assert forall|j: int| 0 <= j < front.len() + i implies (
    #[trigger] all[j]).sometimes_answers() by {
        if j < front.len() {
            assert(conditions_of(front)[j].sometimes_answers());
        } else {
            assert(conditions_of(checkers)[j - front.len()].sometimes_answers());
        }
    }
    assert(all[front.len() + i] == conditions_of(checkers)[i]);
}

/// The checkers can end as before where the one that was asked can.
pub(crate) proof fn lemma_outcomes_update<L: ConditionChecker>(
    before: Seq<ConditionCheckerEnum<L>>,
    after: Seq<ConditionCheckerEnum<L>>,
    conditions: Seq<Condition<L::Error>>,
    i: int,
)
    requires
        0 <= i < before.len(),
        after.len() == before.len(),
        after == before.update(i, after[i]),
        after[i].condition().batch_outcomes == before[i].condition().batch_outcomes,
        same_outcomes(conditions_of(before), conditions),
    ensures
        same_outcomes(conditions_of(after), conditions),
        after[i].condition().batch_outcomes == conditions[i].batch_outcomes,
{
    assert forall|j: int| 0 <= j < after.len() implies (#[trigger] conditions_of(
        after,
    )[j]).batch_outcomes == conditions[j].batch_outcomes by {
        assert(conditions_of(before)[j].batch_outcomes == conditions[j].batch_outcomes);
    }
    assert(conditions_of(after)[i].batch_outcomes == conditions[i].batch_outcomes);
}

impl<L: ConditionChecker> ConditionChecker for ConditionCheckerEnum<L> {
    type Error = L::Error;

    open spec fn condition(&self) -> Condition<L::Error>
        decreases self,
    {
        match self {
            ConditionCheckerEnum::Filter(filter) => filter.model().condition(),
            ConditionCheckerEnum::TestBits(bits) => bits.bit_is_set::<L::Error>(),
            ConditionCheckerEnum::Index(checker) => checker.condition(),
        }
    }

    open spec fn obeys_partition() -> bool {
        L::obeys_partition()
    }

    fn check(&self, point_id: PointOffsetType) -> (answer: Result<bool, L::Error>)
        ensures
            match self {
                ConditionCheckerEnum::Filter(filter) => filter.condition().may_answer(
                    point_id,
                    answer,
                ),
                ConditionCheckerEnum::TestBits(bits) => answer == Ok::<bool, L::Error>(
                    point_id < bits.0@.len() && bits.0@[point_id as int],
                ),
                ConditionCheckerEnum::Index(checker) => checker.condition().may_answer(
                    point_id,
                    answer,
                ),
            },
        decreases self, 0nat,
    {
        match self {
            ConditionCheckerEnum::Filter(filter) => filter.check(point_id),
            ConditionCheckerEnum::TestBits(bits) => Ok(bits.test(point_id)),
            ConditionCheckerEnum::Index(checker) => checker.check(point_id),
        }
    }

    fn check_batched<K: CheckItem>(&mut self, ids: &mut [K], select: Select, rest: Rest) -> (answer:
        Result<usize, L::Error>)
        ensures
            final(self).height() == old(self).height(),
            match (*old(self), *final(self)) {
                (
                    ConditionCheckerEnum::Filter(filter),
                    ConditionCheckerEnum::Filter(after),
                ) => {
                    &&& filter.may_become(
                        &after,
                        (BatchCall { points: points_of(old(ids)@), select, rest }),
                        answer,
                    )
                    &&& L::obeys_partition() ==> filter.condition().may_partition(
                        old(ids)@,
                        final(ids)@,
                        select,
                        rest,
                        answer,
                    )
                },
                (ConditionCheckerEnum::TestBits(bits), ConditionCheckerEnum::TestBits(after)) => {
                    &&& after == bits
                    &&& final(ids)@.to_multiset() == old(ids)@.to_multiset()
                    &&& answer matches Ok(n) && forall|item: K| #[trigger]
                        final(ids)@.take(n as int).to_multiset().count(item) == if (item.point()
                            < bits.0@.len() && bits.0@[item.point() as int]) == (select is Match) {
                            old(ids)@.to_multiset().count(item)
                        } else {
                            0
                        }
                },
                (ConditionCheckerEnum::Index(checker), ConditionCheckerEnum::Index(after)) => {
                    &&& checker.condition().may_end(answer)
                    &&& after.condition().batch_outcomes == checker.condition().batch_outcomes
                    &&& L::obeys_partition() ==> after.condition() == checker.condition()
                    &&& L::obeys_partition() ==> checker.condition().may_partition(
                        old(ids)@,
                        final(ids)@,
                        select,
                        rest,
                        answer,
                    )
                },
                _ => false,
            },
        decreases old(self).height(), 3nat,
    {
        match self {
            ConditionCheckerEnum::Filter(filter) => filter.check_batched(ids, select, rest),
            ConditionCheckerEnum::TestBits(bits) => Ok(bits.partition(ids, select)),
            ConditionCheckerEnum::Index(checker) => checker.check_batched(ids, select, rest),
        }
    }
}

impl<L: ConditionChecker> ConditionChecker for OptimizedFilter<L> {
    type Error = L::Error;

    open spec fn condition(&self) -> Condition<L::Error> {
        self.model().condition()
    }

    open spec fn obeys_partition() -> bool {
        L::obeys_partition()
    }

    fn check(&self, point_id: PointOffsetType) -> (answer: Result<bool, L::Error>)
        ensures
            answer matches Ok(passes) ==> (passes <==> {
                &&& self.should().len() == 0 || exists|i: int|
                    0 <= i < self.should().len() && (
                    #[trigger] self.should()[i]).condition().matching.contains(point_id)
                &&& self.min_should_count() <= Set::new(
                    |i: int|
                        0 <= i < self.min_should().len()
                            && self.min_should()[i].condition().matching.contains(point_id),
                ).len()
                &&& forall|i: int|
                    0 <= i < self.must().len() ==> (
                    #[trigger] self.must()[i]).condition().matching.contains(point_id)
                &&& forall|i: int|
                    0 <= i < self.must_not().len() ==> !(
                    #[trigger] self.must_not()[i]).condition().matching.contains(point_id)
            }),
        decreases self, 1nat,
    {
        proof {
            law_filter_matches(*self, point_id);
        }
        self.check_clauses(point_id)
    }

    fn check_batched<K: CheckItem>(&mut self, ids: &mut [K], select: Select, rest: Rest) -> (answer:
        Result<usize, L::Error>)
        ensures
            final(self).height() == old(self).height(),
            L::obeys_partition() && select is NonMatch && answer is Ok
                ==> final(ids)@.to_multiset() == old(ids)@.to_multiset(),
            old(self).may_become(
                final(self),
                (BatchCall { points: points_of(old(ids)@), select, rest }),
                answer,
            ),
            L::obeys_partition() && answer is Ok && old(self).model().counts_min_should()
                ==> old(self).model().counts_are(old(ids)@, select, final(self).scratch()),
            old(self).model().asks_nothing() ==> {
                &&& final(ids)@ == old(ids)@
                &&& answer matches Ok(n) && n == old(self).model().undecided_count(
                    select,
                    old(ids)@.len(),
                )
            },
            L::obeys_partition() ==> (answer matches Ok(n) ==> forall|item: K| #[trigger]
                final(ids)@.take(n as int).to_multiset().count(item) == if ({
                    &&& old(self).should().len() == 0 || exists|i: int|
                        0 <= i < old(self).should().len() && (
                        #[trigger] old(self).should()[i]).condition().matching.contains(item.point())
                    &&& old(self).min_should_count() <= Set::new(
                        |i: int|
                            0 <= i < old(self).min_should().len()
                                && old(self).min_should()[i].condition().matching.contains(item.point()),
                    ).len()
                    &&& forall|i: int|
                        0 <= i < old(self).must().len() ==> (
                        #[trigger] old(self).must()[i]).condition().matching.contains(item.point())
                    &&& forall|i: int|
                        0 <= i < old(self).must_not().len() ==> !(
                        #[trigger] old(self).must_not()[i]).condition().matching.contains(item.point())
                } == (select is Match)) {
                    old(ids)@.to_multiset().count(item)
                } else {
                    0
                }),
        decreases old(self).height(), 2nat,
    {
        match select {
            Select::Match => {
                let answer: Result<usize, L::Error> = self.select_match(ids, rest);
                proof {
                    if L::obeys_partition() {
                        old(self).lemma_selects_by_clauses(old(ids)@, ids@, select, rest, answer);
                    }
                }
                answer
            },
            Select::NonMatch => {
                let answer: Result<usize, L::Error> = self.select_non_match(ids);
                proof {
                    let call = BatchCall { points: points_of(old(ids)@), select, rest };
                    let keep = BatchCall { rest: Rest::Keep, ..call };
                    old(self).model().lemma_non_match_keeps(call);
                    if answer is Err {
                        let error = answer->Err_0;
                        let i = choose|i: int| old(self).stopped_at(&*self, keep, i, error);
                        assert(old(self).stopped_at(&*self, call, i, error));
                    }
                    if L::obeys_partition() {
                        old(self).lemma_selects_by_clauses(
                            old(ids)@,
                            ids@,
                            select,
                            Rest::Keep,
                            answer,
                        );
                    }
                }
                answer
            },
        }
    }
}

impl<L: ConditionChecker> OptimizedFilter<L> {
    /// The items at the front after a batched check are those whose points meet the clauses, or
    /// those whose points do not.
    proof fn lemma_selects_by_clauses<K: CheckItem>(
        &self,
        before: Seq<K>,
        after: Seq<K>,
        select: Select,
        rest: Rest,
        answer: Result<usize, L::Error>,
    )
        requires
            self.condition().may_partition(before, after, select, rest, answer),
        ensures
            answer matches Ok(n) ==> forall|item: K| #[trigger]
                after.take(n as int).to_multiset().count(item) == if ({
                    &&& self.should().len() == 0 || exists|i: int|
                        0 <= i < self.should().len() && (
                        #[trigger] self.should()[i]).condition().matching.contains(item.point())
                    &&& self.min_should_count() <= Set::new(
                        |i: int|
                            0 <= i < self.min_should().len()
                                && self.min_should()[i].condition().matching.contains(item.point()),
                    ).len()
                    &&& forall|i: int|
                        0 <= i < self.must().len() ==> (
                        #[trigger] self.must()[i]).condition().matching.contains(item.point())
                    &&& forall|i: int|
                        0 <= i < self.must_not().len() ==> !(
                        #[trigger] self.must_not()[i]).condition().matching.contains(item.point())
                } == (select is Match)) {
                    before.to_multiset().count(item)
                } else {
                    0
                },
    {
        law_batch_selects_members(self.condition(), before, after, select, rest, answer);
        assert forall|item: K, n: int|
            answer is Ok && n == answer->Ok_0 implies #[trigger] after.take(n).to_multiset().count(
            item,
        ) == if ({
                    &&& self.should().len() == 0 || exists|i: int|
                        0 <= i < self.should().len() && (
                        #[trigger] self.should()[i]).condition().matching.contains(item.point())
                    &&& self.min_should_count() <= Set::new(
                        |i: int|
                            0 <= i < self.min_should().len()
                                && self.min_should()[i].condition().matching.contains(item.point()),
                    ).len()
                    &&& forall|i: int|
                        0 <= i < self.must().len() ==> (
                        #[trigger] self.must()[i]).condition().matching.contains(item.point())
                    &&& forall|i: int|
                        0 <= i < self.must_not().len() ==> !(
                        #[trigger] self.must_not()[i]).condition().matching.contains(item.point())
                } == (select is Match)) {
            before.to_multiset().count(item)
        } else {
            0
        } by {
            law_filter_matches(*self, item.point());
        }
    }

    /// Asks the clauses one after the other whether the point meets them, up to the first that it
    /// does not.
    fn check_clauses(&self, point_id: PointOffsetType) -> (answer: Result<bool, L::Error>)
        ensures
            self.condition().may_answer(point_id, answer),
        decreases self, 0nat,
    {
        let ghost model = self.model();

        // `should`: at least one matches, if not empty.
        let mut met: bool = self.should.is_empty();
        let mut i: usize = 0;
        while !met && i < self.should.len()
            invariant
                model == self.model(),
                i <= self.should@.len(),
                each_answers(model.should.take(i as int), point_id),
                !met ==> model.should.len() > 0,
                met ==> model.should.len() == 0 || matching_any(
                    model.should.take(i as int),
                ).contains(point_id),
                !met ==> !matching_any(model.should.take(i as int)).contains(point_id),
            decreases self.should@.len() - i,
        {
            assert(model.asks_should(point_id, i as int));
            proof {
                lemma_one_more(model.should, i as int, Select::Match);
            }
            met = match self.should[i].check(point_id) {
                Ok(matched) => matched,
                Err(error) => return Err(error),
            };
            i = i + 1;
            assert(each_answers(model.should.take(i as int), point_id)) by {
                lemma_one_more_answers(model.should, i - 1, point_id);
            }
        }
        proof {
            assert forall|j: int| #[trigger] model.asks_should(
                point_id,
                j,
            ) implies model.should[j].can_answer(point_id) by {
                if i <= j {
                    lemma_any_grows(model.should, i as int, j, point_id);
                }
                assert(model.should.take(i as int)[j] == model.should[j]);
            }
            if met && model.should.len() > 0 {
                lemma_any_grows(model.should, i as int, model.should.len() as int, point_id);
            }
            assert(model.should.take(model.should.len() as int) =~= model.should);
        }
        if !met {
            return Ok(false);
        }

        // `min_should`: at least `min_should_count` match.
        let mut remaining: usize = self.min_should_count;
        let mut i: usize = 0;
        assert(model.min_should.take(0).len() == 0);
        while remaining > 0
            invariant
                model == self.model(),
                i <= self.min_should@.len(),
                model.should_answers(point_id),
                model.meets_should().contains(point_id),
                each_answers(model.min_should.take(i as int), point_id),
                remaining + match_count(model.min_should.take(i as int), point_id)
                    == model.min_should_count,
            decreases self.min_should@.len() - i,
        {
            if i >= self.min_should.len() {
                // Not enough conditions match.
                assert(model.min_should.take(i as int) =~= model.min_should);
                return Ok(false);
            }
            assert(model.asks_min_should(point_id, i as int));
            let matched: bool = match self.min_should[i].check(point_id) {
                Ok(matched) => matched,
                Err(error) => return Err(error),
            };
            if matched {
                remaining = remaining - 1;
            }
            assert(model.min_should.take(i + 1).drop_last() =~= model.min_should.take(i as int));
            i = i + 1;
            assert(each_answers(model.min_should.take(i as int), point_id)) by {
                lemma_one_more_answers(model.min_should, i - 1, point_id);
            }
        }
        proof {
            lemma_count_grows(model.min_should, i as int, point_id);
            assert forall|j: int| #[trigger] model.asks_min_should(
                point_id,
                j,
            ) implies model.min_should[j].can_answer(point_id) by {
                if i <= j {
                    lemma_count_grows(model.min_should.take(j), i as int, point_id);
                    assert(model.min_should.take(j).take(i as int) =~= model.min_should.take(
                        i as int,
                    ));
                }
                assert(model.min_should.take(i as int)[j] == model.min_should[j]);
            }
        }

        // `must`: all match.
        let mut i: usize = 0;
        while i < self.must.len()
            invariant
                model == self.model(),
                i <= self.must@.len(),
                model.should_answers(point_id),
                model.min_should_answers(point_id),
                model.meets_should().contains(point_id),
                model.meets_min_should().contains(point_id),
                each_answers(model.must.take(i as int), point_id),
                matching_all(model.must.take(i as int)).contains(point_id),
            decreases self.must@.len() - i,
        {
            assert(model.asks_must(point_id, i as int));
            let matched: bool = match self.must[i].check(point_id) {
                Ok(matched) => matched,
                Err(error) => return Err(error),
            };
            proof {
                lemma_one_more(model.must, i as int, Select::Match);
                lemma_one_more_answers(model.must, i as int, point_id);
            }
            if !matched {
                proof {
                    assert(!model.must[i as int].matching.contains(point_id));
                    assert forall|j: int| #[trigger] model.asks_must(
                        point_id,
                        j,
                    ) implies model.must[j].can_answer(point_id) by {
                        if i < j {
                            assert(model.must.take(j)[i as int] == model.must[i as int]);
                        }
                        assert(model.must.take(i + 1)[j] == model.must[j]);
                    }
                }
                return Ok(false);
            }
            i = i + 1;
        }
        assert(model.must.take(i as int) =~= model.must);

        // `must_not`: none match.
        let mut i: usize = 0;
        while i < self.must_not.len()
            invariant
                model == self.model(),
                i <= self.must_not@.len(),
                model.should_answers(point_id),
                model.min_should_answers(point_id),
                model.must_answers(point_id),
                model.meets_should().contains(point_id),
                model.meets_min_should().contains(point_id),
                model.meets_must().contains(point_id),
                each_answers(model.must_not.take(i as int), point_id),
                !matching_any(model.must_not.take(i as int)).contains(point_id),
            decreases self.must_not@.len() - i,
        {
            assert(model.asks_must_not(point_id, i as int));
            let matched: bool = match self.must_not[i].check(point_id) {
                Ok(matched) => matched,
                Err(error) => return Err(error),
            };
            proof {
                lemma_one_more(model.must_not, i as int, Select::Match);
                lemma_one_more_answers(model.must_not, i as int, point_id);
            }
            if matched {
                proof {
                    assert(model.must_not[i as int].matching.contains(point_id));
                    assert forall|j: int| #[trigger] model.asks_must_not(
                        point_id,
                        j,
                    ) implies model.must_not[j].can_answer(point_id) by {
                        if i < j {
                            lemma_any_grows(model.must_not, i + 1, j, point_id);
                        }
                        assert(model.must_not.take(i + 1)[j] == model.must_not[j]);
                    }
                }
                return Ok(false);
            }
            i = i + 1;
        }
        assert(model.must_not.take(i as int) =~= model.must_not);
        Ok(true)
    }

    /// A batched check by the filter, left as `after`, ended in `error`, as it can.
    spec fn failed(&self, after: &Self, call: BatchCall, error: L::Error) -> bool {
        &&& self.stopped(after, call, error)
        &&& self.condition().sometimes_fails(error)
        &&& L::obeys_partition() ==> self.model().can_fail_batch(call, error)
    }

    /// Where `front` can answer and number `i` of `checkers` behind it ended in `error`, a batched
    /// check stopped there.
    proof fn lemma_failed(
        &self,
        after: &Self,
        call: BatchCall,
        front: Seq<ConditionCheckerEnum<L>>,
        front_after: Seq<ConditionCheckerEnum<L>>,
        checkers: Seq<ConditionCheckerEnum<L>>,
        checkers_after: Seq<ConditionCheckerEnum<L>>,
        back: Seq<ConditionCheckerEnum<L>>,
        i: int,
        error: L::Error,
    )
        requires
            self.asked() == front + checkers + back,
            after.asked() == front_after + checkers_after + back,
            front_after.len() == front.len(),
            answer_in_turn(conditions_of(front), front.len() as int),
            stops_at(checkers, checkers_after, i, error),
            if front.len() + i < self.model().min_should_start() {
                after.scratch() == self.scratch()
            } else {
                after.scratch().len() == self.model().threshold(call.select)
            },
            L::obeys_partition() ==> self.model().fails_at(call, front.len() + i, error),
        ensures
            self.failed(after, call, error),
    {
        lemma_stops_between(front, front_after, checkers, checkers_after, back, i, error);
        self.lemma_asked();
        assert(self.stopped_at(after, call, front.len() + i, error));
        assert(fail_in_turn(self.model().asked(), front.len() + i, error));
        assert(self.model().batch_outcomes().contains(Err(error)));
    }

    /// A batched check that ended in `error` in `must` stopped there.
    proof fn lemma_failed_in_must(&self, after: &Self, call: BatchCall, error: L::Error)
        requires
            after.model().same_shape(self.model()),
            after.must_not() == self.must_not(),
            after.should() == self.should(),
            after.min_should() == self.min_should(),
            after.scratch() == self.scratch(),
            match call.select {
                Select::Match => all_stopped(
                    self.must(),
                    after.must(),
                    call.points,
                    Select::Match,
                    call.rest,
                    error,
                ),
                Select::NonMatch => any_stopped(
                    self.must(),
                    after.must(),
                    call.points,
                    Select::NonMatch,
                    Rest::Keep,
                    error,
                ),
            },
        ensures
            self.failed(after, call, error),
    {
        let i = choose|i: int| #[trigger]
            stops_at(self.must(), after.must(), i, error) && (L::obeys_partition()
                ==> self.model().must_fails_batch(call, i, error));
        let front = Seq::<ConditionCheckerEnum<L>>::empty();
        let front_after = Seq::<ConditionCheckerEnum<L>>::empty();
        let back = self.must_not() + self.should() + self.counted();
        assert(self.asked() =~= front + self.must() + back);
        assert(after.asked() =~= front_after + after.must() + back);
        self.lemma_failed(
            after,
            call,
            front,
            front_after,
            self.must(),
            after.must(),
            back,
            i,
            error,
        );
    }

    /// A batched check that ended in `error` in `must_not` stopped there.
    proof fn lemma_failed_in_must_not(&self, after: &Self, call: BatchCall, error: L::Error)
        requires
            after.model().same_shape(self.model()),
            after.should() == self.should(),
            after.min_should() == self.min_should(),
            after.scratch() == self.scratch(),
            answer_in_turn(conditions_of(self.must()), self.must().len() as int),
            L::obeys_partition() ==> self.model().must_answers_batch(call),
            match call.select {
                Select::Match => all_stopped(
                    self.must_not(),
                    after.must_not(),
                    call.points.intersect(self.model().meets_must()),
                    Select::NonMatch,
                    call.rest,
                    error,
                ),
                Select::NonMatch => any_stopped(
                    self.must_not(),
                    after.must_not(),
                    call.points.intersect(self.model().meets_must()),
                    Select::Match,
                    Rest::Keep,
                    error,
                ),
            },
        ensures
            self.failed(after, call, error),
    {
        let i = choose|i: int| #[trigger]
            stops_at(self.must_not(), after.must_not(), i, error) && (L::obeys_partition()
                ==> self.model().must_not_fails_batch(call, i, error));
        let front = self.must();
        let front_after = after.must();
        let back = self.should() + self.counted();
        assert(self.asked() =~= front + self.must_not() + back);
        assert(after.asked() =~= front_after + after.must_not() + back);
        self.lemma_failed(
            after,
            call,
            front,
            front_after,
            self.must_not(),
            after.must_not(),
            back,
            i,
            error,
        );
    }

    /// A batched check that ended in `error` in `should` stopped there.
    proof fn lemma_failed_in_should(&self, after: &Self, call: BatchCall, error: L::Error)
        requires
            after.model().same_shape(self.model()),
            after.min_should() == self.min_should(),
            after.scratch() == self.scratch(),
            answer_in_turn(conditions_of(self.must()), self.must().len() as int),
            answer_in_turn(conditions_of(self.must_not()), self.must_not().len() as int),
            L::obeys_partition() ==> self.model().must_answers_batch(call),
            L::obeys_partition() ==> self.model().must_not_answers_batch(call),
            match call.select {
                Select::Match => any_stopped(
                    self.should(),
                    after.should(),
                    self.model().left_for_should(call.points),
                    Select::Match,
                    call.rest,
                    error,
                ),
                Select::NonMatch => all_stopped(
                    self.should(),
                    after.should(),
                    self.model().left_for_should(call.points),
                    Select::NonMatch,
                    Rest::Keep,
                    error,
                ),
            },
        ensures
            self.failed(after, call, error),
    {
        let i = choose|i: int| #[trigger]
            stops_at(self.should(), after.should(), i, error) && (L::obeys_partition()
                ==> self.model().should_fails_batch(call, i, error));
        let front = self.must() + self.must_not();
        let front_after = after.must() + after.must_not();
        let back = self.counted();
        assert(self.asked() =~= front + self.should() + back);
        assert(after.asked() =~= front_after + after.should() + back);
        lemma_answer_both(self.must(), self.must_not());
        self.lemma_failed(
            after,
            call,
            front,
            front_after,
            self.should(),
            after.should(),
            back,
            i,
            error,
        );
    }

    /// A batched check that ended in `error` in `min_should` stopped there.
    proof fn lemma_failed_in_min_should(&self, after: &Self, call: BatchCall, error: L::Error)
        requires
            after.model().same_shape(self.model()),
            self.model().counts_min_should(),
            after.scratch().len() == self.model().threshold(call.select),
            answer_in_turn(conditions_of(self.must()), self.must().len() as int),
            answer_in_turn(conditions_of(self.must_not()), self.must_not().len() as int),
            answer_in_turn(conditions_of(self.should()), self.should().len() as int),
            L::obeys_partition() ==> self.model().must_answers_batch(call),
            L::obeys_partition() ==> self.model().must_not_answers_batch(call),
            L::obeys_partition() ==> self.model().should_answers_batch(call),
            count_stopped(
                self.min_should(),
                after.min_should(),
                self.model().left_for_min_should(call.points),
                call.select,
                self.model().threshold(call.select),
                error,
            ),
        ensures
            self.failed(after, call, error),
    {
        let i = choose|i: int| #[trigger]
            stops_at(self.min_should(), after.min_should(), i, error) && (L::obeys_partition()
                ==> self.model().min_should_fails_batch(call, i, error));
        let front = self.must() + self.must_not() + self.should();
        let front_after = after.must() + after.must_not() + after.should();
        let back = Seq::<ConditionCheckerEnum<L>>::empty();
        assert(self.asked() =~= front + self.min_should() + back);
        assert(after.asked() =~= front_after + after.min_should() + back);
        lemma_answer_both(self.must(), self.must_not());
        lemma_answer_both(self.must() + self.must_not(), self.should());
        self.lemma_failed(
            after,
            call,
            front,
            front_after,
            self.min_should(),
            after.min_should(),
            back,
            i,
            error,
        );
    }

    /// Where the checkers of every clause that a batched check asks can answer, it may come to an
    /// answer.
    proof fn lemma_answers(&self)
        requires
            answer_in_turn(conditions_of(self.must()), self.must().len() as int),
            answer_in_turn(conditions_of(self.must_not()), self.must_not().len() as int),
            answer_in_turn(conditions_of(self.should()), self.should().len() as int),
            answer_in_turn(conditions_of(self.counted()), self.counted().len() as int),
        ensures
            self.condition().sometimes_answers(),
    {
        lemma_answer_both(self.must(), self.must_not());
        lemma_answer_both(self.must() + self.must_not(), self.should());
        lemma_answer_both(self.must() + self.must_not() + self.should(), self.counted());
        self.lemma_asked();
        assert(self.model().batch_outcomes().contains(Ok(())));
    }

    /// Moves the items that pass the filter to the front of `ids` and returns how many they are.
    fn select_match<K: CheckItem>(&mut self, ids: &mut [K], rest: Rest) -> (answer: Result<
        usize,
        L::Error,
    >)
        ensures
            final(self).height() == old(self).height(),
            final(ids)@.len() == old(ids)@.len(),
            answer matches Ok(n) ==> n <= final(ids)@.len(),
            L::obeys_partition() ==> old(self).condition().may_partition(
                old(ids)@,
                final(ids)@,
                Select::Match,
                rest,
                answer,
            ),
            final(self).model().batch_outcomes() == old(self).model().batch_outcomes(),
            old(self).condition().may_end(answer),
            old(self).may_become(
                final(self),
                (BatchCall { points: points_of(old(ids)@), select: Select::Match, rest }),
                answer,
            ),
            L::obeys_partition() && answer is Ok && old(self).model().counts_min_should()
                ==> old(self).model().counts_are(old(ids)@, Select::Match, final(self).scratch()),
            old(self).model().asks_nothing() ==> {
                &&& final(ids)@ == old(ids)@
                &&& answer matches Ok(n) && n == old(self).model().undecided_count(
                    Select::Match,
                    old(ids)@.len(),
                )
            },
        decreases old(self).height(), 1nat,
    {
        let ghost model = self.model();
        let ghost before = ids@;
        let ghost call = BatchCall { points: points_of(before), select: Select::Match, rest };

        // `must`: matches to the front.
        let mut hi: usize = match select_by_all(&mut self.must, ids, Select::Match, rest) {
            Ok(n) => n,
            Err(error) => {
                proof {
                    old(self).lemma_failed_in_must(&*self, call, error);
                    self.model().lemma_same_outcomes(model);
                }
                return Err(error);
            },
        };
        assert(L::obeys_partition() ==> self.model() =~= model);

        // `must_not`: non-matches to the front.
        let ghost current = ids@;
        proof {
            if L::obeys_partition() {
                assert(current.subrange(0, hi as int) =~= current.take(hi as int));
                lemma_points_of_picked(current.subrange(0, hi as int), before, model.meets_must());
            }
        }
        let part = window(ids, 0, hi);
        let answer: Result<usize, L::Error> = select_by_all(
            &mut self.must_not,
            part,
            Select::NonMatch,
            rest,
        );
        let ghost changed = part@;
        assert(L::obeys_partition() ==> self.model() =~= model);
        match answer {
            Ok(n) => {
                proof {
                    if L::obeys_partition() {
                        lemma_narrow(
                            current,
                            changed,
                            ids@,
                            hi as int,
                            n as int,
                            before,
                            model.meets_must(),
                            model.meets_must_not(),
                        );
                    }
                }
                hi = n;
            },
            Err(error) => {
                proof {
                    old(self).lemma_failed_in_must_not(&*self, call, error);
                    self.model().lemma_same_outcomes(model);
                }
                return Err(error);
            },
        }

        assert(model.asks_nothing() ==> ids@ =~= before && hi == before.len());

        // `should`: the union of the matches.
        let ghost survivors = model.meets_must().intersect(model.meets_must_not());
        if !self.should.is_empty() {
            let ghost current = ids@;
            proof {
                if L::obeys_partition() {
                    assert(current.subrange(0, hi as int) =~= current.take(hi as int));
                    lemma_points_of_picked(current.subrange(0, hi as int), before, survivors);
                }
            }
            let part = window(ids, 0, hi);
            let answer: Result<usize, L::Error> = select_by_any(
                &mut self.should,
                part,
                Select::Match,
                rest,
            );
            let ghost changed = part@;
            assert(L::obeys_partition() ==> self.model() =~= model);
            match answer {
                Ok(n) => {
                    proof {
                        if L::obeys_partition() {
                            lemma_narrow(
                                current,
                                changed,
                                ids@,
                                hi as int,
                                n as int,
                                before,
                                survivors,
                                model.meets_should(),
                            );
                        }
                    }
                    hi = n;
                },
                Err(error) => {
                    proof {
                        old(self).lemma_failed_in_should(&*self, call, error);
                        self.model().lemma_same_outcomes(model);
                    }
                    return Err(error);
                },
            }
        } else {
            assert(survivors.intersect(model.meets_should()) =~= survivors);
        }

        // `min_should`: counting sort, survivors to the front.
        let ghost survivors = survivors.intersect(model.meets_should());
        if self.min_should_count > 0 {
            let k: usize = self.min_should_count;
            if k > self.min_should.len() {
                hi = 0;
                proof {
                    if L::obeys_partition() {
                        model.lemma_min_should_unmet();
                        to_multiset_len(ids@.take(0));
                        assert(ids@.take(0).to_multiset() =~= items_on(before, model.matching()));
                    }
                }
            } else {
                let ghost current = ids@;
                proof {
                    if L::obeys_partition() {
                        assert(current.subrange(0, hi as int) =~= current.take(hi as int));
                        lemma_points_of_picked(current.subrange(0, hi as int), before, survivors);
                    }
                }
                let part = window(ids, 0, hi);
                let answer: Result<(), L::Error> = counting_sort(
                    &mut self.min_should,
                    part,
                    k,
                    Select::Match,
                    &mut self.scratch,
                );
                let ghost changed = part@;
                assert(L::obeys_partition() ==> self.model() =~= model);
                match answer {
                    Ok(_) => {
                        let n: usize = self.scratch[0];
                        proof {
                            if L::obeys_partition() {
                                model.lemma_min_should_side();
                                lemma_counts(
                                    current.subrange(0, hi as int),
                                    changed,
                                    self.scratch@,
                                    before,
                                    survivors,
                                    model.min_should,
                                    Select::Match,
                                    model.threshold(Select::Match),
                                );
                                lemma_narrow(
                                    current,
                                    changed,
                                    ids@,
                                    hi as int,
                                    n as int,
                                    before,
                                    survivors,
                                    model.meets_min_should(),
                                );
                                assert(survivors.intersect(model.meets_min_should())
                                    =~= model.matching());
                            }
                        }
                        hi = n;
                    },
                    Err(error) => {
                        proof {
                            old(self).lemma_failed_in_min_should(&*self, call, error);
                            self.model().lemma_same_outcomes(model);
                        }
                        return Err(error);
                    },
                }
            }
        } else {
            assert(survivors =~= model.matching());
        }
        proof {
            self.model().lemma_same_outcomes(model);
            old(self).lemma_answers();
        }
        Ok(hi)
    }

    /// Moves the items that the filter rejects to the front of `ids`, keeps the others behind
    /// them, and returns how many were rejected.
    fn select_non_match<K: CheckItem>(&mut self, ids: &mut [K]) -> (answer: Result<
        usize,
        L::Error,
    >)
        ensures
            final(self).height() == old(self).height(),
            final(ids)@.len() == old(ids)@.len(),
            answer matches Ok(n) ==> n <= final(ids)@.len(),
            L::obeys_partition() ==> old(self).condition().may_partition(
                old(ids)@,
                final(ids)@,
                Select::NonMatch,
                Rest::Keep,
                answer,
            ),
            final(self).model().batch_outcomes() == old(self).model().batch_outcomes(),
            old(self).condition().may_end(answer),
            old(self).may_become(
                final(self),
                (BatchCall { points: points_of(old(ids)@), select: Select::NonMatch, rest: Rest::Keep }),
                answer,
            ),
            L::obeys_partition() && answer is Ok && old(self).model().counts_min_should()
                ==> old(self).model().counts_are(old(ids)@, Select::NonMatch, final(self).scratch()),
            old(self).model().asks_nothing() ==> {
                &&& final(ids)@ == old(ids)@
                &&& answer matches Ok(n) && n == old(self).model().undecided_count(
                    Select::NonMatch,
                    old(ids)@.len(),
                )
            },
        decreases old(self).height(), 1nat,
    {
        let ghost model = self.model();
        let ghost before = ids@;
        let ghost call = BatchCall {
            points: points_of(before),
            select: Select::NonMatch,
            rest: Rest::Keep,
        };
        proof {
            if L::obeys_partition() {
                lemma_parted_start(before);
            }
        }

        // `must`: the items that fail any condition.
        let len: usize = ids.len();
        let mut f: usize = match select_by_any(
            &mut self.must,
            ids,
            Select::NonMatch,
            Rest::Keep,
        ) {
            Ok(n) => n,
            Err(error) => {
                proof {
                    old(self).lemma_failed_in_must(&*self, call, error);
                    self.model().lemma_same_outcomes(model);
                }
                return Err(error);
            },
        };
        assert(L::obeys_partition() ==> self.model() =~= model);
        proof {
            if L::obeys_partition() {
                assert(before.subrange(0, len as int) =~= before);
                assert(ids@ =~= before.take(0) + ids@ + before.skip(len as int));
                lemma_widen(
                    before,
                    ids@,
                    ids@,
                    0,
                    f as int,
                    before,
                    Set::full(),
                    model.meets_must().complement(),
                );
                assert(Set::full().difference(model.meets_must().complement()) =~= model.meets_must());
            }
        }

        // `must_not`: the items that match any condition.
        let ghost current = ids@;
        proof {
            if L::obeys_partition() {
                assert(current.subrange(f as int, len as int) =~= current.skip(f as int));
                lemma_points_of_picked(current.skip(f as int), before, model.meets_must());
            }
        }
        let part = window(ids, f, len);
        let answer: Result<usize, L::Error> = select_by_any(
            &mut self.must_not,
            part,
            Select::Match,
            Rest::Keep,
        );
        let ghost changed = part@;
        assert(L::obeys_partition() ==> self.model() =~= model);
        let ghost survivors = model.meets_must().intersect(model.meets_must_not());
        match answer {
            Ok(n) => {
                proof {
                    if L::obeys_partition() {
                        lemma_widen(
                            current,
                            changed,
                            ids@,
                            f as int,
                            n as int,
                            before,
                            model.meets_must(),
                            matching_any(model.must_not),
                        );
                        assert(model.meets_must().difference(matching_any(model.must_not))
                            =~= survivors);
                    }
                }
                f = f + n;
            },
            Err(error) => {
                proof {
                    old(self).lemma_failed_in_must_not(&*self, call, error);
                    self.model().lemma_same_outcomes(model);
                }
                return Err(error);
            },
        }

        assert(model.asks_nothing() ==> ids@ =~= before && f == 0);

        // `should`: the items that match no condition.
        if !self.should.is_empty() {
            let ghost current = ids@;
            proof {
                if L::obeys_partition() {
                    assert(current.subrange(f as int, len as int) =~= current.skip(f as int));
                    lemma_points_of_picked(current.skip(f as int), before, survivors);
                }
            }
            let part = window(ids, f, len);
            let answer: Result<usize, L::Error> = select_by_all(
                &mut self.should,
                part,
                Select::NonMatch,
                Rest::Keep,
            );
            let ghost changed = part@;
            assert(L::obeys_partition() ==> self.model() =~= model);
            match answer {
                Ok(n) => {
                    proof {
                        if L::obeys_partition() {
                            lemma_widen(
                                current,
                                changed,
                                ids@,
                                f as int,
                                n as int,
                                before,
                                survivors,
                                model.meets_should().complement(),
                            );
                            assert(survivors.difference(model.meets_should().complement())
                                =~= survivors.intersect(model.meets_should()));
                        }
                    }
                    f = f + n;
                },
                Err(error) => {
                    proof {
                        old(self).lemma_failed_in_should(&*self, call, error);
                        self.model().lemma_same_outcomes(model);
                    }
                    return Err(error);
                },
            }
        } else {
            assert(survivors.intersect(model.meets_should()) =~= survivors);
        }

        // `min_should`: fewer than `k` conditions match, so at least `len - k + 1` do not.
        let ghost survivors = survivors.intersect(model.meets_should());
        if self.min_should_count > 0 {
            let k: usize = self.min_should_count;
            let conditions: usize = self.min_should.len();
            if k > conditions {
                proof {
                    if L::obeys_partition() {
                        lemma_parted_keeps(ids@, f as int, before, survivors);
                        model.lemma_min_should_unmet();
                        assert(ids@.take(len as int) =~= ids@);
                        assert(ids@.to_multiset() =~= items_on(before, model.matching().complement()));
                    }
                }
                f = len;
            } else {
                let ghost current = ids@;
                proof {
                    if L::obeys_partition() {
                        assert(current.subrange(f as int, len as int) =~= current.skip(f as int));
                        lemma_points_of_picked(current.skip(f as int), before, survivors);
                    }
                }
                let part = window(ids, f, len);
                let answer: Result<(), L::Error> = counting_sort(
                    &mut self.min_should,
                    part,
                    conditions - k + 1,
                    Select::NonMatch,
                    &mut self.scratch,
                );
                let ghost changed = part@;
                assert(L::obeys_partition() ==> self.model() =~= model);
                match answer {
                    Ok(_) => {
                        let n: usize = self.scratch[0];
                        proof {
                            if L::obeys_partition() {
                                model.lemma_min_should_side();
                                lemma_counts(
                                    current.subrange(f as int, len as int),
                                    changed,
                                    self.scratch@,
                                    before,
                                    survivors,
                                    model.min_should,
                                    Select::NonMatch,
                                    model.threshold(Select::NonMatch),
                                );
                                lemma_widen(
                                    current,
                                    changed,
                                    ids@,
                                    f as int,
                                    n as int,
                                    before,
                                    survivors,
                                    model.meets_min_should().complement(),
                                );
                                let left = survivors.difference(model.meets_min_should().complement());
                                assert(left =~= model.matching());
                                lemma_parted_keeps(ids@, f + n, before, left);
                            }
                        }
                        f = f + n;
                    },
                    Err(error) => {
                        proof {
                            old(self).lemma_failed_in_min_should(&*self, call, error);
                            self.model().lemma_same_outcomes(model);
                        }
                        return Err(error);
                    },
                }
            }
        } else {
            proof {
                if L::obeys_partition() {
                    assert(survivors =~= model.matching());
                    lemma_parted_keeps(ids@, f as int, before, survivors);
                }
            }
        }
        proof {
            self.model().lemma_same_outcomes(model);
            old(self).lemma_answers();
        }
        Ok(f)
    }
}

} // verus!
