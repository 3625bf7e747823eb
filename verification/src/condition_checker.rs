//! What a condition on points is, and what a checker of one owes its caller.

use vstd::multiset::Multiset;
use vstd::prelude::*;

verus! {

/// The offset of a point inside a segment.
pub type PointOffsetType = u32;

/// Which side of a condition a batched check moves to the front.
#[derive(Clone, Copy, Debug, PartialEq, Eq, Structural)]
pub enum Select {
    /// Items that match go to the front.
    Match,
    /// Items that do not match go to the front.
    NonMatch,
}

impl Select {
    /// Whether matching items are the selected ones.
    pub fn is_match(&self) -> (r: bool)
        ensures
            r == (*self is Match),
    {
        match self {
            Select::Match => true,
            Select::NonMatch => false,
        }
    }

    /// The points on the selected side, given the points that match.
    pub open spec fn side(self, matching: Set<PointOffsetType>) -> Set<PointOffsetType> {
        match self {
            Select::Match => matching,
            Select::NonMatch => matching.complement(),
        }
    }
}

/// What becomes of the items that were not selected.
#[derive(Clone, Copy, Debug, PartialEq, Eq, Structural)]
pub enum Rest {
    /// They stay in the buffer, behind the selected ones.
    Keep,
    /// They may be overwritten.
    Drop,
}

/// An item that stands for a point in a batch.
pub trait CheckItem: Copy {
    /// The point that the item stands for.
    spec fn point(&self) -> PointOffsetType;

    /// Returns the point that the item stands for.
    fn point_id(&self) -> (id: PointOffsetType)
        ensures
            id == self.point(),
    ;
}

impl CheckItem for PointOffsetType {
    open spec fn point(&self) -> PointOffsetType {
        *self
    }

    fn point_id(&self) -> (id: PointOffsetType)
        ensures
            id == *self,
    {
        *self
    }
}

/// The points that the items of a batch stand for.
pub open spec fn points_of<K: CheckItem>(items: Seq<K>) -> Set<PointOffsetType> {
    Set::new(
        |p: PointOffsetType|
            exists|i: int| 0 <= i < items.len() && (#[trigger] items[i]).point() == p,
    )
}

/// The items of a batch that stand for one of `points`, as often as they occur in it.
pub open spec fn items_on<K: CheckItem>(items: Seq<K>, points: Set<PointOffsetType>) -> Multiset<K> {
    items.to_multiset().filter(|k: K| points.contains(k.point()))
}

/// What a checker is asked by one batched call.
#[verifier::ext_equal]
pub struct BatchCall {
    /// The points that the items of the batch stand for.
    pub points: Set<PointOffsetType>,
    /// Which side goes to the front.
    pub select: Select,
    /// What becomes of the other side.
    pub rest: Rest,
}

/// A condition on points, and how checks of it may end.
///
/// A check ends with an answer or in an error, and a checker that reads what may be unreadable
/// can end the same check in more than one way. What it answers is fixed.
#[verifier::ext_equal]
#[verifier::reject_recursive_types(E)]
pub struct Condition<E> {
    /// The points that meet the condition.
    pub matching: Set<PointOffsetType>,
    /// How a check of one point may end.
    pub check_ends: spec_fn(PointOffsetType) -> Set<Result<(), E>>,
    /// How a batched check may end.
    pub batch_ends: spec_fn(BatchCall) -> Set<Result<(), E>>,
    /// How a batched check may end, whatever it is asked.
    pub batch_outcomes: Set<Result<(), E>>,
}

impl<E> Condition<E> {
    /// A check of the point may come to an answer.
    pub open spec fn can_answer(self, point: PointOffsetType) -> bool {
        (self.check_ends)(point).contains(Ok(()))
    }

    /// A check of the point may end in `error`.
    pub open spec fn can_fail(self, point: PointOffsetType, error: E) -> bool {
        (self.check_ends)(point).contains(Err(error))
    }

    /// A batched check may come to an answer.
    pub open spec fn can_answer_batch(self, call: BatchCall) -> bool {
        (self.batch_ends)(call).contains(Ok(()))
    }

    /// A batched check may end in `error`.
    pub open spec fn can_fail_batch(self, call: BatchCall, error: E) -> bool {
        (self.batch_ends)(call).contains(Err(error))
    }

    /// Some batched check may come to an answer.
    pub open spec fn sometimes_answers(self) -> bool {
        self.batch_outcomes.contains(Ok(()))
    }

    /// Some batched check may end in `error`.
    pub open spec fn sometimes_fails(self, error: E) -> bool {
        self.batch_outcomes.contains(Err(error))
    }

    /// A batched check may end as `answer` does.
    pub open spec fn may_end<T>(self, answer: Result<T, E>) -> bool {
        match answer {
            Ok(_) => self.sometimes_answers(),
            Err(error) => self.sometimes_fails(error),
        }
    }

    /// However a batched check may end, `batch_outcomes` says that one may.
    pub open spec fn outcomes_cover_batches(self) -> bool {
        &&& forall|call: BatchCall| #[trigger]
            self.can_answer_batch(call) ==> self.sometimes_answers()
        &&& forall|call: BatchCall, error: E| #[trigger]
            self.can_fail_batch(call, error) ==> self.sometimes_fails(error)
    }

    /// No check ends in an error.
    pub open spec fn never_fails(self) -> bool {
        &&& forall|p: PointOffsetType, error: E| !self.can_fail(p, error)
        &&& forall|call: BatchCall, error: E| !self.can_fail_batch(call, error)
        &&& forall|error: E| !self.sometimes_fails(error)
    }

    /// `answer` is one that a check of `point_id` may give.
    pub open spec fn may_answer(self, point_id: PointOffsetType, answer: Result<bool, E>) -> bool {
        match answer {
            Ok(matched) => {
                &&& self.can_answer(point_id)
                &&& matched == self.matching.contains(point_id)
            },
            Err(error) => self.can_fail(point_id, error),
        }
    }

    /// `answer` is one that a batched check of `before` may give, with `after` left in the buffer.
    ///
    /// On success the first items of the buffer are exactly those of the selected side, each as
    /// often as it came in, in any order. With `Rest::Keep` no item is lost or made up.
    pub open spec fn may_partition<K: CheckItem>(
        self,
        before: Seq<K>,
        after: Seq<K>,
        select: Select,
        rest: Rest,
        answer: Result<usize, E>,
    ) -> bool {
        let call = BatchCall { points: points_of(before), select, rest };
        &&& after.len() == before.len()
        &&& match answer {
            Ok(n) => {
                &&& self.can_answer_batch(call)
                &&& n <= after.len()
                &&& after.take(n as int).to_multiset() == items_on(before, select.side(self.matching))
                &&& rest is Keep ==> after.to_multiset() == before.to_multiset()
            },
            Err(error) => self.can_fail_batch(call, error),
        }
    }
}

/// A checker of one condition.
pub trait ConditionChecker {
    /// Why a check may fail.
    type Error;

    /// The condition that is checked.
    spec fn condition(&self) -> Condition<Self::Error>;

    /// Batched checks by checkers of this type select exactly what the condition selects.
    ///
    /// Of a checker that does not keep to this, a caller knows only that the buffer keeps its
    /// length, that the count is within it, and how a batched check may end.
    open spec fn obeys_partition() -> bool {
        true
    }

    /// Tells whether the point meets the condition.
    fn check(&self, point_id: PointOffsetType) -> (answer: Result<bool, Self::Error>)
        ensures
            self.condition().may_answer(point_id, answer),
            answer matches Ok(matched) ==> matched == self.condition().matching.contains(point_id),
    ;

    /// Moves the items on the selected side to the front of `ids` and returns how many they are.
    fn check_batched<K: CheckItem>(&mut self, ids: &mut [K], select: Select, rest: Rest) -> (answer:
        Result<usize, Self::Error>)
        ensures
            final(ids)@.len() == old(ids)@.len(),
            answer matches Ok(n) ==> n <= final(ids)@.len(),
            old(self).condition().may_end(answer),
            final(self).condition().batch_outcomes == old(self).condition().batch_outcomes,
            Self::obeys_partition() ==> final(self).condition() == old(self).condition(),
            Self::obeys_partition() ==> old(self).condition().may_partition(
                old(ids)@,
                final(ids)@,
                select,
                rest,
                answer,
            ),
    ;
}

} // verus!
