//! A checker that holds its answers.

use core::convert::Infallible;

use vstd::prelude::*;
use vstd::seq_lib::{to_multiset_build, to_multiset_contains, to_multiset_len, to_multiset_update};

use crate::condition_checker::{
    items_on, BatchCall, CheckItem, Condition, ConditionChecker, PointOffsetType, Rest, Select,
};

verus! {

/// One bit for each point from zero on: a point matches iff its bit is there and set.
#[derive(Debug)]
pub struct TestBits(pub Vec<bool>);

impl TestBits {
    /// The points whose bit is set.
    pub open spec fn set_points(&self) -> Set<PointOffsetType> {
        Set::new(|p: PointOffsetType| p < self.0@.len() && self.0@[p as int])
    }

    /// The condition that the bit of a point is set, which every check comes to an answer on.
    pub open spec fn bit_is_set<E>(&self) -> Condition<E> {
        Condition {
            matching: self.set_points(),
            check_ends: |p: PointOffsetType| set![Ok(())],
            batch_ends: |call: BatchCall| set![Ok(())],
            batch_outcomes: set![Ok(())],
        }
    }

    /// Returns the bit of a point, unset where there is none.
    pub fn test(&self, point_id: PointOffsetType) -> (bit: bool)
        ensures
            bit == self.set_points().contains(point_id),
            bit == (point_id < self.0@.len() && self.0@[point_id as int]),
    {
        let i: usize = point_id as usize;
        i < self.0.len() && self.0[i]
    }

    /// Moves the items on the selected side to the front of `ids`, keeps the others behind them,
    /// and returns how many were selected.
    pub fn partition<K: CheckItem>(&self, ids: &mut [K], select: Select) -> (n: usize)
        ensures
            n <= final(ids)@.len(),
            final(ids)@.len() == old(ids)@.len(),
            final(ids)@.to_multiset() == old(ids)@.to_multiset(),
            final(ids)@.take(n as int).to_multiset() == items_on(
                old(ids)@,
                select.side(self.set_points()),
            ),
            forall|item: K| #[trigger]
                final(ids)@.take(n as int).to_multiset().count(item) == if (item.point()
                    < self.0@.len() && self.0@[item.point() as int]) == (select is Match) {
                    old(ids)@.to_multiset().count(item)
                } else {
                    0
                },
    {
        let ghost before = ids@;
        let ghost side = select.side(self.set_points());
        let len: usize = ids.len();
        let mut n: usize = 0;
        let mut i: usize = 0;
        proof {
            to_multiset_len(before.take(0));
            assert(ids@.take(0).to_multiset() =~= items_on(before.take(0), side));
        }
        while i < len
            invariant
                n <= i <= len,
                len == ids@.len(),
                len == before.len(),
                side == select.side(self.set_points()),
                ids@.skip(i as int) == before.skip(i as int),
                ids@.to_multiset() == before.to_multiset(),
                ids@.take(n as int).to_multiset() == items_on(before.take(i as int), side),
            decreases len - i,
        {
            let ghost current = ids@;
            let item: K = ids[i];
            assert(before.skip(i as int)[0] == item);
            assert(before.take(i + 1) =~= before.take(i as int).push(item));
            proof {
                to_multiset_build(before.take(i as int), item);
            }
            if self.test(item.point_id()) == select.is_match() {
                ids[i] = ids[n];
                ids[n] = item;
                n = n + 1;
                proof {
                    let moved = current.update(i as int, current[n - 1]);
                    assert(ids@ =~= moved.update(n - 1, item));
                    to_multiset_update(current, i as int, current[n - 1]);
                    to_multiset_update(moved, n - 1, item);
                    assert(current.contains(item) && current.contains(current[n - 1]));
                    to_multiset_contains(current, item);
                    to_multiset_contains(current, current[n - 1]);
                    assert(ids@.to_multiset() =~= current.to_multiset());
                    assert(ids@.take(n as int) =~= current.take(n - 1).push(item));
                    to_multiset_build(current.take(n - 1), item);
                }
            }
            i = i + 1;
            proof {
                assert(ids@.take(n as int).to_multiset() =~= items_on(before.take(i as int), side));
                assert(ids@.skip(i as int) =~= before.skip(i as int)) by {
                    assert forall|j: int| i <= j < len implies #[trigger] ids@[j] == before[j] by {
                        assert(current.skip(i - 1)[j - i + 1] == before.skip(i - 1)[j - i + 1]);
                    }
                }
            }
        }
        proof {
            assert(before.take(len as int) =~= before);
            assert forall|item: K| #[trigger] items_on(before, side).count(item) == if (item.point()
                < self.0@.len() && self.0@[item.point() as int]) == (select is Match) {
                before.to_multiset().count(item)
            } else {
                0
            } by {}
        }
        n
    }
}

impl ConditionChecker for TestBits {
    type Error = Infallible;

    open spec fn condition(&self) -> Condition<Infallible> {
        self.bit_is_set()
    }

    fn check(&self, point_id: PointOffsetType) -> (answer: Result<bool, Infallible>) {
        Ok(self.test(point_id))
    }

    fn check_batched<K: CheckItem>(&mut self, ids: &mut [K], select: Select, rest: Rest) -> (answer:
        Result<usize, Infallible>)
        ensures
            *final(self) == *old(self),
    {
        Ok(self.partition(ids, select))
    }
}

} // verus!
