//! Parts of a buffer of items, and what they hold.

use vstd::prelude::*;
use vstd::seq_lib::{group_to_multiset_ensures, lemma_multiset_commutative, to_multiset_len};

use crate::condition_checker::{items_on, points_of, CheckItem, PointOffsetType};

verus! {

/// Borrows the items of `ids` from `lo` up to `hi`.
pub fn window<K>(ids: &mut [K], lo: usize, hi: usize) -> (part: &mut [K])
    requires
        lo <= hi <= old(ids)@.len(),
    ensures
        part@ == old(ids)@.subrange(lo as int, hi as int),
        final(ids)@ == old(ids)@.take(lo as int) + final(part)@ + old(ids)@.skip(hi as int),
{
    let (front, _) = ids.split_at_mut(hi);
    let (_, part) = front.split_at_mut(lo);
    part
}

/// A sequence holds what its two parts hold.
pub proof fn lemma_cut<K>(s: Seq<K>, at: int)
    requires
        0 <= at <= s.len(),
    ensures
        s.to_multiset() == s.take(at).to_multiset().add(s.skip(at).to_multiset()),
{
    assert(s =~= s.take(at) + s.skip(at));
    lemma_multiset_commutative(s.take(at), s.skip(at));
}

/// What stands between two bounds is what stands before the second and not before the first.
pub proof fn lemma_between<K>(s: Seq<K>, lo: int, hi: int)
    requires
        0 <= lo <= hi <= s.len(),
    ensures
        s.take(hi).to_multiset() == s.take(lo).to_multiset().add(s.subrange(lo, hi).to_multiset()),
{
    lemma_cut(s.take(hi), lo);
    assert(s.take(hi).take(lo) =~= s.take(lo));
    assert(s.take(hi).skip(lo) =~= s.subrange(lo, hi));
}

/// To pick from what was picked is to pick by both.
pub proof fn lemma_pick_again<K: CheckItem>(
    part: Seq<K>,
    whole: Seq<K>,
    first: Set<PointOffsetType>,
    second: Set<PointOffsetType>,
)
    requires
        part.to_multiset() == items_on(whole, first),
    ensures
        items_on(part, second) == items_on(whole, first.intersect(second)),
{
    assert(items_on(part, second) =~= items_on(whole, first.intersect(second)));
}

/// To pick by two sets that share no point is to pick by one after the other.
pub proof fn lemma_pick_either<K: CheckItem>(
    whole: Seq<K>,
    one: Set<PointOffsetType>,
    other: Set<PointOffsetType>,
)
    requires
        one.disjoint(other),
    ensures
        items_on(whole, one).add(items_on(whole, other)) == items_on(whole, one.union(other)),
{
    assert(items_on(whole, one).add(items_on(whole, other)) =~= items_on(whole, one.union(other)));
}

/// Behind what was picked stands what was not.
pub proof fn lemma_rest_of_picked<K: CheckItem>(
    part: Seq<K>,
    n: int,
    whole: Seq<K>,
    first: Set<PointOffsetType>,
    second: Set<PointOffsetType>,
)
    requires
        0 <= n <= part.len(),
        part.to_multiset() == items_on(whole, first),
        part.take(n).to_multiset() == items_on(whole, first.intersect(second)),
    ensures
        part.skip(n).to_multiset() == items_on(whole, first.difference(second)),
{
    lemma_cut(part, n);
    let behind = part.skip(n).to_multiset();
    assert forall|k: K| behind.count(k) == items_on(whole, first.difference(second)).count(k) by {
        assert(part.to_multiset().count(k) == part.take(n).to_multiset().count(k) + behind.count(k));
    }
    assert(behind =~= items_on(whole, first.difference(second)));
}

/// What was picked stands for the points it was picked by.
pub proof fn lemma_points_of_picked<K: CheckItem>(
    part: Seq<K>,
    whole: Seq<K>,
    points: Set<PointOffsetType>,
)
    requires
        part.to_multiset() == items_on(whole, points),
    ensures
        points_of(part) == points_of(whole).intersect(points),
{
    broadcast use group_to_multiset_ensures;

    let kept = points_of(whole).intersect(points);
    assert forall|p: PointOffsetType| points_of(part).contains(p) <==> kept.contains(p) by {
        if points_of(part).contains(p) {
            let i = choose|i: int| 0 <= i < part.len() && (#[trigger] part[i]).point() == p;
            assert(part.contains(part[i]));
            assert(items_on(whole, points).count(part[i]) > 0);
            assert(whole.contains(part[i]));
        }
        if kept.contains(p) {
            let i = choose|i: int| 0 <= i < whole.len() && (#[trigger] whole[i]).point() == p;
            assert(whole.contains(whole[i]));
            assert(part.to_multiset().count(whole[i]) > 0);
            assert(part.contains(whole[i]));
        }
    }
    assert(points_of(part) =~= kept);
}

/// What a change of the items from `lo` up to `hi` leaves as it was.
pub proof fn lemma_splice<K>(before: Seq<K>, part: Seq<K>, after: Seq<K>, lo: int, hi: int)
    requires
        0 <= lo <= hi <= before.len(),
        part.len() == hi - lo,
        after == before.take(lo) + part + before.skip(hi),
    ensures
        after.len() == before.len(),
        after.subrange(lo, hi) == part,
        forall|x: int| 0 <= x <= lo ==> #[trigger] after.take(x) == before.take(x),
        forall|x: int| lo <= x <= hi ==> #[trigger] after.take(x) == before.take(lo) + part.take(x - lo),
        forall|x: int| hi <= x <= before.len() ==> #[trigger] after.skip(x) == before.skip(x),
        part.to_multiset() == before.subrange(lo, hi).to_multiset() ==> forall|x: int|
            hi <= x <= before.len() ==> (#[trigger] after.take(x)).to_multiset() == before.take(
                x,
            ).to_multiset(),
{
    assert(after.subrange(lo, hi) =~= part);
    assert forall|x: int| 0 <= x <= lo implies #[trigger] after.take(x) == before.take(x) by {
        assert(after.take(x) =~= before.take(x));
    }
    assert forall|x: int| lo <= x <= hi implies #[trigger] after.take(x) == before.take(lo)
        + part.take(x - lo) by {
        assert(after.take(x) =~= before.take(lo) + part.take(x - lo));
    }
    assert forall|x: int| hi <= x <= before.len() implies #[trigger] after.skip(x) == before.skip(
        x,
    ) by {
        assert(after.skip(x) =~= before.skip(x));
    }
    if part.to_multiset() == before.subrange(lo, hi).to_multiset() {
        assert forall|x: int| hi <= x <= before.len() implies (#[trigger] after.take(
            x,
        )).to_multiset() == before.take(x).to_multiset() by {
            lemma_between(before, lo, hi);
            lemma_between(after, lo, hi);
            lemma_between(before, hi, x);
            lemma_between(after, hi, x);
            assert(after.take(lo) =~= before.take(lo));
            assert(after.subrange(hi, x) =~= before.subrange(hi, x));
        }
    }
}

/// A pick among the first `hi` items narrows what stands at the front.
pub proof fn lemma_narrow<K: CheckItem>(
    current: Seq<K>,
    part: Seq<K>,
    after: Seq<K>,
    hi: int,
    n: int,
    whole: Seq<K>,
    first: Set<PointOffsetType>,
    second: Set<PointOffsetType>,
)
    requires
        0 <= n <= hi <= current.len(),
        part.len() == hi,
        after == current.take(0) + part + current.skip(hi),
        current.take(hi).to_multiset() == items_on(whole, first),
        part.take(n).to_multiset() == items_on(current.subrange(0, hi), second),
    ensures
        after.len() == current.len(),
        after.take(n).to_multiset() == items_on(whole, first.intersect(second)),
        part.to_multiset() == current.subrange(0, hi).to_multiset() ==> after.to_multiset()
            == current.to_multiset(),
{
    lemma_splice(current, part, after, 0, hi);
    assert(current.subrange(0, hi) =~= current.take(hi));
    lemma_pick_again(current.take(hi), whole, first, second);
    assert(after.take(n) =~= part.take(n));
    assert(after.take(after.len() as int) =~= after);
    assert(current.take(current.len() as int) =~= current);
}

/// The items of `ids` from `at` on are those of `whole` on `left`, and the others stand before.
pub open spec fn parted<K: CheckItem>(
    ids: Seq<K>,
    at: int,
    whole: Seq<K>,
    left: Set<PointOffsetType>,
) -> bool {
    &&& 0 <= at <= ids.len()
    &&& ids.len() == whole.len()
    &&& ids.take(at).to_multiset() == items_on(whole, left.complement())
    &&& ids.skip(at).to_multiset() == items_on(whole, left)
}

/// At first all items are left.
pub proof fn lemma_parted_start<K: CheckItem>(ids: Seq<K>)
    ensures
        parted(ids, 0, ids, Set::full()),
{
    to_multiset_len(ids.take(0));
    assert(ids.take(0).to_multiset() =~= items_on(ids, Set::<PointOffsetType>::full().complement()));
    assert(ids.skip(0) =~= ids);
    assert(ids.to_multiset() =~= items_on(ids, Set::full()));
}

/// Two parts hold all that there is.
pub proof fn lemma_parted_keeps<K: CheckItem>(
    ids: Seq<K>,
    at: int,
    whole: Seq<K>,
    left: Set<PointOffsetType>,
)
    requires
        parted(ids, at, whole, left),
    ensures
        ids.to_multiset() == whole.to_multiset(),
{
    lemma_cut(ids, at);
    lemma_pick_either(whole, left.complement(), left);
    assert(items_on(whole, left.complement().union(left)) =~= whole.to_multiset());
}

/// A pick among the items that are left adds to those before them.
pub proof fn lemma_widen<K: CheckItem>(
    current: Seq<K>,
    part: Seq<K>,
    after: Seq<K>,
    at: int,
    n: int,
    whole: Seq<K>,
    left: Set<PointOffsetType>,
    picked: Set<PointOffsetType>,
)
    requires
        parted(current, at, whole, left),
        part.len() == current.len() - at,
        0 <= n <= part.len(),
        after == current.take(at) + part + current.skip(current.len() as int),
        part.to_multiset() == current.subrange(at, current.len() as int).to_multiset(),
        part.take(n).to_multiset() == items_on(current.subrange(at, current.len() as int), picked),
    ensures
        parted(after, at + n, whole, left.difference(picked)),
{
    assert(current.subrange(at, current.len() as int) =~= current.skip(at));
    lemma_splice(current, part, after, at, current.len() as int);
    lemma_pick_again(current.skip(at), whole, left, picked);
    lemma_rest_of_picked(part, n, whole, left, picked);
    assert(after.skip(at + n) =~= part.skip(n));
    assert(after.take(at + n) == current.take(at) + part.take(n));
    lemma_multiset_commutative(current.take(at), part.take(n));
    lemma_pick_either(whole, left.complement(), left.intersect(picked));
    assert(left.complement().union(left.intersect(picked)) =~= left.difference(
        picked,
    ).complement());
}

} // verus!
