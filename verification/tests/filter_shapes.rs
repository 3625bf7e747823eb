//! Every shape of filter partitions a batch as a check of each id by itself would.

use segment_filter::condition_checker::{ConditionChecker, Rest, Select};
use segment_filter::optimized_filter::{ConditionCheckerEnum, OptimizedFilter};
use segment_filter::test_bits::TestBits;

const NUM_POINTS: u32 = 1 << 10;
const SIZES: [usize; 7] = [0, 1, 2, 5, 10, 50, 100];
/// Match probabilities of a leaf, in percent.
const PERCENTS: [u64; 3] = [10, 50, 90];

type Checker = ConditionCheckerEnum<TestBits>;
type Filter = OptimizedFilter<TestBits>;

/// A linear congruential generator.
struct Random(u64);

impl Random {
    fn below(&mut self, bound: u64) -> u64 {
        self.0 = self.0.wrapping_mul(6364136223846793005).wrapping_add(1442695040888963407);
        (self.0 >> 33) % bound
    }
}

fn leaf(random: &mut Random, percent: u64) -> Checker {
    let mut bits = Vec::new();
    for _ in 0..NUM_POINTS {
        bits.push(random.below(100) < percent);
    }
    Checker::TestBits(TestBits(bits))
}

fn leaves(random: &mut Random, n: usize, percent: u64) -> Vec<Checker> {
    (0..n).map(|_| leaf(random, percent)).collect()
}

fn filter(
    should: Vec<Checker>,
    min_should: Vec<Checker>,
    min_should_count: usize,
    must: Vec<Checker>,
    must_not: Vec<Checker>,
) -> Filter {
    Filter::new(should, min_should, min_should_count, must, must_not)
}

fn nest(inner: Filter) -> Checker {
    Checker::Filter(inner)
}

fn sorted(ids: &[u32]) -> Vec<u32> {
    let mut ids = ids.to_vec();
    ids.sort_unstable();
    ids
}

fn verify(build: fn(&mut Random, u64) -> Filter) {
    let mut random = Random(0x5eed_f117);
    for percent in PERCENTS {
        let mut filter = build(&mut Random(0x0f11_7e57), percent);
        for n in SIZES {
            let ids: Vec<u32> =
                (0..n).map(|_| random.below(u64::from(NUM_POINTS)) as u32).collect();
            let mut counts = Vec::new();
            for select in [Select::Match, Select::NonMatch] {
                let expected: Vec<u32> = ids
                    .iter()
                    .copied()
                    .filter(|&id| filter.check(id).unwrap() == select.is_match())
                    .collect();
                for rest in [Rest::Keep, Rest::Drop] {
                    let mut buf = ids.clone();
                    let partition = filter.check_batched(&mut buf, select, rest).unwrap();
                    assert_eq!(
                        sorted(&buf[..partition]),
                        sorted(&expected),
                        "{percent}% {n} {select:?} {rest:?}"
                    );
                    if rest == Rest::Keep || select == Select::NonMatch {
                        assert_eq!(sorted(&buf), sorted(&ids), "{percent}% {n} {select:?} {rest:?}");
                    }
                    if rest == Rest::Keep {
                        counts.push(partition);
                    }
                }
            }
            assert_eq!(counts[0] + counts[1], n);
        }
    }
}

#[test]
fn empty_filter() {
    verify(|_, _| filter(vec![], vec![], 0, vec![], vec![]));
}

#[test]
fn should_1() {
    verify(|r, p| filter(leaves(r, 1, p), vec![], 0, vec![], vec![]));
}

#[test]
fn should_2() {
    verify(|r, p| filter(leaves(r, 2, p), vec![], 0, vec![], vec![]));
}

#[test]
fn should_3() {
    verify(|r, p| filter(leaves(r, 3, p), vec![], 0, vec![], vec![]));
}

#[test]
fn must_1() {
    verify(|r, p| filter(vec![], vec![], 0, leaves(r, 1, p), vec![]));
}

#[test]
fn must_2() {
    verify(|r, p| filter(vec![], vec![], 0, leaves(r, 2, p), vec![]));
}

#[test]
fn must_3() {
    verify(|r, p| filter(vec![], vec![], 0, leaves(r, 3, p), vec![]));
}

#[test]
fn must_not_1() {
    verify(|r, p| filter(vec![], vec![], 0, vec![], leaves(r, 1, p)));
}

#[test]
fn must_not_2() {
    verify(|r, p| filter(vec![], vec![], 0, vec![], leaves(r, 2, p)));
}

#[test]
fn must_not_3() {
    verify(|r, p| filter(vec![], vec![], 0, vec![], leaves(r, 3, p)));
}

#[test]
fn min_should_0of3() {
    verify(|r, p| filter(vec![], leaves(r, 3, p), 0, vec![], vec![]));
}

#[test]
fn min_should_1of3() {
    verify(|r, p| filter(vec![], leaves(r, 3, p), 1, vec![], vec![]));
}

#[test]
fn min_should_2of3() {
    verify(|r, p| filter(vec![], leaves(r, 3, p), 2, vec![], vec![]));
}

#[test]
fn min_should_3of3() {
    verify(|r, p| filter(vec![], leaves(r, 3, p), 3, vec![], vec![]));
}

#[test]
fn min_should_4of3() {
    verify(|r, p| filter(vec![], leaves(r, 3, p), 4, vec![], vec![]));
}

#[test]
fn min_should_4of7() {
    verify(|r, p| filter(vec![], leaves(r, 7, p), 4, vec![], vec![]));
}

#[test]
fn combined() {
    verify(|r, p| {
        filter(leaves(r, 1, p), leaves(r, 3, p), 2, leaves(r, 1, p), leaves(r, 1, p))
    });
}

#[test]
fn nested_must_3() {
    verify(|r, p| {
        let must = (0..3)
            .map(|_| nest(filter(vec![], vec![], 0, leaves(r, 1, p), vec![])))
            .collect();
        filter(vec![], vec![], 0, must, vec![])
    });
}

#[test]
fn nested_should() {
    verify(|r, p| {
        let should = (0..2)
            .map(|_| nest(filter(leaves(r, 2, p), vec![], 0, vec![], vec![])))
            .collect();
        filter(should, vec![], 0, vec![], vec![])
    });
}

#[test]
fn nested_deep_must() {
    verify(|r, p| {
        let l3 = filter(vec![], vec![], 0, leaves(r, 1, p), vec![]);
        let l2 = filter(vec![], vec![], 0, vec![nest(l3)], vec![]);
        filter(vec![], vec![], 0, vec![nest(l2)], vec![])
    });
}

#[test]
fn nested_mixed() {
    verify(|r, p| {
        let a = nest(filter(vec![], vec![], 0, vec![], leaves(r, 2, p)));
        let b = nest(filter(vec![], leaves(r, 3, p), 2, vec![], vec![]));
        filter(vec![b], vec![], 0, vec![a], vec![])
    });
}

#[test]
fn nested_min_should() {
    verify(|r, p| {
        let min_should = (0..4)
            .map(|_| nest(filter(leaves(r, 1, p), leaves(r, 3, p), 2, vec![], leaves(r, 1, p))))
            .collect();
        filter(vec![], min_should, 2, vec![], vec![])
    });
}

#[test]
fn mn_must_2() {
    verify(|r, p| {
        let inner = filter(vec![], vec![], 0, leaves(r, 2, p), vec![]);
        filter(vec![], vec![], 0, vec![], vec![nest(inner)])
    });
}

#[test]
fn mn_should_2() {
    verify(|r, p| {
        let inner = filter(leaves(r, 2, p), vec![], 0, vec![], vec![]);
        filter(vec![], vec![], 0, vec![], vec![nest(inner)])
    });
}

#[test]
fn mn_min_should() {
    verify(|r, p| {
        let inner = filter(vec![], leaves(r, 3, p), 2, vec![], vec![]);
        filter(vec![], vec![], 0, vec![], vec![nest(inner)])
    });
}

#[test]
fn single_checker() {
    verify(|r, p| Filter::from_checker(leaf(r, p)));
}
