//! What a filter answers, what it asks its conditions, and how it fails.

use std::cell::RefCell;
use std::rc::Rc;

use segment_filter::condition_checker::{CheckItem, Condition, ConditionChecker, Rest, Select};
use segment_filter::optimized_filter::{ConditionCheckerEnum, OptimizedFilter};
use segment_filter::test_bits::TestBits;

/// What an index was asked, under its name.
#[derive(Clone, Debug, PartialEq)]
enum Asked {
    One(&'static str, u32),
    Batch(&'static str, Vec<u32>, Select, Rest),
}

/// An index that matches some points and cannot read others.
struct Index {
    name: &'static str,
    matching: Vec<u32>,
    unreadable: Vec<u32>,
    log: Rc<RefCell<Vec<Asked>>>,
}

impl ConditionChecker for Index {
    type Error = String;

    /// Only proofs speak of it.
    fn condition(&self) -> Condition<String> {
        unreachable!()
    }

    fn check(&self, point_id: u32) -> Result<bool, String> {
        self.log.borrow_mut().push(Asked::One(self.name, point_id));
        if self.unreadable.contains(&point_id) {
            return Err(format!("{}: {point_id}", self.name));
        }
        Ok(self.matching.contains(&point_id))
    }

    fn check_batched<K: CheckItem>(
        &mut self,
        ids: &mut [K],
        select: Select,
        rest: Rest,
    ) -> Result<usize, String> {
        let mut points: Vec<u32> = ids.iter().map(|item| item.point_id()).collect();
        points.sort_unstable();
        self.log.borrow_mut().push(Asked::Batch(self.name, points.clone(), select, rest));
        for point in points {
            if self.unreadable.contains(&point) {
                return Err(format!("{}: {point}", self.name));
            }
        }
        let mut n = 0;
        for i in 0..ids.len() {
            let item = ids[i];
            if self.matching.contains(&item.point_id()) == select.is_match() {
                if rest == Rest::Keep {
                    ids.swap(n, i);
                } else {
                    ids[n] = item;
                }
                n += 1;
            }
        }
        Ok(n)
    }
}

type Checker = ConditionCheckerEnum<Index>;
type Filter = OptimizedFilter<Index>;
type Log = Rc<RefCell<Vec<Asked>>>;

fn index(log: &Log, name: &'static str, matching: &[u32], unreadable: &[u32]) -> Checker {
    Checker::Index(Index {
        name,
        matching: matching.to_vec(),
        unreadable: unreadable.to_vec(),
        log: log.clone(),
    })
}

fn bits(matching: &[u32]) -> Checker {
    let mut bits = vec![false; 10];
    for &point in matching {
        bits[point as usize] = true;
    }
    Checker::TestBits(TestBits(bits))
}

fn passing(filter: &Filter) -> Vec<u32> {
    (0..10).filter(|&id| filter.check(id).unwrap()).collect()
}

fn batch(filter: &mut Filter, select: Select, rest: Rest) -> Result<Vec<u32>, String> {
    let mut ids: Vec<u32> = (0..10).collect();
    let n = filter.check_batched(&mut ids, select, rest)?;
    let mut selected = ids[..n].to_vec();
    selected.sort_unstable();
    Ok(selected)
}

#[test]
fn clauses_are_anded() {
    let mut filter = Filter::new(
        vec![bits(&[0, 1, 2, 3]), bits(&[4, 5])],
        vec![bits(&[0, 1, 2, 4]), bits(&[1, 2, 4, 5]), bits(&[2, 3, 4])],
        2,
        vec![bits(&[0, 1, 2, 4, 5, 6])],
        vec![bits(&[2])],
    );
    assert_eq!(passing(&filter), vec![1, 4]);
    assert_eq!(batch(&mut filter, Select::Match, Rest::Drop), Ok(vec![1, 4]));
    assert_eq!(
        batch(&mut filter, Select::NonMatch, Rest::Keep),
        Ok(vec![0, 2, 3, 5, 6, 7, 8, 9])
    );
}

#[test]
fn empty_should_is_met() {
    let filter = Filter::new(vec![], vec![], 0, vec![], vec![bits(&[3])]);
    assert_eq!(passing(&filter), vec![0, 1, 2, 4, 5, 6, 7, 8, 9]);
}

#[test]
fn min_should_without_count_is_met() {
    let filter = Filter::new(vec![], vec![bits(&[3])], 0, vec![], vec![]);
    assert_eq!(passing(&filter).len(), 10);
}

#[test]
fn min_should_beyond_the_conditions_is_never_met() {
    let mut filter = Filter::new(vec![], vec![bits(&[1, 2]), bits(&[2])], 3, vec![], vec![]);
    assert_eq!(passing(&filter), Vec::<u32>::new());
    assert_eq!(batch(&mut filter, Select::Match, Rest::Keep), Ok(vec![]));
    assert_eq!(batch(&mut filter, Select::NonMatch, Rest::Drop), Ok((0..10).collect()));

    let mut filter = Filter::new(vec![], vec![], usize::MAX, vec![], vec![]);
    assert_eq!(passing(&filter), Vec::<u32>::new());
    assert_eq!(batch(&mut filter, Select::NonMatch, Rest::Keep), Ok((0..10).collect()));
}

#[test]
fn min_should_of_one_is_should_and_of_all_is_must() {
    let conditions = || vec![bits(&[1, 2, 3]), bits(&[2, 3, 4]), bits(&[3, 4, 5])];
    let any = Filter::new(conditions(), vec![], 0, vec![], vec![]);
    let all = Filter::new(vec![], vec![], 0, conditions(), vec![]);
    let one = Filter::new(vec![], conditions(), 1, vec![], vec![]);
    let three = Filter::new(vec![], conditions(), 3, vec![], vec![]);
    assert_eq!(passing(&any), vec![1, 2, 3, 4, 5]);
    assert_eq!(passing(&one), passing(&any));
    assert_eq!(passing(&all), vec![3]);
    assert_eq!(passing(&three), passing(&all));
}

#[test]
fn must_not_inverts() {
    let inner = Filter::new(vec![bits(&[1, 2])], vec![], 0, vec![bits(&[2, 3])], vec![]);
    let filter = Filter::new(vec![], vec![], 0, vec![], vec![Checker::Filter(inner)]);
    assert_eq!(passing(&filter), vec![0, 1, 3, 4, 5, 6, 7, 8, 9]);
}

#[test]
fn from_checker_is_the_checker() {
    let mut filter = Filter::from_checker(bits(&[2, 7]));
    assert_eq!(passing(&filter), vec![2, 7]);
    assert_eq!(batch(&mut filter, Select::Match, Rest::Keep), Ok(vec![2, 7]));

    let log = Log::default();
    let mut filter = Filter::from_checker(index(&log, "a", &[2, 7], &[3]));
    assert_eq!(filter.check(7), Ok(true));
    assert_eq!(filter.check(3), Err("a: 3".to_string()));
    assert_eq!(batch(&mut filter, Select::Match, Rest::Drop), Err("a: 3".to_string()));
}

#[test]
fn check_stops_at_the_first_should_that_matches() {
    let log = Log::default();
    let filter = Filter::new(
        vec![index(&log, "a", &[1], &[]), index(&log, "b", &[2], &[1])],
        vec![],
        0,
        vec![],
        vec![],
    );
    assert_eq!(filter.check(1), Ok(true));
    assert_eq!(*log.borrow(), vec![Asked::One("a", 1)]);
    log.borrow_mut().clear();
    assert_eq!(filter.check(2), Ok(true));
    assert_eq!(*log.borrow(), vec![Asked::One("a", 2), Asked::One("b", 2)]);
}

#[test]
fn check_stops_once_enough_of_min_should_match() {
    let log = Log::default();
    let filter = Filter::new(
        vec![],
        vec![
            index(&log, "a", &[1, 2], &[]),
            index(&log, "b", &[1], &[]),
            index(&log, "c", &[2], &[1]),
        ],
        2,
        vec![],
        vec![],
    );
    assert_eq!(filter.check(1), Ok(true));
    assert_eq!(*log.borrow(), vec![Asked::One("a", 1), Asked::One("b", 1)]);
    log.borrow_mut().clear();
    assert_eq!(filter.check(2), Ok(true));
    assert_eq!(log.borrow().len(), 3);
}

#[test]
fn check_asks_the_clauses_in_order() {
    let log = Log::default();
    let filter = Filter::new(
        vec![index(&log, "should", &[1, 2, 3, 4], &[])],
        vec![index(&log, "min_should", &[2, 3, 4], &[])],
        1,
        vec![index(&log, "must", &[3, 4], &[])],
        vec![index(&log, "must_not", &[4], &[])],
    );
    let asked = |point: u32| {
        log.borrow_mut().clear();
        let answer = filter.check(point).unwrap();
        (answer, log.borrow().len())
    };
    assert_eq!(asked(0), (false, 1));
    assert_eq!(asked(1), (false, 2));
    assert_eq!(asked(2), (false, 3));
    assert_eq!(asked(4), (false, 4));
    assert_eq!(asked(3), (true, 4));
    assert_eq!(
        *log.borrow(),
        vec![
            Asked::One("should", 3),
            Asked::One("min_should", 3),
            Asked::One("must", 3),
            Asked::One("must_not", 3),
        ]
    );
}

#[test]
fn check_hands_on_the_first_error() {
    let log = Log::default();
    let filter = Filter::new(
        vec![index(&log, "should", &[2, 3, 4, 5], &[1])],
        vec![index(&log, "min_should", &[3, 4, 5], &[1, 2])],
        1,
        vec![index(&log, "must", &[4, 5], &[1, 2, 3])],
        vec![index(&log, "must_not", &[], &[1, 2, 3, 4])],
    );
    assert_eq!(filter.check(0), Ok(false));
    assert_eq!(filter.check(1), Err("should: 1".to_string()));
    assert_eq!(filter.check(2), Err("min_should: 2".to_string()));
    assert_eq!(filter.check(3), Err("must: 3".to_string()));
    assert_eq!(filter.check(4), Err("must_not: 4".to_string()));
    assert_eq!(filter.check(5), Ok(true));
}

#[test]
fn an_error_in_should_is_not_made_good_by_a_match() {
    let log = Log::default();
    let filter =
        Filter::new(vec![index(&log, "a", &[], &[1]), bits(&[1])], vec![], 0, vec![], vec![]);
    assert_eq!(filter.check(1), Err("a: 1".to_string()));
}

#[test]
fn batched_match_asks_only_what_is_left() {
    let log = Log::default();
    let mut filter = Filter::new(
        vec![index(&log, "s0", &[2, 3], &[]), index(&log, "s1", &[4, 5, 6], &[])],
        vec![index(&log, "m0", &[2, 3, 4], &[]), index(&log, "m1", &[3, 4, 5], &[])],
        2,
        vec![index(&log, "a", &[1, 2, 3, 4, 5, 6, 7], &[]), index(&log, "b", &[2, 3, 4, 5, 6, 7], &[])],
        vec![index(&log, "n", &[6], &[])],
    );
    assert_eq!(batch(&mut filter, Select::Match, Rest::Drop), Ok(vec![3, 4]));
    assert_eq!(
        *log.borrow(),
        vec![
            Asked::Batch("a", (0..10).collect(), Select::Match, Rest::Drop),
            Asked::Batch("b", (1..8).collect(), Select::Match, Rest::Drop),
            Asked::Batch("n", (2..8).collect(), Select::NonMatch, Rest::Drop),
            Asked::Batch("s0", vec![2, 3, 4, 5, 7], Select::Match, Rest::Keep),
            Asked::Batch("s1", vec![4, 5, 7], Select::Match, Rest::Drop),
            Asked::Batch("m0", vec![], Select::Match, Rest::Keep),
            Asked::Batch("m0", vec![2, 3, 4, 5], Select::Match, Rest::Keep),
            Asked::Batch("m1", vec![2, 3, 4], Select::Match, Rest::Keep),
            Asked::Batch("m1", vec![5], Select::Match, Rest::Keep),
        ]
    );
}

#[test]
fn batched_non_match_asks_only_what_is_left() {
    let log = Log::default();
    let mut filter = Filter::new(
        vec![index(&log, "s0", &[2, 3], &[]), index(&log, "s1", &[4, 5, 6], &[])],
        vec![index(&log, "m0", &[2, 3, 4], &[]), index(&log, "m1", &[3, 4, 5], &[])],
        2,
        vec![index(&log, "a", &[1, 2, 3, 4, 5, 6, 7], &[]), index(&log, "b", &[2, 3, 4, 5, 6, 7], &[])],
        vec![index(&log, "n", &[6], &[])],
    );
    assert_eq!(
        batch(&mut filter, Select::NonMatch, Rest::Drop),
        Ok(vec![0, 1, 2, 5, 6, 7, 8, 9])
    );
    assert_eq!(
        *log.borrow(),
        vec![
            Asked::Batch("a", (0..10).collect(), Select::NonMatch, Rest::Keep),
            Asked::Batch("b", (1..8).collect(), Select::NonMatch, Rest::Keep),
            Asked::Batch("n", (2..8).collect(), Select::Match, Rest::Keep),
            Asked::Batch("s0", vec![2, 3, 4, 5, 7], Select::NonMatch, Rest::Keep),
            Asked::Batch("s1", vec![4, 5, 7], Select::NonMatch, Rest::Keep),
            Asked::Batch("m0", vec![2, 3, 4, 5], Select::NonMatch, Rest::Keep),
            Asked::Batch("m1", vec![2, 3, 4], Select::NonMatch, Rest::Keep),
        ]
    );
}

#[test]
fn batched_check_hands_on_the_first_error() {
    let log = Log::default();
    let mut filter = Filter::new(
        vec![index(&log, "should", &[2, 3], &[4])],
        vec![index(&log, "min_should", &[3], &[2])],
        1,
        vec![index(&log, "must", &[2, 3], &[])],
        vec![index(&log, "must_not", &[], &[4])],
    );
    // Point 4 fails `must`, so no other clause is asked of it; point 2 reaches `min_should`.
    assert_eq!(batch(&mut filter, Select::Match, Rest::Keep), Err("min_should: 2".to_string()));
    assert_eq!(batch(&mut filter, Select::NonMatch, Rest::Keep), Err("min_should: 2".to_string()));

    let mut filter = Filter::new(
        vec![],
        vec![],
        0,
        vec![index(&log, "a", &[1], &[]), index(&log, "b", &[1], &[1])],
        vec![index(&log, "c", &[], &[1])],
    );
    assert_eq!(batch(&mut filter, Select::Match, Rest::Keep), Err("b: 1".to_string()));
}

#[test]
fn a_failed_batch_leaves_the_filter_as_it_was() {
    let log = Log::default();
    let mut filter = Filter::new(
        vec![],
        vec![bits(&[1, 2]), bits(&[2, 3])],
        1,
        vec![index(&log, "a", &[1, 2, 3], &[9])],
        vec![],
    );
    assert_eq!(batch(&mut filter, Select::Match, Rest::Keep), Err("a: 9".to_string()));
    let mut ids = vec![3, 2, 1, 0];
    assert_eq!(filter.check_batched(&mut ids, Select::Match, Rest::Keep), Ok(3));
    assert_eq!(ids[3], 0);
}

/// A filter that asks each of its indexes of all points, of which the named one cannot read one.
fn failing_at(log: &Log, failing: &str) -> Filter {
    let every: Vec<u32> = (0..10).collect();
    let checker = |name: &'static str, matching: &[u32]| {
        let unreadable: &[u32] = if name == failing { &[5] } else { &[] };
        index(log, name, matching, unreadable)
    };
    Filter::new(
        vec![checker("should0", &[]), checker("should1", &every)],
        vec![checker("min_should0", &[]), checker("min_should1", &every)],
        1,
        vec![checker("must0", &every), checker("must1", &every)],
        vec![checker("must_not0", &[]), checker("must_not1", &[])],
    )
}

#[test]
fn no_checker_is_asked_after_the_first_error() {
    let order = [
        "must0", "must1", "must_not0", "must_not1", "should0", "should1", "min_should0",
        "min_should1",
    ];
    for select in [Select::Match, Select::NonMatch] {
        for rest in [Rest::Keep, Rest::Drop] {
            for last in 0..order.len() {
                let log = Log::default();
                let mut filter = failing_at(&log, order[last]);
                assert_eq!(
                    batch(&mut filter, select, rest),
                    Err(format!("{}: 5", order[last]))
                );
                let mut asked: Vec<&str> = Vec::new();
                for entry in log.borrow().iter() {
                    if let Asked::Batch(name, _, _, _) = entry {
                        asked.push(name);
                    }
                }
                asked.dedup();
                assert_eq!(asked, order[..=last].to_vec());
            }
        }
    }
}

#[test]
fn a_count_that_decides_nothing_asks_nothing() {
    let log = Log::default();
    for count in [0, 3, usize::MAX] {
        let mut filter = Filter::new(
            vec![],
            vec![index(&log, "a", &[1, 2], &[3]), index(&log, "b", &[2], &[4])],
            count,
            vec![bits(&[1, 2, 3])],
            vec![],
        );
        let (matches, non_matches) = if count == 0 {
            (vec![1, 2, 3], vec![0, 4, 5, 6, 7, 8, 9])
        } else {
            (vec![], (0..10).collect())
        };
        assert_eq!(batch(&mut filter, Select::Match, Rest::Drop), Ok(matches));
        assert_eq!(batch(&mut filter, Select::NonMatch, Rest::Keep), Ok(non_matches));
        assert_eq!(*log.borrow(), vec![]);
    }
}

/// An item that carries more than its point.
#[derive(Clone, Copy, Debug, PartialEq)]
struct Scored {
    score: i64,
    id: u32,
}

impl CheckItem for Scored {
    /// Only proofs speak of it.
    fn point(&self) -> u32 {
        unreachable!()
    }

    fn point_id(&self) -> u32 {
        self.id
    }
}

#[test]
fn items_move_as_a_whole_and_duplicates_stay() {
    let mut filter = Filter::new(vec![], vec![], 0, vec![bits(&[1, 3])], vec![]);
    let scored = |score: i64, id: u32| Scored { score, id };
    let mut items =
        vec![scored(10, 0), scored(11, 1), scored(12, 2), scored(13, 3), scored(14, 1)];
    let n = filter.check_batched(&mut items, Select::Match, Rest::Keep).unwrap();
    let mut front: Vec<i64> = items[..n].iter().map(|item| item.score).collect();
    front.sort_unstable();
    let mut back: Vec<i64> = items[n..].iter().map(|item| item.score).collect();
    back.sort_unstable();
    assert_eq!(front, vec![11, 13, 14]);
    assert_eq!(back, vec![10, 12]);
}

#[test]
fn test_bits_beyond_the_last_bit_are_unset() {
    let mut bits = TestBits(vec![true, false, true]);
    assert!(bits.test(0));
    assert!(!bits.test(1));
    assert!(bits.test(2));
    assert!(!bits.test(3));
    assert!(!bits.test(u32::MAX));
    assert_eq!(bits.check(2), Ok(true));
    let mut ids = vec![3, 2, 1, 0, u32::MAX];
    assert_eq!(bits.check_batched(&mut ids, Select::Match, Rest::Drop), Ok(2));
    assert_eq!(bits.partition(&mut ids, Select::NonMatch), 3);
    ids.sort_unstable();
    assert_eq!(ids, vec![0, 1, 2, 3, u32::MAX]);
}

#[test]
fn select_tells_its_side() {
    assert!(Select::Match.is_match());
    assert!(!Select::NonMatch.is_match());
}

#[test]
fn an_empty_batch_selects_nothing() {
    let mut filter = Filter::new(
        vec![bits(&[1])],
        vec![bits(&[1]), bits(&[2])],
        1,
        vec![bits(&[1])],
        vec![bits(&[2])],
    );
    let mut ids: Vec<u32> = vec![];
    assert_eq!(filter.check_batched(&mut ids, Select::Match, Rest::Drop), Ok(0));
    assert_eq!(filter.check_batched(&mut ids, Select::NonMatch, Rest::Keep), Ok(0));
}

#[test]
fn without_conditions_the_order_stays() {
    let mut filter = Filter::new(vec![], vec![], 0, vec![], vec![]);
    let mut ids = vec![3, 1, 2];
    assert_eq!(filter.check_batched(&mut ids, Select::Match, Rest::Drop), Ok(3));
    assert_eq!(ids, vec![3, 1, 2]);
    assert_eq!(filter.check_batched(&mut ids, Select::NonMatch, Rest::Drop), Ok(0));
    assert_eq!(ids, vec![3, 1, 2]);

    let mut filter = Filter::new(vec![], vec![bits(&[1])], 2, vec![], vec![]);
    assert_eq!(filter.check_batched(&mut ids, Select::Match, Rest::Drop), Ok(0));
    assert_eq!(ids, vec![3, 1, 2]);
    assert_eq!(filter.check_batched(&mut ids, Select::NonMatch, Rest::Drop), Ok(3));
    assert_eq!(ids, vec![3, 1, 2]);
}

#[test]
fn a_repeated_batch_selects_the_same() {
    let mut filter = Filter::new(
        vec![bits(&[1, 2, 3, 4])],
        vec![bits(&[2, 3]), bits(&[3, 4]), bits(&[4, 5])],
        1,
        vec![bits(&[1, 3, 4, 5])],
        vec![bits(&[5])],
    );
    let mut ids: Vec<u32> = (0..10).collect();
    for _ in 0..3 {
        assert_eq!(filter.check_batched(&mut ids, Select::Match, Rest::Keep), Ok(2));
        let mut selected = ids[..2].to_vec();
        selected.sort_unstable();
        assert_eq!(selected, vec![3, 4]);
    }
}

#[test]
fn counts_add_up_over_batches() {
    let mut filter = Filter::from_checker(bits(&[1, 4, 6]));
    let mut count = |mut ids: Vec<u32>| {
        filter.check_batched(&mut ids, Select::Match, Rest::Drop).unwrap()
    };
    assert_eq!(count(vec![1, 2, 4]), 2);
    assert_eq!(count(vec![6, 6, 0]), 2);
    assert_eq!(count(vec![1, 2, 4, 6, 6, 0]), 4);
}

#[test]
fn one_more_condition_narrows_or_widens() {
    let must = Filter::new(vec![], vec![], 0, vec![bits(&[1, 2, 3])], vec![]);
    let more = Filter::new(vec![], vec![], 0, vec![bits(&[1, 2, 3]), bits(&[2, 5])], vec![]);
    assert_eq!(passing(&must), vec![1, 2, 3]);
    assert_eq!(passing(&more), vec![2]);
    let should = Filter::new(vec![bits(&[1, 2, 3]), bits(&[2, 5])], vec![], 0, vec![], vec![]);
    assert_eq!(passing(&should), vec![1, 2, 3, 5]);
    let none = Filter::new(vec![], vec![], 0, vec![], vec![bits(&[1, 2, 3]), bits(&[2, 5])]);
    assert_eq!(passing(&none), vec![0, 4, 6, 7, 8, 9]);
}

/// A checker that selects what it likes, or fails if it has an error to fail with.
struct Erratic(u64, Option<&'static str>);

impl ConditionChecker for Erratic {
    type Error = String;

    /// Only proofs speak of it.
    fn condition(&self) -> Condition<String> {
        unreachable!()
    }

    /// Only proofs speak of it.
    fn obeys_partition() -> bool {
        false
    }

    fn check(&self, point_id: u32) -> Result<bool, String> {
        Ok(point_id % 2 == 0)
    }

    fn check_batched<K: CheckItem>(
        &mut self,
        ids: &mut [K],
        _select: Select,
        _rest: Rest,
    ) -> Result<usize, String> {
        if let Some(error) = self.1 {
            return Err(error.to_string());
        }
        self.0 = self.0.wrapping_mul(6364136223846793005).wrapping_add(1442695040888963407);
        if !ids.is_empty() {
            ids.fill(ids[0]);
        }
        Ok((self.0 >> 33) as usize % (ids.len() + 1))
    }
}

#[test]
fn an_erratic_checker_keeps_the_count_within_the_batch() {
    let erratic = |n: u64| -> Vec<ConditionCheckerEnum<Erratic>> {
        (0..n).map(|seed| ConditionCheckerEnum::Index(Erratic(seed, None))).collect()
    };
    for count in [0, 1, 2, 3, 4, 5, usize::MAX] {
        let mut filter =
            OptimizedFilter::new(erratic(3), erratic(4), count, erratic(2), erratic(2));
        for n in 0..50 {
            for select in [Select::Match, Select::NonMatch] {
                for rest in [Rest::Keep, Rest::Drop] {
                    let mut ids: Vec<u32> = (0..n).collect();
                    let selected = filter.check_batched(&mut ids, select, rest).unwrap();
                    assert!(selected <= n as usize);
                }
            }
        }
    }
}

#[test]
fn the_error_of_an_erratic_checker_is_handed_on() {
    let checkers = |errors: &[Option<&'static str>]| -> Vec<ConditionCheckerEnum<Erratic>> {
        errors.iter().map(|&error| ConditionCheckerEnum::Index(Erratic(7, error))).collect()
    };
    for select in [Select::Match, Select::NonMatch] {
        let mut ids: Vec<u32> = (0..10).collect();
        let mut filter = OptimizedFilter::new(
            checkers(&[None, Some("should")]),
            checkers(&[None, Some("min_should"), Some("later")]),
            2,
            checkers(&[None]),
            checkers(&[None, None]),
        );
        assert_eq!(
            filter.check_batched(&mut ids, select, Rest::Keep),
            Err("should".to_string())
        );
        let mut filter = OptimizedFilter::new(
            vec![],
            checkers(&[None, Some("min_should"), Some("later")]),
            2,
            checkers(&[None]),
            vec![],
        );
        assert_eq!(
            filter.check_batched(&mut ids, select, Rest::Keep),
            Err("min_should".to_string())
        );
        let mut filter =
            OptimizedFilter::new(vec![], checkers(&[Some("unasked")]), 0, vec![], vec![]);
        assert_eq!(filter.check_batched(&mut ids, select, Rest::Keep).is_ok(), true);
    }
}
