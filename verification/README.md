# segment_filter

A filter over points, verified with Verus.

A filter is made of conditions in four clauses. A point passes if at least one condition of
`should` matches (where there are any), at least `min_should_count` of `min_should` match, all of
`must` match and none of `must_not` does. Conditions are checkers that an index supplies, bit sets,
or filters again.

- `check` answers for one point.
- `check_batched` moves the matching (or the non-matching) items of a buffer to its front, in
  place, and agrees with `check` on every item.

## Layout

- `src/condition_checker.rs`: the traits `ConditionChecker` and `CheckItem`, and `Condition`, the
  model of a checker: what it matches and how its checks may end.
- `src/test_bits.rs`: a checker that holds its answers.
- `src/filter_model.rs`: the condition that a filter states, which conditions a check asks, and
  what a batched check asks each of them.
- `src/optimized_filter.rs`: `OptimizedFilter` and the checkers that can stand in it.
- `src/selection.rs`: searches of a batch for what all checkers select, what any selects, and what
  at least so many select.
- `src/partition.rs`, `src/counting.rs`: what parts of a buffer hold.
- `src/laws.rs`: what holds of checkers and filters as a whole.

## Checkers of your own

Implement `ConditionChecker` and put the checker into a filter as `ConditionCheckerEnum::Index`.
The proofs hold for a checker that keeps the trait's contract: what it matches is fixed, and a
batched check selects exactly the items that it matches. A type of checkers whose batched checks do
not keep to that says so by `obeys_partition`; of a filter over it, it is still proved that a
batched check ends without a panic and with a count within the batch, that an error is that of the
first checker to fail, and that no checker is asked after it. A checker outside Verus has to write a
body for `condition` that is never run.
