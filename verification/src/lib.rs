//! Filters over points, checked one point at a time or a batch at a time.
//!
//! A filter holds conditions in four clauses: `should`, `min_should`, `must` and `must_not`. A
//! check of one point asks the conditions one after the other and stops as soon as the answer is
//! known. A batched check moves the items of a buffer so that those on the selected side stand at
//! its front, and hands each condition only the items that are still undecided.

pub mod clause_laws;
pub mod condition_checker;
mod counting;
pub mod end_laws;
pub mod filter_model;
pub mod laws;
pub mod optimized_filter;
mod partition;
mod selection;
pub mod test_bits;
