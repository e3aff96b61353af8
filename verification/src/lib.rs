//! Smallest integer with a prescribed number of "free" divisor pairs.
//!
//! A divisor pair `(k, l)` of `s` (with `k * l == s` and `k <= l`) is *free*
//! when, writing `m = l / k`, the inequality
//! `(k + 1) * m + 2 <= l <= (k - 1) * (m + 1) - 2` holds.  Given a target
//! count `n`, the search looks for the smallest `s` below a configured
//! ceiling whose number of free divisor pairs is exactly `n`.  Candidates
//! are enumerated as prime-power factorizations drawn from a fixed ordered
//! prime table, pruned by the best value found so far.

pub mod defs;
pub mod error;
pub mod model;
pub mod pairs;
pub mod primes;
pub mod prune;
pub mod queue;

pub use prune::solve;
