//! Fixed configuration constants of the default search.
use vstd::prelude::*;

verus! {

/// Ceiling on admissible values of `s` in the default configuration.
pub const SMAX: u64 = 100_000_000;

/// Length of the default prime table.
pub const PNUM: usize = 1300;

/// Budget of distinct prime factors per factorization: enough for any
/// ceiling the counter's value limit admits.
pub const FNUM: usize = 20;

/// Prime-table candidates are sought below this bound.
pub const PRIME_CAP: u64 = 4_000_000;

} // verus!
