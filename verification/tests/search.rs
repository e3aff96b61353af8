//! End-to-end behaviour of the serial search: smallest finds,
//! configuration validity, and the monotone bound.
use tatami::error::ErrorKind;
use tatami::error::TatamiError;
use tatami::primes::Primes;
use tatami::prune::Tatami;
use tatami::queue;
use tatami::solve;

// The smallest value with exactly one free pair.
#[test]
fn solve_one_is_seventy() {
    assert_eq!(solve(1).unwrap(), 70);
}

// Running the same search twice on one engine yields the same answer.
#[test]
fn search_is_repeatable() {
    let mut tatami = Tatami::new();
    let first = tatami.inv(1).unwrap();
    let second = tatami.inv(1).unwrap();
    assert_eq!(first, 70);
    assert_eq!(first, second);
}

#[test]
fn small_targets() {
    assert_eq!(solve(2).unwrap(), 198);
    assert_eq!(solve(3).unwrap(), 336);
    assert_eq!(solve(4).unwrap(), 504);
}

// A table too short for the factor budget is rejected before any
// search work.
#[test]
fn short_table_is_rejected() {
    let err = Tatami::with_config(Primes::new(5), 1_000_000).err().unwrap();
    assert_eq!(err.kind, ErrorKind::Configuration);
}

// A largest prime below the ceiling's square root is rejected too.
#[test]
fn small_largest_prime_is_rejected() {
    let err = Tatami::with_config(Primes::new(25), 1_000_000).err().unwrap();
    assert_eq!(err.kind, ErrorKind::Configuration);
}

// A feasible reduced configuration searches normally.
#[test]
fn reduced_ceiling_still_finds_the_answer() {
    let mut tatami = Tatami::with_config(Primes::new(100), 10_000).unwrap();
    assert_eq!(tatami.inv(1).unwrap(), 70);
}

// A ceiling below every admissible value reports a not-found error,
// and the bound is then still sitting at the ceiling.
#[test]
fn ceiling_below_every_find_reports_not_found() {
    let mut tatami = Tatami::with_config(Primes::new(100), 50).unwrap();
    let err = tatami.inv(1).err().unwrap();
    assert_eq!(err.kind, ErrorKind::NotFound);
    assert_eq!(err.message(), "no admissible value below the ceiling");
    assert_eq!(tatami.smin, 50);
}

// A ceiling beyond what 32-bit arithmetic could hold is admissible:
// the configuration gate only asks for a big enough table.
#[test]
fn wide_ceiling_is_accepted_and_searched() {
    let table = Primes::new(5_000);
    assert_eq!(*table.primes.last().unwrap(), 48_611);
    let mut tatami = Tatami::with_config(table, 2_000_000_000).unwrap();
    assert_eq!(tatami.inv(1).unwrap(), 70);
}

#[test]
fn error_constructors() {
    let e = TatamiError::new("borked");
    assert_eq!(e.kind, ErrorKind::NotFound);
    assert_eq!(e.message(), "borked");
    let e = TatamiError::config("bad table");
    assert_eq!(e.kind, ErrorKind::Configuration);
    assert_eq!(e.message(), "bad table");
}

// The shared bound only ever decreases: it ends at or below where it
// started, and a second pass from the found bound does not raise it.
#[test]
fn bound_never_increases() {
    let table = Primes::new(tatami::defs::PNUM);
    let smax = tatami::defs::SMAX;
    let mut xp = queue::Factors::new();
    let mut bound = smax;
    queue::twork(&table.primes, smax, &mut xp, 1, &mut bound);
    assert!(bound <= smax);
    assert_eq!(bound, 70);
    let mut again = bound;
    queue::twork(&table.primes, smax, &mut xp, 1, &mut again);
    assert_eq!(again, 70);
}
