//! The classic reference target: two hundred free pairs.
use tatami::solve;

#[test]
fn solve_two_hundred() {
    assert_eq!(solve(200).unwrap(), 85765680);
}
