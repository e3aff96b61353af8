//! Boundary behaviour of the freeness predicate.
use tatami::prune::Tatami;
use tatami::queue::tfree;

// For k = 7 and l in the same quotient block (m = 1), the free window
// is exactly [lmin, lmax] = [10, 10].
#[test]
fn free_window_for_seven_is_exactly_ten() {
    assert!(!tfree(7, 9));
    assert!(tfree(7, 10));
    assert!(!tfree(7, 11));
}

// For k = 10 and m = 2 (l in 20..=29), lmin = 11 * 2 + 2 = 24 and
// lmax = 9 * 3 - 2 = 25: both boundaries are inclusive.
#[test]
fn free_window_boundaries_are_inclusive() {
    assert!(!tfree(10, 23));
    assert!(tfree(10, 24));
    assert!(tfree(10, 25));
    assert!(!tfree(10, 26));
}

// The serial engine's predicate and the task engine's predicate are
// the same formula.
#[test]
fn both_engines_agree_on_the_predicate() {
    let tatami = Tatami::new();
    let cases: Vec<(u64, u64)> = vec![
        (7, 10),
        (7, 11),
        (10, 24),
        (10, 25),
        (10, 26),
        (2, 35),
        (5, 14),
        (6, 33),
        (9, 22),
    ];
    for (k, l) in cases {
        assert_eq!(tatami.free(k, l), tfree(k, l));
    }
}

// Small k never admits a free pair: the window is empty until k = 7.
#[test]
fn no_free_pairs_below_seven() {
    for k in 2u64..7 {
        for l in k..400 {
            assert!(!tfree(k, l), "unexpected free pair ({}, {})", k, l);
        }
    }
}
