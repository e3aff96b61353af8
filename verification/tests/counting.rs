//! The divisor-count filter and the divisor-pair counter against
//! brute-force enumeration.
use tatami::queue::Factors;
use tatami::queue::sigma;
use tatami::queue::t;
use tatami::queue::tfree;

fn factorize(mut s: u64) -> (Vec<u64>, Vec<u64>) {
    let mut p: Vec<u64> = Vec::new();
    let mut n: Vec<u64> = Vec::new();
    let mut d: u64 = 2;
    while d * d <= s {
        if s % d == 0 {
            let mut e: u64 = 0;
            while s % d == 0 {
                s /= d;
                e += 1;
            }
            p.push(d);
            n.push(e);
        }
        d += 1;
    }
    if s > 1 {
        p.push(s);
        n.push(1);
    }
    (p, n)
}

fn snapshot_of(s: u64) -> Factors {
    let (p, n) = factorize(s);
    Factors { s, i: 0, p, n }
}

fn brute_divisor_count(s: u64) -> u64 {
    let mut c: u64 = 0;
    for k in 1..=s {
        if s % k == 0 {
            c += 1;
        }
    }
    c
}

fn brute_free_pairs(s: u64) -> u64 {
    let mut c: u64 = 0;
    let mut k: u64 = 2;
    while k * k <= s {
        if s % k == 0 && tfree(k, s / k) {
            c += 1;
        }
        k += 1;
    }
    c
}

// sigma equals the exact divisor count of the factorized value.
#[test]
fn sigma_matches_brute_force_divisor_count() {
    for s in 2u64..=2_000 {
        let f = snapshot_of(s);
        assert_eq!(sigma(&f), brute_divisor_count(s), "sigma wrong at s = {}", s);
    }
    let f = snapshot_of(12);
    assert_eq!(sigma(&f), 6);
    let f = snapshot_of(70);
    assert_eq!(sigma(&f), 8);
}

// The factorization-walking counter equals a direct scan over all
// divisors k of s with k <= s / k.
#[test]
fn counter_matches_brute_force_scan() {
    for s in 2u64..=10_000 {
        let f = snapshot_of(s);
        assert_eq!(t(&f), brute_free_pairs(s), "counter wrong at s = {}", s);
    }
}

// Pinned counts at the first values reaching each small target.
#[test]
fn counter_exact_values() {
    let cases: Vec<(u64, u64)> = vec![
        (2, 0),
        (70, 1),
        (198, 2),
        (336, 3),
        (504, 4),
        (1320, 5),
        (1440, 6),
        (3696, 7),
        (85765680, 200),
    ];
    for (s, want) in cases {
        let f = snapshot_of(s);
        assert_eq!(t(&f), want, "count wrong at s = {}", s);
    }
}
