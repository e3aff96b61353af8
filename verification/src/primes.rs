//! Prime table generation by trial division.
use vstd::prelude::*;
use vstd::arithmetic::div_mod::lemma_fundamental_div_mod;
use vstd::arithmetic::div_mod::lemma_fundamental_div_mod_converse;
use crate::defs::PNUM;
use crate::defs::PRIME_CAP;
use crate::model::is_prime;
use crate::model::prime_table_wf;

verus! {

/// The default prime table, as `Primes::new(PNUM)` builds it: a
/// well-formed table of primes below the candidate cap with no prime
/// skipped, of length `PNUM` — shorter only if the candidates below
/// the cap run out first, and then holding every prime below the cap.
pub open spec fn default_table(t: Seq<u64>) -> bool {
    &&& prime_table_wf(t)
    &&& forall|i: int| 0 <= i < t.len() ==> #[trigger] t[i] < PRIME_CAP
    &&& forall|q: u64|
        #![trigger t.contains(q)]
        t.len() >= 1 && 2 <= q < t[t.len() - 1] && is_prime(q as int) ==> t.contains(q)
    &&& (t.len() == PNUM || (t.len() < PNUM && (forall|q: u64|
        #![trigger is_prime(q as int)]
        2 <= q < PRIME_CAP && is_prime(q as int) ==> t.contains(q))))
}

/// The ordered table of the first primes.
pub struct Primes {
    pub primes: Vec<u64>,
}

impl Primes {
    /// The table is strictly increasing, every entry is prime, and no
    /// prime below the last entry is missing, so it is an initial
    /// segment of the sequence of all primes.
    pub open spec fn wf(&self) -> bool {
        &&& prime_table_wf(self.primes@)
        &&& forall|q: u64|
            #![trigger self.primes@.contains(q)]
            self.primes@.len() >= 1 && 2 <= q < self.primes@[self.primes@.len() - 1] && is_prime(
                q as int,
            ) ==> self.primes@.contains(q)
    }

    /// Build the table of the first `n` primes, scanning candidates in
    /// increasing order below `PRIME_CAP`.  The table is shorter than
    /// `n` only when the candidates below the cap are exhausted, and
    /// then it holds every prime below the cap.
    pub fn new(n: usize) -> (r: Primes)
        ensures
            r.wf(),
            forall|i: int| 0 <= i < r.primes@.len() ==> #[trigger] r.primes@[i] < PRIME_CAP,
            r.primes@.len() == n || (r.primes@.len() < n && (forall|q: u64|
                #![trigger is_prime(q as int)]
                2 <= q < PRIME_CAP && is_prime(q as int) ==> r.primes@.contains(q))),
    {
        let mut primes: Vec<u64> = Vec::new();
        let mut p: u64 = 2;
        while primes.len() < n && p < PRIME_CAP
            invariant
                primes@.len() <= n,
                2 <= p <= PRIME_CAP,
                forall|i: int| 0 <= i < primes@.len() ==> is_prime(#[trigger] primes@[i] as int),
                forall|i: int| 0 <= i < primes@.len() ==> 2 <= #[trigger] primes@[i] < p,
                forall|i: int, j: int| 0 <= i < j < primes@.len() ==> primes@[i] < primes@[j],
                forall|q: u64|
                    #![trigger is_prime(q as int)]
                    2 <= q < p && is_prime(q as int) ==> primes@.contains(q),
                primes@.len() >= 1 ==> primes@[0] == 2,
                primes@.len() >= 2 ==> primes@[1] == 3,
            decreases PRIME_CAP - p,
        {
            let ghost before = primes@;
            if is_prime_u64(p) {
                proof {
                    if primes@.len() == 0 {
                        assert(is_prime(2)) by {
                            assert(forall|d: int| 2 <= d < 2 ==> #[trigger] (2int % d) != 0);
                        }
                        if p > 2 {
                            assert(primes@.contains(2u64));
                            assert(false);
                        }
                    } else if primes@.len() == 1 {
                        assert(is_prime(3)) by {
                            assert(3int % 2int != 0);
                        }
                        if p > 3 {
                            assert(primes@.contains(3u64));
                            assert(primes@[0] == 3);
                            assert(false);
                        }
                    }
                }
                primes.push(p);
                proof {
                    assert(forall|q: u64|
                        #![trigger is_prime(q as int)]
                        2 <= q < p + 1 && is_prime(q as int) ==> primes@.contains(q)) by {
                        assert(forall|q: u64| before.contains(q) ==> primes@.contains(q)) by {
                            assert(forall|i: int|
                                0 <= i < before.len() ==> primes@[i] == #[trigger] before[i]);
                        }
                        assert(primes@[primes@.len() - 1] == p);
                        assert(primes@.contains(p));
                    }
                }
            } else {
                proof {
                    assert(forall|q: u64|
                        #![trigger is_prime(q as int)]
                        2 <= q < p + 1 && is_prime(q as int) ==> primes@.contains(q));
                }
            }
            p = p + 1;
        }
        proof {
            let t = primes@;
            if t.len() >= 1 {
                assert(forall|q: u64|
                    #![trigger t.contains(q)]
                    2 <= q < t[t.len() - 1] && is_prime(q as int) ==> t.contains(q)) by {
                    assert(forall|q: u64|
                        2 <= q < t[t.len() - 1] && is_prime(q as int) ==> q < p && is_prime(
                            q as int,
                        ));
                }
            }
        }
        Primes { primes }
    }
}

/// Trial division primality test: no divisor up to the square root
/// means no divisor at all.
fn is_prime_u64(p: u64) -> (r: bool)
    requires
        2 <= p <= PRIME_CAP,
    ensures
        r == is_prime(p as int),
{
    let mut d: u64 = 2;
    while d <= p / d
        invariant
            2 <= d <= p,
            p <= PRIME_CAP,
            forall|x: int| 2 <= x < d ==> #[trigger] (p as int % x) != 0,
        decreases p - d,
    {
        proof {
            crate::model::lemma_div_mul_bound(d as int, d as int, p as int);
            assert(d * d <= p);
            assert(d < p) by (nonlinear_arith)
                requires
                    2 <= d,
                    d * d <= p,
            ;
        }
        if p % d == 0 {
            proof {
                assert(p as int % (d as int) == 0);
            }
            return false;
        }
        d = d + 1;
    }
    proof {
        crate::model::lemma_div_mul_bound(d as int, d as int, p as int);
        assert(d * d > p);
        lemma_no_small_divisor_prime(p as int, d as int);
    }
    true
}

/// If `p` has no divisor below `d` and `d * d` exceeds `p`, then `p`
/// is prime: any factorization `p == x * y` puts one factor below the
/// square root.
proof fn lemma_no_small_divisor_prime(p: int, d: int)
    requires
        p >= 2,
        d >= 2,
        d * d > p,
        forall|x: int| 2 <= x < d ==> #[trigger] (p % x) != 0,
    ensures
        is_prime(p),
{
    assert forall|x: int| 2 <= x < p implies #[trigger] (p % x) != 0 by {
        if p % x == 0 {
            if x < d {
                assert(false);
            } else {
                let y = p / x;
                lemma_fundamental_div_mod(p, x);
                assert(p == x * y);
                assert(y >= 1) by (nonlinear_arith)
                    requires
                        p == x * y,
                        p >= 2,
                        x >= 2,
                ;
                assert(y >= 2) by {
                    if y == 1 {
                        assert(p == x) by (nonlinear_arith)
                            requires
                                p == x * y,
                                y == 1,
                        ;
                        assert(false);
                    }
                }
                assert(y < d) by (nonlinear_arith)
                    requires
                        p == x * y,
                        x >= d,
                        y >= 1,
                        d * d > p,
                        d >= 2,
                ;
                lemma_fundamental_div_mod_converse(p, y, x, 0);
                assert(p % y == 0);
                assert(false);
            }
        }
    }
}

} // verus!
