//! The serial branch-and-bound search engine.
//!
//! A `Tatami` owns a prime table, a ceiling, and the mutable state of
//! one depth-first search: the current factorization, its value `s`,
//! and the best admissible value found so far (`smin`).
use vstd::prelude::*;
use vstd::arithmetic::power::pow;
use vstd::arithmetic::power::lemma_pow1;
use crate::defs::FNUM;
use crate::defs::PNUM;
use crate::defs::SMAX;
use crate::error::ErrorKind;
use crate::error::TatamiError;
use crate::model::bound_inv;
use crate::model::fact_wf;
use crate::model::hit;
use crate::model::is_prime;
use crate::model::pair_count;
use crate::model::prefix_prod;
use crate::model::prime_table_wf;
use crate::model::prod_pows;
use crate::model::spec_config_ok;
use crate::model::spec_free;
use crate::model::spec_sigma;
use crate::model::extends;
use crate::model::in_table_from;
use crate::model::lemma_div_mul_bound;
use crate::model::lemma_extends_bump_base;
use crate::model::lemma_extends_prod_ge;
use crate::model::lemma_extends_push;
use crate::model::lemma_extends_raise_exp;
use crate::model::lemma_extends_refl;
use crate::model::lemma_extends_split_push;
use crate::model::lemma_exponent_bound;
use crate::model::lemma_mul_div_le;
use crate::model::lemma_prefix_prod_le;
use crate::model::lemma_prod_pows_push;
use crate::model::lemma_prod_pows_update_inc;
use crate::pairs;
use crate::pairs::VALUE_LIMIT;
use crate::primes::default_table;
use crate::primes::Primes;

verus! {

/// The mutable factorization of one search branch: parallel rows of
/// primes and exponents, one slot per distinct prime in use.
pub struct Factors {
    pub p: Vec<u64>,
    pub n: Vec<u64>,
}

impl Factors {
    /// An empty factorization with room reserved for `size` slots.
    pub fn new(size: usize) -> (r: Factors)
        ensures
            r.p@.len() == 0,
            r.n@.len() == 0,
    {
        Factors { p: Vec::with_capacity(size), n: Vec::with_capacity(size) }
    }
}

/// The serial search: configuration plus the state of one running
/// depth-first traversal.
pub struct Tatami {
    /// The target count of free divisor pairs.
    pub isn: u64,
    /// The factorization of the branch being explored.
    pub factors: Factors,
    /// The best (smallest) admissible value found so far; starts at
    /// the ceiling.
    pub smin: u64,
    /// The value of the current factorization, kept incrementally.
    pub s: u64,
    /// The ordered prime table.
    pub primes: Vec<u64>,
    /// The ceiling on admissible values.
    pub smax: u64,
}

impl Tatami {
    /// Persistent well-formedness: a valid prime table and a ceiling
    /// within machine limits.
    pub open spec fn wf(&self) -> bool {
        &&& prime_table_wf(self.primes@)
        &&& 2 <= self.smax
        &&& 2 * self.smax <= VALUE_LIMIT
    }

    /// The invariant of a running search: the factorization is
    /// well formed, `s` is its value and stays below twice the
    /// ceiling, and `smin` is the ceiling or a checked find.
    pub open spec fn search_inv(&self) -> bool {
        &&& self.wf()
        &&& self.factors.p@.len() >= 1
        &&& fact_wf(self.factors.p@, self.factors.n@)
        &&& self.s == prod_pows(self.factors.p@, self.factors.n@)
        &&& 2 <= self.s <= 2 * self.smax
        &&& self.smin <= self.smax
        &&& bound_inv(self.primes@, self.smin as int, self.smax as int, self.isn as int)
    }

    /// A search over the default table and ceiling.  The table is the
    /// default one: the first `PNUM` primes.
    pub fn new() -> (r: Tatami)
        ensures
            r.wf(),
            r.smax == SMAX,
            r.smin == SMAX,
            default_table(r.primes@),
    {
        let table = Primes::new(PNUM);
        Tatami {
            isn: 0,
            factors: Factors::new(FNUM),
            smin: SMAX,
            s: 2,
            primes: table.primes,
            smax: SMAX,
        }
    }

    /// A search over a caller-supplied table and ceiling.  An
    /// infeasible configuration is rejected here, before any search
    /// work begins.
    pub fn with_config(table: Primes, smax: u64) -> (r: Result<Tatami, TatamiError>)
        requires
            prime_table_wf(table.primes@),
            2 <= smax,
            2 * smax <= VALUE_LIMIT,
        ensures
            match r {
                Ok(t) => t.wf() && t.smax == smax && t.smin == smax && t.primes@
                    == table.primes@ && spec_config_ok(table.primes@, FNUM as int, smax as int),
                Err(e) => e.kind == ErrorKind::Configuration && !spec_config_ok(
                    table.primes@,
                    FNUM as int,
                    smax as int,
                ),
            },
    {
        let t = Tatami {
            isn: 0,
            factors: Factors::new(FNUM),
            smin: smax,
            s: 2,
            primes: table.primes,
            smax,
        };
        if t.config_ok() {
            Ok(t)
        } else {
            Err(TatamiError::config("infeasible ceiling/prime-table configuration"))
        }
    }

    /// Check the feasibility of the ceiling/table pair: at least
    /// `FNUM` primes, their product above the ceiling, and the last
    /// prime above the ceiling's square root.
    pub fn config_ok(&self) -> (r: bool)
        requires
            self.wf(),
        ensures
            r == spec_config_ok(self.primes@, FNUM as int, self.smax as int),
    {
        let len = self.primes.len();
        if len < FNUM {
            return false;
        }
        let last = self.primes[len - 1];
        proof {
            assert(is_prime(self.primes@[len - 1] as int));
        }
        if last <= self.smax / last + 1 {
            return false;
        }
        let ghost t = self.primes@;
        let mut acc: u64 = 1;
        let mut m: usize = 0;
        proof {
            assert(forall|i: int| 0 <= i < t.len() ==> #[trigger] t[i] >= 1) by {
                assert(forall|i: int| 0 <= i < t.len() ==> is_prime(#[trigger] t[i] as int));
            }
        }
        while m < FNUM
            invariant
                m <= FNUM,
                FNUM <= t.len(),
                t == self.primes@,
                self.wf(),
                acc == prefix_prod(t, m as int),
                1 <= acc <= self.smax,
                forall|i: int| 0 <= i < t.len() ==> #[trigger] t[i] >= 1,
                (t[t.len() - 1] as int) > self.smax as int / (t[t.len() - 1] as int) + 1,
            decreases FNUM - m,
        {
            let pm = self.primes[m];
            proof {
                lemma_div_mul_bound(acc as int, pm as int, self.smax as int);
                assert(prefix_prod(t, m as int + 1) == prefix_prod(t, m as int) * t[m as int]);
            }
            if pm > self.smax / acc {
                proof {
                    lemma_prefix_prod_le(t, m as int + 1, FNUM as int);
                }
                return true;
            }
            proof {
                assert(acc * pm >= 1) by (nonlinear_arith)
                    requires
                        acc >= 1,
                        pm >= 1,
                ;
            }
            acc = acc * pm;
            m = m + 1;
        }
        false
    }

    /// Decide freeness of the divisor pair `(k, l)`.
    pub fn free(&self, k: u64, l: u64) -> (r: bool)
        requires
            2 <= k <= l,
            l <= VALUE_LIMIT,
        ensures
            r == spec_free(k as int, l as int),
    {
        pairs::free(k, l)
    }

    /// Exact divisor count of the current factorization.
    pub fn sigma(&self) -> (r: u64)
        requires
            self.search_inv(),
        ensures
            r == spec_sigma(self.factors.n@),
    {
        proof {
            lemma_primes_ge_two(self.factors.p@, self.factors.n@);
        }
        pairs::divisor_count(&self.factors.p, &self.factors.n)
    }

    /// Count of free divisor pairs of the current factorization.
    pub fn t(&self) -> (r: u64)
        requires
            self.search_inv(),
        ensures
            r == pair_count(self.factors.p@, self.factors.n@),
    {
        proof {
            lemma_primes_ge_two(self.factors.p@, self.factors.n@);
        }
        pairs::count_free_pairs(&self.factors.p, &self.factors.n)
    }

    /// One node of the depth-first traversal.  `p` is the prime of the
    /// highest slot in use and `i` the table index of the next
    /// candidate prime.  Checks the node, then explores both kinds of
    /// children: a deeper power of `p`, and a new slot for each later
    /// prime that could still beat the bound.  The factorization is
    /// restored on return.  The bound never increases, every bound it
    /// records is a checked find, and on return it is at or below the
    /// value of every candidate reachable from this node whose free
    /// pairs number exactly the target: pruning discards only
    /// subtrees whose every value exceeds the bound.
    fn work(&mut self, p: u64, i: usize)
        requires
            old(self).search_inv(),
            p == old(self).factors.p@[old(self).factors.p@.len() - 1],
            1 <= i <= old(self).primes@.len(),
            forall|j: int| i <= j < old(self).primes@.len() ==> old(self).primes@[j] > p,
            extends(
                old(self).primes@,
                seq![old(self).primes@[0]],
                seq![1u64],
                1,
                old(self).factors.p@,
                old(self).factors.n@,
            ),
        ensures
            final(self).factors.p@ == old(self).factors.p@,
            final(self).factors.n@ == old(self).factors.n@,
            final(self).s == old(self).s,
            final(self).isn == old(self).isn,
            final(self).smax == old(self).smax,
            final(self).primes@ == old(self).primes@,
            final(self).smin <= old(self).smin,
            final(self).search_inv(),
            forall|p2: Seq<u64>, e2: Seq<u64>|
                #[trigger] extends(
                    old(self).primes@,
                    old(self).factors.p@,
                    old(self).factors.n@,
                    i as int,
                    p2,
                    e2,
                ) && pair_count(p2, e2) == old(self).isn ==> final(self).smin <= prod_pows(
                    p2,
                    e2,
                ),
        decreases 2 * old(self).smax - old(self).s,
    {
        let ghost pre = *self;
        let ghost t = pre.primes@;
        let ghost cp = pre.factors.p@;
        let ghost ce = pre.factors.n@;
        let ghost lastp = cp.len() - 1;
        let s = self.s;
        proof {
            crate::model::lemma_pair_count_le_sigma(cp, ce);
            lemma_primes_ge_two(cp, ce);
            lemma_exponent_bound(cp, ce, lastp, 0);
            assert(forall|m: int| 0 <= m < t.len() ==> #[trigger] t[m] >= 1) by {
                assert(forall|m: int| 0 <= m < t.len() ==> is_prime(#[trigger] t[m] as int));
            }
        }
        let ghost e_bump: u64 = (ce[lastp] + 1) as u64;
        let ghost cea = ce.update(lastp, e_bump);
        let sig = self.sigma();
        if sig >= self.isn {
            let r = self.t();
            if r == self.isn && s < self.smin {
                proof {
                    assert(prod_pows(cp, ce) == s as int);
                    assert(extends(t, seq![t[0]], seq![1u64], 1, cp, ce));
                    assert(hit(t, s as int, self.isn as int));
                }
                self.smin = s;
            }
        }
        let ghost smin_chk = self.smin;
        proof {
            assert(pair_count(cp, ce) == pre.isn ==> smin_chk <= s);
        }
        let pmax = self.smin / s + 1;
        let ghost smin_pm = self.smin;
        proof {
            lemma_mul_div_le(smin_pm as int, s as int);
        }
        if p <= pmax {
            proof {
                crate::model::lemma_step_fits(
                    s as int,
                    p as int,
                    smin_pm as int,
                    self.smax as int,
                    pmax as int,
                );
                lemma_extends_raise_exp(t, seq![t[0]], seq![1u64], 1, cp, ce, lastp, e_bump);
            }
            let last = self.factors.n.len() - 1;
            let en = self.factors.n[last];
            self.factors.n[last] = en + 1;
            proof {
                assert(self.factors.n@ =~= cea);
                lemma_prod_pows_update_inc(cp, ce, cea, lastp, 0);
            }
            self.s = s * p;
            self.work(p, i);
            self.factors.n[last] = en;
            self.s = s;
            proof {
                assert(self.factors.n@ =~= ce);
            }
        }
        let ghost smin_a = self.smin;
        proof {
            // the node itself and the whole deeper-power subtree are
            // settled before the new-slot loop starts
            assert forall|p2: Seq<u64>, e2: Seq<u64>|
                extends(t, cp, ce, i as int, p2, e2) && pair_count(p2, e2) == pre.isn && (
                e2[lastp] > ce[lastp] || p2.len() == cp.len()) implies smin_a <= prod_pows(
                p2,
                e2,
            ) by {
                if e2[lastp] > ce[lastp] {
                    lemma_extends_bump_base(t, cp, ce, i as int, p2, e2, e_bump);
                    if p <= pmax {
                    } else {
                        lemma_extends_prod_ge(t, cp, cea, i as int, p2, e2);
                        lemma_prod_pows_update_inc(cp, ce, cea, lastp, 0);
                        lemma_div_mul_bound(s as int, p as int - 1, smin_pm as int);
                        assert(s as int * (p as int) == s as int * (p as int - 1) + s as int)
                            by (nonlinear_arith);
                    }
                } else {
                    assert(p2 =~= cp);
                    assert(e2 =~= ce);
                }
            }
        }
        let mut j = i;
        while j < self.primes.len() && self.primes[j] <= pmax
            invariant
                pre == *old(self),
                t == pre.primes@,
                cp == pre.factors.p@,
                ce == pre.factors.n@,
                lastp == cp.len() - 1,
                e_bump == ce[lastp] + 1,
                cea == ce.update(lastp, e_bump),
                1 <= i <= j <= t.len(),
                extends(t, seq![t[0]], seq![1u64], 1, cp, ce),
                self.primes@ == t,
                self.smax == pre.smax,
                self.isn == pre.isn,
                self.factors.p@ == cp,
                self.factors.n@ == ce,
                self.s == pre.s,
                s == pre.s,
                p == cp[lastp],
                self.search_inv(),
                self.smin <= smin_a,
                smin_a <= pre.smin,
                smin_a <= smin_pm,
                smin_pm <= pre.smax,
                pmax == smin_pm as int / s as int + 1,
                forall|jj: int| i <= jj < t.len() ==> t[jj] > p,
                forall|p2: Seq<u64>, e2: Seq<u64>|
                    #[trigger] extends(t, cp, ce, i as int, p2, e2) && pair_count(p2, e2)
                        == pre.isn && (e2[lastp] > ce[lastp] || p2.len() == cp.len()
                        || !in_table_from(t, p2[cp.len() as int], j as int)) ==> self.smin
                        <= prod_pows(p2, e2),
            decreases t.len() - j,
        {
            let pj = self.primes[j];
            proof {
                assert(is_prime(t[j as int] as int));
                lemma_mul_div_le(smin_pm as int, s as int);
                crate::model::lemma_step_fits(
                    s as int,
                    pj as int,
                    smin_pm as int,
                    self.smax as int,
                    pmax as int,
                );
                lemma_prod_pows_push(cp, ce, pj, 1, 0);
                lemma_pow1(pj as int);
                lemma_extends_push(t, seq![t[0]], seq![1u64], 1, cp, ce, j as int, 1);
            }
            self.factors.p.push(pj);
            self.factors.n.push(1);
            self.s = s * pj;
            proof {
                assert(self.factors.p@ =~= cp.push(pj));
                assert(self.factors.n@ =~= ce.push(1u64));
                assert(fact_wf(self.factors.p@, self.factors.n@)) by {
                    assert(forall|m: int|
                        0 <= m < cp.len() ==> cp[m] == #[trigger] self.factors.p@[m]);
                    assert(forall|m: int|
                        0 <= m < cp.len() - 1 ==> #[trigger] cp[m] < cp[cp.len() - 1]);
                }
            }
            self.work(pj, j + 1);
            self.factors.p.pop();
            self.factors.n.pop();
            self.s = s;
            proof {
                assert(self.factors.p@ =~= cp);
                assert(self.factors.n@ =~= ce);
                let smin_it = self.smin;
                assert forall|p2: Seq<u64>, e2: Seq<u64>|
                    extends(t, cp, ce, i as int, p2, e2) && pair_count(p2, e2) == pre.isn && (
                    e2[lastp] > ce[lastp] || p2.len() == cp.len() || !in_table_from(
                        t,
                        p2[cp.len() as int],
                        j as int + 1,
                    )) implies smin_it <= prod_pows(p2, e2) by {
                    if !(e2[lastp] > ce[lastp] || p2.len() == cp.len()) {
                        let q = p2[cp.len() as int];
                        assert(in_table_from(t, q, i as int));
                        let j2 = crate::model::lemma_in_table_index(t, q, i as int);
                        if j2 < j {
                            assert(!in_table_from(t, q, j as int)) by {
                                if in_table_from(t, q, j as int) {
                                    let j3 = crate::model::lemma_in_table_index(
                                        t,
                                        q,
                                        j as int,
                                    );
                                    assert(t[j2] < t[j3]);
                                    assert(false);
                                }
                            }
                        } else if j2 == j {
                            assert(e2[lastp] == ce[lastp]);
                            lemma_extends_split_push(t, cp, ce, i as int, p2, e2, j as int);
                        } else {
                            assert(in_table_from(t, q, j as int + 1));
                        }
                    }
                }
            }
            j = j + 1;
        }
        proof {
            assert forall|p2: Seq<u64>, e2: Seq<u64>|
                extends(t, cp, ce, i as int, p2, e2) && pair_count(p2, e2)
                    == pre.isn implies self.smin <= prod_pows(p2, e2) by {
                if !(e2[lastp] > ce[lastp] || p2.len() == cp.len()) {
                    let q = p2[cp.len() as int];
                    if in_table_from(t, q, j as int) {
                        let j3 = crate::model::lemma_in_table_index(t, q, j as int);
                        assert(j < t.len());
                        let pjv = t[j as int];
                        assert(pjv > pmax);
                        assert(e2[lastp] == ce[lastp]);
                        lemma_extends_split_push(t, cp, ce, i as int, p2, e2, j3);
                        assert(forall|m: int| 0 <= m < t.len() ==> #[trigger] t[m] >= 1) by {
                            assert(forall|m: int|
                                0 <= m < t.len() ==> is_prime(#[trigger] t[m] as int));
                        }
                        assert(forall|m: int|
                            0 <= m < cp.push(t[j3]).len() ==> #[trigger] cp.push(t[j3])[m]
                                >= 1);
                        lemma_extends_prod_ge(
                            t,
                            cp.push(t[j3]),
                            ce.push(1u64),
                            j3 + 1,
                            p2,
                            e2,
                        );
                        lemma_prod_pows_push(cp, ce, t[j3], 1, 0);
                        lemma_pow1(t[j3] as int);
                        assert(t[j3] >= pjv);
                        lemma_div_mul_bound(s as int, pjv as int - 1, smin_pm as int);
                        assert(s as int * (t[j3] as int) >= s as int * (pjv as int))
                            by (nonlinear_arith)
                            requires
                                s >= 0,
                                t[j3] >= pjv,
                        ;
                        assert(s as int * (pjv as int) == s as int * (pjv as int - 1)
                            + s as int) by (nonlinear_arith);
                    }
                }
            }
        }
    }

    /// Run the search for target count `n` and report the smallest
    /// find, or the reason there is none: an infeasible configuration,
    /// or a completed search with nothing admissible below the
    /// ceiling.  An answer is the minimum over the search's candidate
    /// space: the values the table can express, products of an
    /// initial power of two and higher powers of larger table primes
    /// (see `hit`); a not-found error means no such candidate below
    /// the ceiling has the target count.
    pub fn inv(&mut self, n: u64) -> (r: Result<u64, TatamiError>)
        requires
            old(self).wf(),
            n >= 1,
        ensures
            final(self).wf(),
            final(self).primes@ == old(self).primes@,
            final(self).smax == old(self).smax,
            (r matches Err(e) && e.kind == ErrorKind::Configuration) <==> !spec_config_ok(
                old(self).primes@,
                FNUM as int,
                old(self).smax as int,
            ),
            spec_config_ok(old(self).primes@, FNUM as int, old(self).smax as int) ==> ((
            r matches Ok(s)) <==> final(self).smin < old(self).smax),
            spec_config_ok(old(self).primes@, FNUM as int, old(self).smax as int) ==> (match r {
                Ok(s) => 2 <= s < old(self).smax && s == final(self).smin && hit(
                    old(self).primes@,
                    s as int,
                    n as int,
                ) && (forall|s2: int|
                    #[trigger] hit(old(self).primes@, s2, n as int) ==> s <= s2),
                Err(e) => e.kind == ErrorKind::NotFound && final(self).smin == old(self).smax
                    && (forall|s2: int|
                    2 <= s2 < old(self).smax ==> !#[trigger] hit(
                        old(self).primes@,
                        s2,
                        n as int,
                    )),
            }),
    {
        let ghost t = self.primes@;
        if !self.config_ok() {
            return Err(TatamiError::config("infeasible ceiling/prime-table configuration"));
        }
        self.isn = n;
        self.smin = self.smax;
        let p0 = self.primes[0];
        let mut f = Factors::new(FNUM);
        f.p.push(p0);
        f.n.push(1);
        self.factors = f;
        self.s = p0;
        proof {
            assert(self.factors.p@ =~= seq![p0]);
            assert(self.factors.n@ =~= seq![1u64]);
            lemma_pow1(p0 as int);
            assert(prod_pows(self.factors.p@, self.factors.n@) == pow(p0 as int, 1nat)
                * crate::model::prod_pows_from(self.factors.p@, self.factors.n@, 1));
            assert(fact_wf(self.factors.p@, self.factors.n@));
            lemma_extends_refl(t, seq![t[0]], seq![1u64], 1);
        }
        self.work(p0, 1);
        proof {
            assert forall|s2: int| #[trigger] hit(t, s2, n as int) implies self.smin <= s2 by {
                let (p2, e2) = choose|p2: Seq<u64>, e2: Seq<u64>|
                    extends(t, seq![t[0]], seq![1u64], 1, p2, e2) && #[trigger] prod_pows(
                        p2,
                        e2,
                    ) == s2 && pair_count(p2, e2) == n as int;
                assert(extends(t, seq![t[0]], seq![1u64], 1, p2, e2));
            }
        }
        if self.smin < self.smax {
            Ok(self.smin)
        } else {
            Err(TatamiError::new("no admissible value below the ceiling"))
        }
    }
}

/// Public entry point over the default configuration: the smallest
/// `s` with exactly `n` free divisor pairs below the default ceiling,
/// minimal over the candidate space the default table spans (see
/// `hit`).  An error reports an infeasible configuration or a search
/// that completed with no admissible candidate below the ceiling.
pub fn solve(n: u64) -> (r: Result<u64, TatamiError>)
    requires
        n >= 1,
    ensures
        r matches Ok(s) ==> 2 <= s < SMAX && (exists|t: Seq<u64>|
            #[trigger] default_table(t) && spec_config_ok(t, FNUM as int, SMAX as int) && hit(
                t,
                s as int,
                n as int,
            ) && (forall|s2: int| hit(t, s2, n as int) ==> s <= s2)),
        r matches Err(e) && e.kind == ErrorKind::NotFound ==> (exists|t: Seq<u64>|
            #[trigger] default_table(t) && spec_config_ok(t, FNUM as int, SMAX as int) && (
            forall|s2: int| 2 <= s2 < SMAX ==> !hit(t, s2, n as int))),
        r matches Err(e) && e.kind == ErrorKind::Configuration ==> (exists|t: Seq<u64>|
            #[trigger] default_table(t) && !spec_config_ok(t, FNUM as int, SMAX as int)),
{
    let mut tatami = Tatami::new();
    let ghost t = tatami.primes@;
    let r = tatami.inv(n);
    proof {
        assert(default_table(t));
    }
    r
}

/// In a well-formed factorization every prime is at least two.
proof fn lemma_primes_ge_two(p: Seq<u64>, e: Seq<u64>)
    requires
        fact_wf(p, e),
    ensures
        forall|j: int| 0 <= j < p.len() ==> #[trigger] p[j] >= 2,
{
    assert(forall|j: int| 0 <= j < p.len() ==> is_prime(#[trigger] p[j] as int));
}

} // verus!
