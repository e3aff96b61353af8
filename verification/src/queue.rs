//! The task-parallel search variant: a by-value factorization snapshot
//! and the non-forking recursive engine that worker tasks run.
//!
//! The dispatcher that decides where to fork, the worker pool, and the
//! atomic merging of bounds live outside the library; each task hands
//! this engine its own factorization snapshot and its own view of the
//! shared bound, and the engine promises that the bound never
//! increases and that every bound it records is a checked find.
use vstd::prelude::*;
use vstd::arithmetic::power::pow;
use vstd::arithmetic::power::lemma_pow1;
use crate::model::bound_inv;
use crate::model::hit;
use crate::model::is_prime;
use crate::model::pair_count;
use crate::model::prime_table_wf;
use crate::model::prod_pows;
use crate::model::spec_free;
use crate::model::spec_sigma;
use crate::model::extends;
use crate::model::in_table_from;
use crate::model::extended_exps;
use crate::model::lemma_exponent_bound;
use crate::model::lemma_div_mul_bound;
use crate::model::lemma_extends_bump_base;
use crate::model::lemma_extends_prod_ge;
use crate::model::lemma_extends_push;
use crate::model::lemma_extends_split_push;
use crate::model::lemma_extends_raise_exp;
use crate::model::lemma_mul_div_le;
use crate::model::lemma_prod_pows_push;
use crate::model::lemma_prod_pows_update_inc;
use crate::model::lemma_prod_pows_update_prime_zero;
use crate::pairs;
use crate::pairs::VALUE_LIMIT;

verus! {

/// The factorization snapshot of one search task: its value `s`, the
/// table index `i` of the prime in the highest slot, and the parallel
/// rows of primes and exponents.  The highest slot may still hold
/// exponent zero: it is the prime under consideration.
#[derive(Clone)]
pub struct Factors {
    pub s: u64,
    pub i: usize,
    pub p: Vec<u64>,
    pub n: Vec<u64>,
}

impl Factors {
    /// Well-formedness against the table `t` and the ceiling `smax`:
    /// strictly increasing primes, inner exponents at least one, the
    /// highest slot's prime is `t[i]`, and `s` is the factorization's
    /// value, within twice the ceiling.
    pub open spec fn wf(&self, t: Seq<u64>, smax: int) -> bool {
        &&& self.p@.len() == self.n@.len()
        &&& self.p@.len() >= 1
        &&& forall|m: int| 0 <= m < self.p@.len() ==> is_prime(#[trigger] self.p@[m] as int)
        &&& forall|m1: int, m2: int|
            0 <= m1 < m2 < self.p@.len() ==> self.p@[m1] < self.p@[m2]
        &&& forall|m: int| 0 <= m < self.p@.len() - 1 ==> #[trigger] self.n@[m] >= 1
        &&& (self.p@.len() == 1 ==> self.n@[0] >= 1)
        &&& self.i < t.len()
        &&& self.p@[self.p@.len() - 1] == t[self.i as int]
        &&& self.s == prod_pows(self.p@, self.n@)
        &&& 2 <= self.s <= 2 * smax
    }

    /// The root snapshot: the single slot `2 ^ 1`.
    pub fn new() -> (r: Factors)
        ensures
            r.s == 2,
            r.i == 0,
            r.p@ == seq![2u64],
            r.n@ == seq![1u64],
    {
        let mut p: Vec<u64> = Vec::with_capacity(8);
        let mut n: Vec<u64> = Vec::with_capacity(8);
        p.push(2);
        n.push(1);
        proof {
            assert(p@ =~= seq![2u64]);
            assert(n@ =~= seq![1u64]);
        }
        Factors { s: 2, i: 0, p, n }
    }
}

/// Decide freeness of the divisor pair `(k, l)`.
pub fn tfree(k: u64, l: u64) -> (r: bool)
    requires
        2 <= k <= l,
        l <= VALUE_LIMIT,
    ensures
        r == spec_free(k as int, l as int),
{
    pairs::free(k, l)
}

/// Exact divisor count of the factorization.
pub fn sigma(xp: &Factors) -> (r: u64)
    requires
        xp.p@.len() == xp.n@.len(),
        forall|m: int| 0 <= m < xp.p@.len() ==> #[trigger] xp.p@[m] >= 2,
        prod_pows(xp.p@, xp.n@) <= VALUE_LIMIT,
    ensures
        r == spec_sigma(xp.n@),
{
    pairs::divisor_count(&xp.p, &xp.n)
}

/// Count of free divisor pairs of the factorization's value.
pub fn t(xp: &Factors) -> (r: u64)
    requires
        xp.p@.len() == xp.n@.len(),
        forall|m: int| 0 <= m < xp.p@.len() ==> #[trigger] xp.p@[m] >= 2,
        prod_pows(xp.p@, xp.n@) <= VALUE_LIMIT,
    ensures
        r == pair_count(xp.p@, xp.n@),
{
    pairs::count_free_pairs(&xp.p, &xp.n)
}

/// The non-forking recursive engine: explore, from the snapshot `xp`,
/// every deeper power of the current prime and every later prime that
/// could still beat the bound, updating `smin` at each checked find.
/// The snapshot is restored on return.  The bound never increases,
/// every value it records is a checked find, and on return it is at
/// or below the value of every candidate this subtree spans whose
/// free pairs number exactly the target — the deeper powers of the
/// current prime, the extensions opening any later table prime, and,
/// while the current prime is still uncommitted, its replacements by
/// any later table prime: pruning discards only subtrees whose every
/// value exceeds the bound.
pub fn twork(pr: &Vec<u64>, smax: u64, xp: &mut Factors, tisn: u64, smin: &mut u64)
    requires
        prime_table_wf(pr@),
        2 <= smax,
        2 * smax <= VALUE_LIMIT,
        old(xp).wf(pr@, smax as int),
        extends(pr@, seq![pr@[0]], seq![1u64], 1, old(xp).p@, extended_exps(old(xp).n@)),
        *old(smin) <= smax,
        bound_inv(pr@, *old(smin) as int, smax as int, tisn as int),
    ensures
        final(xp).p@ == old(xp).p@,
        final(xp).n@ == old(xp).n@,
        final(xp).s == old(xp).s,
        final(xp).i == old(xp).i,
        final(xp).wf(pr@, smax as int),
        *final(smin) <= *old(smin),
        *final(smin) <= smax,
        bound_inv(pr@, *final(smin) as int, smax as int, tisn as int),
        forall|p2: Seq<u64>, e2: Seq<u64>|
            #[trigger] extends(
                pr@,
                old(xp).p@,
                extended_exps(old(xp).n@),
                old(xp).i + 1,
                p2,
                e2,
            ) && pair_count(p2, e2) == tisn ==> *final(smin) <= prod_pows(p2, e2),
        old(xp).n@[old(xp).p@.len() - 1] >= 1 ==> forall|j: int, p2: Seq<u64>, e2: Seq<u64>|
            old(xp).i + 1 <= j < pr@.len() && #[trigger] extends(
                pr@,
                old(xp).p@.push(pr@[j]),
                old(xp).n@.push(1u64),
                j + 1,
                p2,
                e2,
            ) && pair_count(p2, e2) == tisn ==> *final(smin) <= prod_pows(p2, e2),
        old(xp).n@[old(xp).p@.len() - 1] == 0 ==> forall|j: int, p2: Seq<u64>, e2: Seq<u64>|
            old(xp).i + 1 <= j < pr@.len() && #[trigger] extends(
                pr@,
                old(xp).p@.update(old(xp).p@.len() - 1, pr@[j]),
                old(xp).n@.update(old(xp).p@.len() - 1, 1u64),
                j + 1,
                p2,
                e2,
            ) && pair_count(p2, e2) == tisn ==> *final(smin) <= prod_pows(p2, e2),
    decreases 2 * smax - old(xp).s, pr@.len() - old(xp).i,
{
    let ghost tab = pr@;
    let ghost cp = xp.p@;
    let ghost ce = xp.n@;
    let ghost lastp = cp.len() - 1;
    let ghost i0g = xp.i as int;
    let s = xp.s;
    let smin0 = *smin;
    let pmax = smin0 / s + 1;
    let p = pr[xp.i];
    proof {
        assert(is_prime(tab[i0g] as int));
        lemma_exponent_bound(cp, ce, lastp, 0);
        assert(forall|m: int| 0 <= m < tab.len() ==> #[trigger] tab[m] >= 1) by {
            assert(forall|m: int| 0 <= m < tab.len() ==> is_prime(#[trigger] tab[m] as int));
        }
        assert(forall|m: int| 0 <= m < cp.len() ==> #[trigger] cp[m] >= 1) by {
            assert(forall|m: int| 0 <= m < cp.len() ==> is_prime(#[trigger] cp[m] as int));
        }
    }
    let ghost e_bump: u64 = (ce[lastp] + 1) as u64;
    let ghost cex = ce.update(lastp, e_bump);
    proof {
        assert(cex =~= extended_exps(ce));
        lemma_prod_pows_update_inc(cp, ce, cex, lastp, 0);
    }
    if p <= pmax {
        proof {
            lemma_mul_div_le(smin0 as int, s as int);
            crate::model::lemma_step_fits(
                s as int,
                p as int,
                smin0 as int,
                smax as int,
                pmax as int,
            );
        }
        let last = xp.n.len() - 1;
        let en = xp.n[last];
        let ghost pre_n = xp.n@;
        xp.n[last] = en + 1;
        proof {
            assert(xp.n@ =~= cex);
            crate::model::lemma_pair_count_le_sigma(xp.p@, xp.n@);
        }
        xp.s = s * p;
        proof {
            lemma_exponent_bound(xp.p@, xp.n@, lastp, 0);
            lemma_extends_raise_exp(tab, seq![tab[0]], seq![1u64], 1, cp, cex, lastp, (
            (en + 2) as u64));
            assert(extends(tab, seq![tab[0]], seq![1u64], 1, cp, cex.update(lastp, ((en + 2) as u64))));
            assert(extended_exps(cex) =~= cex.update(lastp, ((en + 2) as u64)));
        }
        let sg = sigma(xp);
        if sg >= tisn {
            let r = t(xp);
            if r == tisn && xp.s < *smin {
                proof {
                    assert(extends(tab, seq![tab[0]], seq![1u64], 1, xp.p@, xp.n@));
                    assert(prod_pows(xp.p@, xp.n@) == xp.s as int);
                    assert(hit(tab, xp.s as int, tisn as int));
                }
                *smin = xp.s;
            }
        }
        let ghost smin_chk = *smin;
        proof {
            assert(pair_count(cp, cex) == tisn ==> smin_chk <= s * p);
        }
        twork(pr, smax, xp, tisn, smin);
        xp.s = s;
        xp.n[last] = en;
        proof {
            assert(xp.n@ =~= pre_n);
            // the checked node and the whole deeper-power subtree are
            // settled: every extension that keeps this prime is covered
            let smin_r1 = *smin;
            assert forall|p2: Seq<u64>, e2: Seq<u64>|
                extends(tab, cp, cex, i0g + 1, p2, e2) && pair_count(p2, e2)
                    == tisn implies smin_r1 <= prod_pows(p2, e2) by {
                if e2[lastp] > cex[lastp] {
                    lemma_extends_bump_base(tab, cp, cex, i0g + 1, p2, e2, ((en + 2) as u64));
                } else if p2.len() == cp.len() {
                    assert(p2 =~= cp);
                    assert(e2 =~= cex);
                } else {
                    let q0 = p2[cp.len() as int];
                    assert(in_table_from(tab, q0, i0g + 1));
                    let j0 = crate::model::lemma_in_table_index(tab, q0, i0g + 1);
                    lemma_extends_split_push(tab, cp, cex, i0g + 1, p2, e2, j0);
                }
            }
        }
        if xp.i >= pr.len() - 1 {
            return ;
        }
        let i0 = xp.i;
        xp.i = i0 + 1;
        let pi = pr[xp.i];
        proof {
            assert(is_prime(tab[i0g + 1] as int));
        }
        let ghost pre_p = xp.p@;
        let ghost root_p = seq![tab[0]];
        let ghost root_e = seq![1u64];
        if en != 0 {
            proof {
                assert(extends(tab, root_p, root_e, 1, pre_p, pre_n)) by {
                    assert(forall|m: int|
                        1 <= m < pre_n.len() ==> #[trigger] pre_n[m] >= 1);
                }
                lemma_extends_push(tab, root_p, root_e, 1, pre_p, pre_n, i0g + 1, 1);
            }
            xp.p.push(pi);
            xp.n.push(0);
            proof {
                assert(extended_exps(xp.n@) =~= pre_n.push(1u64));
                lemma_prod_pows_push(pre_p, pre_n, pi, 0, 0);
                assert(pow(pi as int, 0nat) == 1) by {
                    vstd::arithmetic::power::lemma_pow0(pi as int);
                }
                assert(forall|m: int|
                    0 <= m < pre_p.len() ==> pre_p[m] == #[trigger] xp.p@[m]);
                assert(forall|m: int|
                    0 <= m < pre_p.len() - 1 ==> #[trigger] pre_p[m] < pre_p[pre_p.len() - 1]);
            }
        } else {
            xp.p[last] = pi;
            proof {
                lemma_prod_pows_update_prime_zero(pre_p, xp.p@, xp.n@, last as int, 0);
                assert(extends(tab, root_p, root_e, 1, xp.p@, extended_exps(pre_n))) by {
                    assert(xp.p@ =~= pre_p.update(last as int, pi));
                    assert(last >= 1);
                    assert(in_table_from(tab, pi, 1)) by {
                        assert(1 <= i0g + 1 < tab.len() && tab[i0g + 1] == pi);
                    }
                    assert(forall|m: int|
                        1 <= m < pre_p.len() ==> #[trigger] in_table_from(tab, pre_p[m], 1));
                    assert(forall|m1: int, m2: int|
                        0 <= m1 < m2 < xp.p@.len() ==> xp.p@[m1] < xp.p@[m2]) by {
                        assert(forall|m1: int|
                            0 <= m1 < last ==> #[trigger] pre_p[m1] < pre_p[last as int]);
                    }
                }
            }
        }
        twork(pr, smax, xp, tisn, smin);
        if en != 0 {
            xp.p.pop();
            xp.n.pop();
        } else {
            xp.p[last] = p;
        }
        xp.i = i0;
        proof {
            assert(xp.p@ =~= pre_p);
            assert(xp.n@ =~= pre_n);
            // the advance subtree settles every later prime: its first
            // move covers the next table entry, its own replacements
            // cover all the ones after
            let smin_r2 = *smin;
            if en >= 1 {
                assert forall|j: int, p2: Seq<u64>, e2: Seq<u64>|
                    i0g + 1 <= j < tab.len() && extends(tab, cp.push(tab[j]), ce.push(1u64), j + 1, p2, e2)
                        && pair_count(p2, e2) == tisn implies smin_r2 <= prod_pows(p2, e2) by {
                    if j == i0g + 1 {
                        assert(extended_exps(pre_n.push(0u64)) =~= ce.push(1u64));
                        assert(cp.push(tab[j]) =~= cp.push(pi));
                    } else {
                        assert(cp.push(pi).update(cp.push(pi).len() - 1, tab[j]) =~= cp.push(tab[j]));
                        assert(pre_n.push(0u64).update(cp.push(pi).len() - 1, 1u64) =~= ce.push(
                            1u64,
                        ));
                        assert(pre_n.push(0u64)[cp.push(pi).len() - 1] == 0);
                    }
                }
            } else {
                assert forall|j: int, p2: Seq<u64>, e2: Seq<u64>|
                    i0g + 1 <= j < tab.len() && extends(
                        tab,
                        cp.update(lastp, tab[j]),
                        ce.update(lastp, 1u64),
                        j + 1,
                        p2,
                        e2,
                    ) && pair_count(p2, e2) == tisn implies smin_r2 <= prod_pows(p2, e2) by {
                    if j == i0g + 1 {
                        assert(extended_exps(ce) =~= ce.update(lastp, 1u64));
                        assert(cp.update(lastp, tab[j]) =~= cp.update(lastp, pi));
                    } else {
                        assert(cp.update(lastp, pi).update(lastp, tab[j]) =~= cp.update(
                            lastp,
                            tab[j],
                        ));
                        assert(extended_exps(ce) =~= ce.update(lastp, 1u64));
                    }
                }
            }
        }
    } else {
        proof {
            // the pruning test failed: every candidate this subtree
            // spans outvalues the bound
            lemma_mul_div_le(smin0 as int, s as int);
            lemma_div_mul_bound(s as int, p as int - 1, smin0 as int);
            assert(s as int * (p as int) == s as int * (p as int - 1) + s as int)
                by (nonlinear_arith);
            assert forall|p2: Seq<u64>, e2: Seq<u64>|
                extends(tab, cp, cex, i0g + 1, p2, e2) && pair_count(p2, e2)
                    == tisn implies smin0 <= prod_pows(p2, e2) by {
                lemma_extends_prod_ge(tab, cp, cex, i0g + 1, p2, e2);
            }
            assert forall|j: int, p2: Seq<u64>, e2: Seq<u64>|
                i0g + 1 <= j < tab.len() && extends(tab, cp.push(tab[j]), ce.push(1u64), j + 1, p2, e2)
                    && pair_count(p2, e2) == tisn implies smin0 <= prod_pows(p2, e2) by {
                assert(tab[i0g] < tab[j]);
                assert(forall|m: int|
                    0 <= m < cp.push(tab[j]).len() ==> #[trigger] cp.push(tab[j])[m] >= 1);
                lemma_extends_prod_ge(tab, cp.push(tab[j]), ce.push(1u64), j + 1, p2, e2);
                lemma_prod_pows_push(cp, ce, tab[j], 1, 0);
                lemma_pow1(tab[j] as int);
                assert(s as int * (tab[j] as int) >= s as int * (p as int) + s as int)
                    by (nonlinear_arith)
                    requires
                        s >= 1,
                        tab[j] as int >= p as int + 1,
                ;
            }
            if ce[lastp] == 0 {
                assert forall|j: int, p2: Seq<u64>, e2: Seq<u64>|
                    i0g + 1 <= j < tab.len() && extends(
                        tab,
                        cp.update(lastp, tab[j]),
                        ce.update(lastp, 1u64),
                        j + 1,
                        p2,
                        e2,
                    ) && pair_count(p2, e2) == tisn implies smin0 <= prod_pows(p2, e2) by {
                    assert(tab[i0g] < tab[j]);
                    let cpj = cp.update(lastp, tab[j]);
                    assert(forall|m: int| 0 <= m < cpj.len() ==> #[trigger] cpj[m] >= 1);
                    lemma_extends_prod_ge(tab, cpj, ce.update(lastp, 1u64), j + 1, p2, e2);
                    lemma_prod_pows_update_prime_zero(cp, cpj, ce, lastp, 0);
                    lemma_prod_pows_update_inc(cpj, ce, ce.update(lastp, 1u64), lastp, 0);
                    assert(s as int * (tab[j] as int) >= s as int * (p as int) + s as int)
                        by (nonlinear_arith)
                        requires
                            s >= 1,
                            tab[j] as int >= p as int + 1,
                    ;
                    assert((tab[j] as int) * (s as int) == s as int * (tab[j] as int))
                        by (nonlinear_arith);
                }
            }
        }
    }
}

} // verus!
