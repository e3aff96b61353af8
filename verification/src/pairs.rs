//! The freeness predicate, the divisor-count filter, and the
//! divisor-pair counter, shared by both search engines.
use vstd::prelude::*;
use vstd::arithmetic::div_mod::lemma_div_non_zero;
use vstd::arithmetic::div_mod::lemma_div_by_multiple;
use vstd::arithmetic::power::pow;
use vstd::arithmetic::power::lemma_pow_adds;
use vstd::arithmetic::power::lemma_pow_positive;
use vstd::arithmetic::power::lemma_pow_increases;
use crate::model::spec_free;
use crate::model::spec_sigma;
use crate::model::sigma_from;
use crate::model::pair_count;
use crate::model::pair_count_from;
use crate::model::prod_pows;
use crate::model::prod_pows_from;
use crate::model::lemma_mul_div_le;
use crate::model::lemma_prod_pows_from_pos;
use crate::model::lemma_sigma_le_prod;
use crate::model::lemma_sigma_from_pos;
use crate::model::lemma_pair_count_from_range;
use crate::model::lemma_exponent_bound;

verus! {

/// Largest value the counter accepts for the factorization's value:
/// keeps every product the counter forms within `u64` range.
pub const VALUE_LIMIT: u64 = 200_000_000_000;

/// Decide freeness of the divisor pair `(k, l)`.
pub fn free(k: u64, l: u64) -> (r: bool)
    requires
        2 <= k <= l,
        l <= VALUE_LIMIT,
    ensures
        r == spec_free(k as int, l as int),
{
    let m = l / k;
    proof {
        lemma_div_non_zero(l as int, k as int);
        lemma_mul_div_le(l as int, k as int);
        assert((k + 1) * m == k * m + m) by (nonlinear_arith);
        assert((k - 1) * (m + 1) == k * m + k - m - 1) by (nonlinear_arith);
        assert(k * m <= l);
        assert(1 * (m + 1) <= (k - 1) * (m + 1)) by (nonlinear_arith)
            requires
                k >= 2,
                m >= 1,
        ;
    }
    let lmin = (k + 1) * m + 2;
    let lmax = (k - 1) * (m + 1) - 2;
    (lmin <= l) && (l <= lmax)
}

/// Exact divisor count `sigma_0` of the factorization with primes `p`
/// and exponents `e`: the product of `e[i] + 1` over all slots.
pub fn divisor_count(p: &Vec<u64>, e: &Vec<u64>) -> (r: u64)
    requires
        p@.len() == e@.len(),
        forall|j: int| 0 <= j < p@.len() ==> #[trigger] p@[j] >= 2,
        prod_pows(p@, e@) <= VALUE_LIMIT,
    ensures
        r == spec_sigma(e@),
{
    let mut i = e.len();
    let mut r: u64 = 1;
    proof {
        lemma_sigma_le_prod(p@, e@, 0);
    }
    while i > 0
        invariant
            i <= e@.len(),
            p@.len() == e@.len(),
            forall|j: int| 0 <= j < p@.len() ==> #[trigger] p@[j] >= 2,
            prod_pows(p@, e@) <= VALUE_LIMIT,
            r == sigma_from(e@, i as int),
        decreases i,
    {
        i = i - 1;
        proof {
            lemma_exponent_bound(p@, e@, i as int, 0);
            lemma_sigma_from_pos(e@, i as int + 1);
            lemma_sigma_le_prod(p@, e@, i as int);
            crate::model::lemma_prod_pows_from_suffix_le(p@, e@, 0, i as int);
            assert(sigma_from(e@, i as int) == (e@[i as int] + 1) * sigma_from(e@, i as int + 1));
        }
        r = (e[i] + 1) * r;
    }
    r
}

/// Count the free divisor pairs of the factorization's value by
/// walking every choice of per-slot exponents.  The trivial divisor 1
/// is never counted: its pair can never be free.
pub fn count_free_pairs(p: &Vec<u64>, e: &Vec<u64>) -> (r: u64)
    requires
        p@.len() == e@.len(),
        forall|j: int| 0 <= j < p@.len() ==> #[trigger] p@[j] >= 2,
        prod_pows(p@, e@) <= VALUE_LIMIT,
    ensures
        r == pair_count(p@, e@),
{
    proof {
        assert(1 * 1 * prod_pows_from(p@, e@, 0) == prod_pows_from(p@, e@, 0)) by (nonlinear_arith);
    }
    count_from(p, e, 0, 1, 1)
}

/// The recursive core of the counter: slots below `i` are already
/// fixed and have contributed `k` to the divisor and `l` to the
/// codivisor; walk the exponent choices of the remaining slots.
fn count_from(p: &Vec<u64>, e: &Vec<u64>, i: usize, k: u64, l: u64) -> (r: u64)
    requires
        p@.len() == e@.len(),
        i <= p@.len(),
        forall|j: int| 0 <= j < p@.len() ==> #[trigger] p@[j] >= 2,
        1 <= k,
        1 <= l,
        (k as int) * (l as int) * prod_pows_from(p@, e@, i as int) <= VALUE_LIMIT,
    ensures
        r == pair_count_from(p@, e@, i as int, 0, k as int, l as int),
    decreases p@.len() - i,
{
    if i == p.len() {
        proof {
            assert(prod_pows_from(p@, e@, i as int) == 1);
            assert((k as int) * (l as int) * 1 == (k as int) * (l as int)) by (nonlinear_arith);
            assert(l <= (k as int) * (l as int)) by (nonlinear_arith)
                requires
                    k >= 1,
                    l >= 1,
            ;
        }
        if k >= 2 && k <= l {
            if free(k, l) {
                1
            } else {
                0
            }
        } else {
            0
        }
    } else {
        let pi = p[i];
        let ei = e[i];
        let ghost pp = p@;
        let ghost ee = e@;
        let ghost ii = i as int;
        proof {
            lemma_prod_pows_from_pos(pp, ee, ii + 1);
            lemma_pow_positive(pi as int, ei as nat);
            assert(prod_pows_from(pp, ee, ii) == pow(pi as int, ei as nat) * prod_pows_from(
                pp,
                ee,
                ii + 1,
            ));
            assert(prod_pows_from(pp, ee, ii) <= (k as int) * (l as int) * prod_pows_from(
                pp,
                ee,
                ii,
            )) by (nonlinear_arith)
                requires
                    k >= 1,
                    l >= 1,
                    prod_pows_from(pp, ee, ii) >= 0,
            ;
            lemma_exponent_bound(pp, ee, ii, ii);
        }
        // raise the codivisor to the slot's full prime power
        let mut ll = l;
        let mut x: u64 = 0;
        proof {
            reveal(pow);
            assert(ll == l * pow(pi as int, 0));
        }
        while x < ei
            invariant
                x <= ei,
                pi == pp[ii],
                ei == ee[ii],
                pp.len() == ee.len(),
                0 <= ii < pp.len(),
                ii == i as int,
                i < p@.len(),
                pp == p@,
                ee == e@,
                forall|j: int| 0 <= j < pp.len() ==> #[trigger] pp[j] >= 2,
                1 <= k,
                1 <= l,
                (k as int) * (l as int) * prod_pows_from(pp, ee, ii) <= VALUE_LIMIT,
                ll == l * pow(pi as int, x as nat),
            decreases ei - x,
        {
            proof {
                lemma_step_bound(pp, ee, ii, k as int, l as int, pi as int, ei, x as nat);
            }
            ll = ll * pi;
            x = x + 1;
            proof {
                reveal(pow);
                assert(l * pow(pi as int, (x - 1) as nat) * pi == l * pow(pi as int, x as nat))
                    by (nonlinear_arith)
                    requires
                        pow(pi as int, x as nat) == pi * pow(pi as int, (x - 1) as nat),
                ;
            }
        }
        // walk the slot's exponent choices
        let i1 = i + 1;
        let mut kk = k;
        let mut z: u64 = 0;
        let mut r: u64 = 0;
        proof {
            reveal(pow);
            assert(kk == k * pow(pi as int, 0));
            assert(pair_count_from(pp, ee, ii, 0, k as int, l as int) - pair_count_from(
                pp,
                ee,
                ii,
                0,
                k as int,
                l as int,
            ) == 0);
        }
        while z <= ei
            invariant
                z <= ei + 1,
                pi == pp[ii],
                ei == ee[ii],
                pp.len() == ee.len(),
                0 <= ii < pp.len(),
                ii == i as int,
                i < p@.len(),
                i1 == i + 1,
                pp == p@,
                ee == e@,
                ei <= 37,
                forall|j: int| 0 <= j < pp.len() ==> #[trigger] pp[j] >= 2,
                1 <= k,
                1 <= l,
                (k as int) * (l as int) * prod_pows_from(pp, ee, ii) <= VALUE_LIMIT,
                z <= ei ==> kk == k * pow(pi as int, z as nat),
                z <= ei ==> ll == l * pow(pi as int, (ei - z) as nat),
                r == pair_count_from(pp, ee, ii, 0, k as int, l as int) - pair_count_from(
                    pp,
                    ee,
                    ii,
                    z as int,
                    k as int,
                    l as int,
                ),
            decreases ei + 1 - z,
        {
            proof {
                lemma_call_bound(pp, ee, ii, k as int, l as int, pi as int, ei, z as nat);
                assert(kk >= 1 && ll >= 1) by (nonlinear_arith)
                    requires
                        kk == k * pow(pi as int, z as nat),
                        ll == l * pow(pi as int, (ei - z) as nat),
                        k >= 1,
                        l >= 1,
                        pow(pi as int, z as nat) >= 1,
                        pow(pi as int, (ei - z) as nat) >= 1,
                ;
            }
            let sub = count_from(p, e, i1, kk, ll);
            proof {
                // one unfolding of the count at (i, z)
                assert(pair_count_from(pp, ee, ii, z as int, k as int, l as int) ==
                    pair_count_from(
                    pp,
                    ee,
                    ii + 1,
                    0,
                    (k as int) * pow(pi as int, z as nat),
                    (l as int) * pow(pi as int, (ei - z) as nat),
                ) + pair_count_from(pp, ee, ii, z as int + 1, k as int, l as int));
                lemma_pair_count_from_range(pp, ee, ii, 0, k as int, l as int);
                lemma_pair_count_from_range(pp, ee, ii, z as int + 1, k as int, l as int);
                lemma_sigma_from_pos(ee, ii + 1);
                lemma_sigma_le_prod(pp, ee, ii);
                assert(sigma_from(ee, ii) == (ei + 1) * sigma_from(ee, ii + 1));
                assert(prod_pows_from(pp, ee, ii) <= (k as int) * (l as int) * prod_pows_from(
                    pp,
                    ee,
                    ii,
                )) by (nonlinear_arith)
                    requires
                        k >= 1,
                        l >= 1,
                        prod_pows_from(pp, ee, ii) >= 0,
                ;
            }
            r = r + sub;
            if z < ei {
                proof {
                    lemma_call_bound(pp, ee, ii, k as int, l as int, pi as int, ei, z as nat);
                    lemma_step_kk_bound(pp, ee, ii, k as int, l as int, pi as int, ei, z as nat);
                    // the codivisor is an exact multiple of the prime
                    reveal(pow);
                    assert(pow(pi as int, (ei - z) as nat) == pi * pow(
                        pi as int,
                        (ei - z - 1) as nat,
                    ));
                    assert(ll == (l * pow(pi as int, (ei - z - 1) as nat)) * pi)
                        by (nonlinear_arith)
                        requires
                            ll == l * pow(pi as int, (ei - z) as nat),
                            pow(pi as int, (ei - z) as nat) == pi * pow(
                                pi as int,
                                (ei - z - 1) as nat,
                            ),
                    ;
                    lemma_pow_positive(pi as int, (ei - z - 1) as nat);
                    assert(l * pow(pi as int, (ei - z - 1) as nat) >= 0) by (nonlinear_arith)
                        requires
                            l >= 1,
                            pow(pi as int, (ei - z - 1) as nat) >= 1,
                    ;
                    lemma_div_by_multiple(l * pow(pi as int, (ei - z - 1) as nat), pi as int);
                }
                kk = kk * pi;
                ll = ll / pi;
                proof {
                    reveal(pow);
                    assert(kk == k * pow(pi as int, (z + 1) as nat)) by (nonlinear_arith)
                        requires
                            kk == (k * pow(pi as int, z as nat)) * pi,
                            pow(pi as int, (z + 1) as nat) == pi * pow(pi as int, z as nat),
                    ;
                }
            }
            z = z + 1;
        }
        r
    }
}

/// Bound used while raising the codivisor: each partial power stays
/// within the value limit.
proof fn lemma_step_bound(pp: Seq<u64>, ee: Seq<u64>, ii: int, k: int, l: int, pi: int, ei: u64, x: nat)
    requires
        pp.len() == ee.len(),
        0 <= ii < pp.len(),
        pi == pp[ii],
        ei == ee[ii],
        forall|j: int| 0 <= j < pp.len() ==> #[trigger] pp[j] >= 2,
        1 <= k,
        1 <= l,
        k * l * prod_pows_from(pp, ee, ii) <= VALUE_LIMIT,
        x < ei,
    ensures
        l * pow(pi, x) * pi == l * pow(pi, (x + 1) as nat),
        l * pow(pi, (x + 1) as nat) <= VALUE_LIMIT,
{
    lemma_prod_pows_from_pos(pp, ee, ii + 1);
    lemma_pow_positive(pi, x);
    lemma_pow_positive(pi, (x + 1) as nat);
    lemma_pow_increases(pi as nat, (x + 1) as nat, ei as nat);
    assert(prod_pows_from(pp, ee, ii) == pow(pi, ei as nat) * prod_pows_from(pp, ee, ii + 1));
    reveal(pow);
    assert(pow(pi, (x + 1) as nat) == pi * pow(pi, x));
    assert(l * pow(pi, x) * pi == l * pow(pi, (x + 1) as nat)) by (nonlinear_arith)
        requires
            pow(pi, (x + 1) as nat) == pi * pow(pi, x),
    ;
    assert(l * pow(pi, (x + 1) as nat) <= k * l * (pow(pi, ei as nat) * prod_pows_from(
        pp,
        ee,
        ii + 1,
    ))) by (nonlinear_arith)
        requires
            1 <= k,
            1 <= l,
            0 < pow(pi, (x + 1) as nat) <= pow(pi, ei as nat),
            prod_pows_from(pp, ee, ii + 1) >= 1,
    ;
}

/// Bound used at each exponent choice: divisor times codivisor times
/// the rest of the product is exactly the whole product.
proof fn lemma_call_bound(pp: Seq<u64>, ee: Seq<u64>, ii: int, k: int, l: int, pi: int, ei: u64, z: nat)
    requires
        pp.len() == ee.len(),
        0 <= ii < pp.len(),
        pi == pp[ii],
        ei == ee[ii],
        forall|j: int| 0 <= j < pp.len() ==> #[trigger] pp[j] >= 2,
        1 <= k,
        1 <= l,
        k * l * prod_pows_from(pp, ee, ii) <= VALUE_LIMIT,
        z <= ei,
    ensures
        (k * pow(pi, z)) * (l * pow(pi, (ei - z) as nat)) * prod_pows_from(pp, ee, ii + 1) == k * l
            * prod_pows_from(pp, ee, ii),
        pow(pi, z) >= 1,
        pow(pi, (ei - z) as nat) >= 1,
{
    lemma_pow_positive(pi, z);
    lemma_pow_positive(pi, (ei - z) as nat);
    lemma_pow_adds(pi, z, (ei - z) as nat);
    assert(pow(pi, z) * pow(pi, (ei - z) as nat) == pow(pi, ei as nat));
    assert(prod_pows_from(pp, ee, ii) == pow(pi, ei as nat) * prod_pows_from(pp, ee, ii + 1));
    assert((k * pow(pi, z)) * (l * pow(pi, (ei - z) as nat)) * prod_pows_from(pp, ee, ii + 1) == k
        * l * (pow(pi, ei as nat) * prod_pows_from(pp, ee, ii + 1))) by (nonlinear_arith)
        requires
            pow(pi, z) * pow(pi, (ei - z) as nat) == pow(pi, ei as nat),
    ;
}

/// Bound used when moving to the next exponent choice: the raised
/// divisor stays within the value limit.
proof fn lemma_step_kk_bound(pp: Seq<u64>, ee: Seq<u64>, ii: int, k: int, l: int, pi: int, ei: u64, z: nat)
    requires
        pp.len() == ee.len(),
        0 <= ii < pp.len(),
        pi == pp[ii],
        ei == ee[ii],
        forall|j: int| 0 <= j < pp.len() ==> #[trigger] pp[j] >= 2,
        1 <= k,
        1 <= l,
        k * l * prod_pows_from(pp, ee, ii) <= VALUE_LIMIT,
        z < ei,
    ensures
        (k * pow(pi, z)) * pi == k * pow(pi, (z + 1) as nat),
        k * pow(pi, (z + 1) as nat) <= VALUE_LIMIT,
{
    lemma_prod_pows_from_pos(pp, ee, ii + 1);
    lemma_pow_positive(pi, z);
    lemma_pow_positive(pi, (z + 1) as nat);
    lemma_pow_increases(pi as nat, (z + 1) as nat, ei as nat);
    assert(prod_pows_from(pp, ee, ii) == pow(pi, ei as nat) * prod_pows_from(pp, ee, ii + 1));
    reveal(pow);
    assert(pow(pi, (z + 1) as nat) == pi * pow(pi, z));
    assert((k * pow(pi, z)) * pi == k * pow(pi, (z + 1) as nat)) by (nonlinear_arith)
        requires
            pow(pi, (z + 1) as nat) == pi * pow(pi, z),
    ;
    assert(k * pow(pi, (z + 1) as nat) <= k * l * (pow(pi, ei as nat) * prod_pows_from(
        pp,
        ee,
        ii + 1,
    ))) by (nonlinear_arith)
        requires
            1 <= k,
            1 <= l,
            0 < pow(pi, (z + 1) as nat) <= pow(pi, ei as nat),
            prod_pows_from(pp, ee, ii + 1) >= 1,
    ;
}

} // verus!
