//! The mathematical model of the search: primality, the freeness
//! predicate, products of prime powers, the divisor-pair count, and the
//! invariant tying the shared bound to a witnessed factorization.
use vstd::prelude::*;
use vstd::arithmetic::div_mod::lemma_fundamental_div_mod;
use vstd::arithmetic::power::pow;
use vstd::arithmetic::power::lemma_pow_positive;
use vstd::arithmetic::power::lemma_pow_adds;
use vstd::arithmetic::power::lemma_pow_increases;
use vstd::arithmetic::power2::pow2;
use vstd::arithmetic::power2::lemma_pow2;
use vstd::arithmetic::power2::lemma2_to64;
use vstd::arithmetic::power2::lemma2_to64_rest;

verus! {

/// `n` has no divisor strictly between 1 and itself.
pub open spec fn is_prime(n: int) -> bool {
    n >= 2 && forall|d: int| 2 <= d < n ==> #[trigger] (n % d) != 0
}

/// The freeness inequality on a divisor pair `(k, l)`, `1 <= k <= l`.
/// With `m = l / k`, the pair is free when
/// `(k + 1) * m + 2 <= l <= (k - 1) * (m + 1) - 2`.
pub open spec fn spec_free(k: int, l: int) -> bool
    recommends
        1 <= k <= l,
{
    let m = l / k;
    (k + 1) * m + 2 <= l && l <= (k - 1) * (m + 1) - 2
}

/// Product of `p[j] ^ e[j]` over the slots from index `i` on.
pub open spec fn prod_pows_from(p: Seq<u64>, e: Seq<u64>, i: int) -> int
    recommends
        p.len() == e.len(),
    decreases p.len() - i,
{
    if i < 0 || i >= p.len() {
        1
    } else {
        pow(p[i] as int, e[i] as nat) * prod_pows_from(p, e, i + 1)
    }
}

/// The value of the factorization: product of all its prime powers.
pub open spec fn prod_pows(p: Seq<u64>, e: Seq<u64>) -> int {
    prod_pows_from(p, e, 0)
}

/// Divisor count of the factorization from slot `i` on:
/// the product of `e[j] + 1`.
pub open spec fn sigma_from(e: Seq<u64>, i: int) -> int
    decreases e.len() - i,
{
    if i < 0 || i >= e.len() {
        1
    } else {
        (e[i] + 1) * sigma_from(e, i + 1)
    }
}

/// Exact divisor count `sigma_0` of the factorization.
pub open spec fn spec_sigma(e: Seq<u64>) -> int {
    sigma_from(e, 0)
}

/// Count of free divisor pairs built from the slots from index `i` on,
/// with slot `i`'s exponent choice starting at `z`; `k` and `l` are the
/// divisor and codivisor accumulated over the slots already fixed.
/// At the leaves the accumulated pair is counted when `2 <= k <= l`
/// and it is free, so the trivial pair `(1, s)` is left out.
pub open spec fn pair_count_from(p: Seq<u64>, e: Seq<u64>, i: int, z: int, k: int, l: int) -> int
    recommends
        p.len() == e.len(),
        0 <= z,
    decreases p.len() - i, e[i] + 1 - z,
{
    if i < 0 || i >= p.len() {
        if 2 <= k <= l && spec_free(k, l) {
            1
        } else {
            0
        }
    } else if z > e[i] || z < 0 {
        0
    } else {
        pair_count_from(p, e, i + 1, 0, k * pow(p[i] as int, z as nat), l * pow(
            p[i] as int,
            (e[i] - z) as nat,
        )) + pair_count_from(p, e, i, z + 1, k, l)
    }
}

/// Number of free divisor pairs of the value of the factorization.
pub open spec fn pair_count(p: Seq<u64>, e: Seq<u64>) -> int {
    pair_count_from(p, e, 0, 0, 1, 1)
}

/// A well-formed factorization: one exponent per prime, strictly
/// increasing primes, every exponent at least one.
pub open spec fn fact_wf(p: Seq<u64>, e: Seq<u64>) -> bool {
    &&& p.len() == e.len()
    &&& forall|i: int| 0 <= i < p.len() ==> is_prime(#[trigger] p[i] as int)
    &&& forall|i: int, j: int| 0 <= i < j < p.len() ==> p[i] < p[j]
    &&& forall|i: int| 0 <= i < e.len() ==> #[trigger] e[i] >= 1
}

/// `q` occurs in the table at some index at or after `i`.
pub open spec fn in_table_from(t: Seq<u64>, q: u64, i: int) -> bool {
    exists|j: int| 0 <= j && i <= j < t.len() && t[j] == q
}

/// `(p, e)` is a factorization the search can reach from the node
/// `(bp, be)` with next table index `i`: the inner slots are kept as
/// they are, the highest base slot's exponent may grow, and any new
/// slots take table entries at index `i` or later, in increasing
/// order, each with exponent at least one.
pub open spec fn extends(
    t: Seq<u64>,
    bp: Seq<u64>,
    be: Seq<u64>,
    i: int,
    p: Seq<u64>,
    e: Seq<u64>,
) -> bool {
    &&& bp.len() == be.len()
    &&& bp.len() >= 1
    &&& p.len() == e.len()
    &&& p.len() >= bp.len()
    &&& forall|m: int| 0 <= m < bp.len() ==> p[m] == bp[m]
    &&& forall|m: int| 0 <= m < bp.len() - 1 ==> e[m] == be[m]
    &&& e[bp.len() - 1] >= be[bp.len() - 1]
    &&& forall|m: int| bp.len() <= m < p.len() ==> #[trigger] in_table_from(t, p[m], i)
    &&& forall|m1: int, m2: int| bp.len() - 1 <= m1 < m2 < p.len() ==> p[m1] < p[m2]
    &&& forall|m: int| bp.len() <= m < e.len() ==> #[trigger] e[m] >= 1
}

/// Extract the index behind a table membership.
pub proof fn lemma_in_table_index(t: Seq<u64>, q: u64, i: int) -> (j: int)
    requires
        in_table_from(t, q, i),
    ensures
        0 <= j,
        i <= j < t.len(),
        t[j] == q,
{
    choose|j: int| 0 <= j && i <= j < t.len() && t[j] == q
}

/// `s` is the value of some factorization the search can reach over
/// the table `t` — the root slot `t[0] ^ 1` deepened and extended by
/// later table primes — whose free divisor pairs number exactly `n`.
/// Every candidate is therefore a product of an initial power of
/// `t[0]` and higher powers of larger table primes; a value with a
/// prime factor outside the table, or not divisible by `t[0]`, lies
/// outside the search's candidate space by design.  Note that the
/// configuration check on the table's largest prime does not close
/// this gap: an integer below the ceiling may still carry a prime
/// factor beyond the table's last entry, and minimality claims are
/// made over this candidate space, not over all integers.
pub open spec fn hit(t: Seq<u64>, s: int, n: int) -> bool {
    exists|p: Seq<u64>, e: Seq<u64>|
        extends(t, seq![t[0]], seq![1u64], 1, p, e) && #[trigger] prod_pows(p, e) == s
            && pair_count(p, e) == n
}

/// The shared bound either still sits at the ceiling or records a value
/// below it that was checked to have exactly `n` free pairs.
pub open spec fn bound_inv(t: Seq<u64>, smin: int, smax: int, n: int) -> bool {
    smin == smax || (2 <= smin < smax && hit(t, smin, n))
}

/// Every factorization extends itself.
pub proof fn lemma_extends_refl(t: Seq<u64>, bp: Seq<u64>, be: Seq<u64>, i: int)
    requires
        bp.len() == be.len(),
        bp.len() >= 1,
    ensures
        extends(t, bp, be, i, bp, be),
{
}

/// Raising any exponent at or above the base's highest slot keeps a
/// factorization an extension of the base.
pub proof fn lemma_extends_raise_exp(
    t: Seq<u64>,
    bp: Seq<u64>,
    be: Seq<u64>,
    i: int,
    p: Seq<u64>,
    e: Seq<u64>,
    m: int,
    v: u64,
)
    requires
        extends(t, bp, be, i, p, e),
        bp.len() - 1 <= m < e.len(),
        v >= e[m],
        v >= 1,
    ensures
        extends(t, bp, be, i, p, e.update(m, v)),
{
}

/// An extension whose highest base exponent grew past `v` also
/// extends the base with that exponent raised to `v`.
pub proof fn lemma_extends_bump_base(
    t: Seq<u64>,
    bp: Seq<u64>,
    be: Seq<u64>,
    i: int,
    p: Seq<u64>,
    e: Seq<u64>,
    v: u64,
)
    requires
        extends(t, bp, be, i, p, e),
        e[bp.len() - 1] >= v >= be[bp.len() - 1],
    ensures
        extends(t, bp, be.update(bp.len() - 1, v), i, p, e),
{
}

/// Appending a later table prime to the base, with any positive
/// exponent, keeps the result an extension of the original base.
pub proof fn lemma_extends_push(
    t: Seq<u64>,
    bp: Seq<u64>,
    be: Seq<u64>,
    i: int,
    p: Seq<u64>,
    e: Seq<u64>,
    j: int,
    v: u64,
)
    requires
        extends(t, bp, be, i, p, e),
        0 <= j,
        i <= j < t.len(),
        t[j] > p[p.len() - 1],
        v >= 1,
    ensures
        extends(t, bp, be, i, p.push(t[j]), e.push(v)),
{
    let p2 = p.push(t[j]);
    assert(in_table_from(t, t[j], i));
    assert forall|m1: int, m2: int| bp.len() - 1 <= m1 < m2 < p2.len() implies p2[m1] < p2[m2] by {
        if m2 == p.len() {
            assert(p2[m2] == t[j]);
            if m1 < p.len() - 1 {
                assert(p[m1] < p[p.len() - 1]);
            }
        }
    }
}

/// An extension that keeps the base's highest exponent and opens new
/// slots extends the base grown by its first new prime: the remaining
/// new primes all sit later in the table.
pub proof fn lemma_extends_split_push(
    t: Seq<u64>,
    bp: Seq<u64>,
    be: Seq<u64>,
    i: int,
    p: Seq<u64>,
    e: Seq<u64>,
    j: int,
)
    requires
        extends(t, bp, be, i, p, e),
        p.len() > bp.len(),
        e[bp.len() - 1] == be[bp.len() - 1],
        i <= j < t.len(),
        t[j] == p[bp.len() as int],
        forall|m1: int, m2: int|
            #![trigger t[m1], t[m2]]
            0 <= m1 < m2 < t.len() ==> t[m1] < t[m2],
    ensures
        extends(t, bp.push(t[j]), be.push(1), j + 1, p, e),
{
    let bp2 = bp.push(t[j]);
    let be2 = be.push(1u64);
    assert(bp2.len() == be2.len());
    assert(forall|m: int| 0 <= m < bp2.len() ==> p[m] == bp2[m]);
    assert(forall|m: int| 0 <= m < bp2.len() - 1 ==> e[m] == be2[m]);
    assert(e[bp2.len() - 1] >= be2[bp2.len() - 1]);
    assert forall|m: int| bp2.len() <= m < p.len() implies #[trigger] in_table_from(
        t,
        p[m],
        j + 1,
    ) by {
        assert(in_table_from(t, p[m], i));
        let j2 = lemma_in_table_index(t, p[m], i);
        assert(p[m] > p[bp.len() as int]) by {
            assert(bp.len() - 1 <= bp.len() < m < p.len());
        }
        assert(t[j2] > t[j]);
        if j2 < j {
            assert(t[j2] < t[j]);
            assert(false);
        }
        assert(j + 1 <= j2 < t.len() && t[j2] == p[m]);
    }
}

/// The value of an extension is at least the value of its base.
pub proof fn lemma_extends_prod_ge(
    t: Seq<u64>,
    bp: Seq<u64>,
    be: Seq<u64>,
    i: int,
    p: Seq<u64>,
    e: Seq<u64>,
)
    requires
        extends(t, bp, be, i, p, e),
        forall|m: int| 0 <= m < t.len() ==> #[trigger] t[m] >= 1,
        forall|m: int| 0 <= m < bp.len() ==> #[trigger] bp[m] >= 1,
    ensures
        prod_pows(p, e) >= prod_pows(bp, be) >= 1,
{
    assert forall|m: int| 0 <= m < p.len() implies #[trigger] p[m] >= 1 by {
        if m >= bp.len() {
            assert(in_table_from(t, p[m], i));
            let j = lemma_in_table_index(t, p[m], i);
            assert(t[j] >= 1);
        }
    }
    lemma_extends_prod_ge_from(t, bp, be, i, p, e, 0);
}

/// The slot-by-slot induction behind `lemma_extends_prod_ge`.
proof fn lemma_extends_prod_ge_from(
    t: Seq<u64>,
    bp: Seq<u64>,
    be: Seq<u64>,
    i: int,
    p: Seq<u64>,
    e: Seq<u64>,
    m: int,
)
    requires
        extends(t, bp, be, i, p, e),
        forall|j: int| 0 <= j < p.len() ==> #[trigger] p[j] >= 1,
        forall|j: int| 0 <= j < bp.len() ==> #[trigger] bp[j] >= 1,
        0 <= m <= bp.len(),
    ensures
        prod_pows_from(p, e, m) >= prod_pows_from(bp, be, m) >= 1,
    decreases bp.len() - m,
{
    if m == bp.len() {
        assert(prod_pows_from(bp, be, m) == 1);
        lemma_prod_pows_from_pos(p, e, m);
    } else {
        lemma_extends_prod_ge_from(t, bp, be, i, p, e, m + 1);
        let f1 = pow(bp[m] as int, be[m] as nat);
        let f2 = pow(p[m] as int, e[m] as nat);
        lemma_pow_positive(bp[m] as int, be[m] as nat);
        lemma_pow_positive(p[m] as int, e[m] as nat);
        assert(f1 <= f2) by {
            if m == bp.len() - 1 {
                lemma_pow_increases(bp[m] as nat, be[m] as nat, e[m] as nat);
            } else {
                assert(p[m] == bp[m] && e[m] == be[m]);
            }
        }
        assert(f2 * prod_pows_from(p, e, m + 1) >= f1 * prod_pows_from(bp, be, m + 1) && f1
            * prod_pows_from(bp, be, m + 1) >= 1) by (nonlinear_arith)
            requires
                1 <= f1 <= f2,
                1 <= prod_pows_from(bp, be, m + 1) <= prod_pows_from(p, e, m + 1),
        ;
    }
}

/// A well-formed prime table: strictly increasing primes, and when the
/// table is long enough its first entries are 2 and 3.
pub open spec fn prime_table_wf(t: Seq<u64>) -> bool {
    &&& forall|i: int| 0 <= i < t.len() ==> is_prime(#[trigger] t[i] as int)
    &&& forall|i: int, j: int| 0 <= i < j < t.len() ==> t[i] < t[j]
    &&& t.len() >= 1 ==> t[0] == 2
    &&& t.len() >= 2 ==> t[1] == 3
}

/// Product of the first `m` entries of the table.
pub open spec fn prefix_prod(t: Seq<u64>, m: int) -> int
    decreases m,
{
    if m <= 0 || m > t.len() {
        1
    } else {
        prefix_prod(t, m - 1) * t[m - 1]
    }
}

/// The feasibility conditions on a ceiling/prime-table pair: the table
/// holds at least `fnum` primes, their product exceeds the ceiling, and
/// the largest prime exceeds the ceiling's square root (checked in the
/// division form the table generator uses).
pub open spec fn spec_config_ok(t: Seq<u64>, fnum: int, smax: int) -> bool {
    &&& t.len() >= fnum
    &&& prefix_prod(t, fnum) > smax
    &&& t.len() >= 1 && (t[t.len() - 1] as int) > smax / (t[t.len() - 1] as int) + 1
}

/// The trivial divisor pair `(1, l)` is never free, whatever `l`:
/// its upper bound `(k - 1) * (m + 1) - 2` is negative.  Leaving the
/// all-zero exponent choice out of the counter therefore changes no
/// count.
pub proof fn lemma_trivial_pair_never_free(l: int)
    requires
        l >= 1,
    ensures
        !spec_free(1, l),
{
    lemma_fundamental_div_mod(l, 1);
}

/// A square's diagonal pair `(k, k)` is never free: its lower bound
/// `(k + 1) * 1 + 2` already exceeds `k`.  Counting each unordered
/// pair once via `k <= l` is therefore unambiguous even when the
/// value is a perfect square.
pub proof fn lemma_square_pair_never_free(k: int)
    requires
        k >= 1,
    ensures
        !spec_free(k, k),
{
    lemma_div_by_self_pos(k);
    assert((k + 1) * 1 + 2 > k);
}

/// `k / k == 1` for positive `k`.
proof fn lemma_div_by_self_pos(k: int)
    requires
        k >= 1,
    ensures
        k / k == 1,
{
    lemma_fundamental_div_mod(k, k);
    let d = k / k;
    let r = k % k;
    assert(k == k * d + r && 0 <= r < k);
    if d <= 0 {
        assert(k * d <= 0) by (nonlinear_arith)
            requires
                k >= 1,
                d <= 0,
        ;
        assert(false);
    }
    if d >= 2 {
        assert(k * d >= 2 * k) by (nonlinear_arith)
            requires
                k >= 1,
                d >= 2,
        ;
        assert(false);
    }
}

/// Every product of prime powers is at least one.
pub proof fn lemma_prod_pows_from_pos(p: Seq<u64>, e: Seq<u64>, i: int)
    requires
        forall|j: int| 0 <= j < p.len() ==> #[trigger] p[j] >= 1,
    ensures
        prod_pows_from(p, e, i) >= 1,
    decreases p.len() - i,
{
    if 0 <= i < p.len() {
        lemma_pow_positive(p[i] as int, e[i] as nat);
        lemma_prod_pows_from_pos(p, e, i + 1);
        assert(pow(p[i] as int, e[i] as nat) * prod_pows_from(p, e, i + 1) >= 1) by (nonlinear_arith)
            requires
                pow(p[i] as int, e[i] as nat) >= 1,
                prod_pows_from(p, e, i + 1) >= 1,
        ;
    }
}

/// Every partial divisor count is at least one.
pub proof fn lemma_sigma_from_pos(e: Seq<u64>, i: int)
    ensures
        sigma_from(e, i) >= 1,
    decreases e.len() - i,
{
    if 0 <= i < e.len() {
        lemma_sigma_from_pos(e, i + 1);
        assert((e[i] + 1) * sigma_from(e, i + 1) >= 1) by (nonlinear_arith)
            requires
                sigma_from(e, i + 1) >= 1,
                e[i] >= 0,
        ;
    }
}

/// For a base of at least two, `e + 1 <= pow(b, e)`.
pub proof fn lemma_exp_plus_one_le_pow(b: int, e: nat)
    requires
        b >= 2,
    ensures
        e + 1 <= pow(b, e),
    decreases e,
{
    reveal(pow);
    if e == 0 {
    } else {
        lemma_exp_plus_one_le_pow(b, (e - 1) as nat);
        assert(pow(b, e) == b * pow(b, (e - 1) as nat));
        assert(e + 1 <= b * pow(b, (e - 1) as nat)) by (nonlinear_arith)
            requires
                b >= 2,
                e >= 1,
                e <= pow(b, (e - 1) as nat),
        ;
    }
}

/// The divisor count never exceeds the value of the factorization.
pub proof fn lemma_sigma_le_prod(p: Seq<u64>, e: Seq<u64>, i: int)
    requires
        p.len() == e.len(),
        forall|j: int| 0 <= j < p.len() ==> #[trigger] p[j] >= 2,
    ensures
        sigma_from(e, i) <= prod_pows_from(p, e, i),
    decreases p.len() - i,
{
    if 0 <= i < p.len() {
        lemma_sigma_le_prod(p, e, i + 1);
        lemma_exp_plus_one_le_pow(p[i] as int, e[i] as nat);
        lemma_sigma_from_pos(e, i + 1);
        lemma_prod_pows_from_pos(p, e, i + 1);
        assert((e[i] + 1) * sigma_from(e, i + 1) <= pow(p[i] as int, e[i] as nat)
            * prod_pows_from(p, e, i + 1)) by (nonlinear_arith)
            requires
                1 <= e[i] + 1 <= pow(p[i] as int, e[i] as nat),
                1 <= sigma_from(e, i + 1) <= prod_pows_from(p, e, i + 1),
        ;
    } else {
        lemma_sigma_from_pos(e, i);
        lemma_prod_pows_from_pos(p, e, i);
    }
}

/// The pair count is nonnegative and bounded by the number of exponent
/// choices that remain.
pub proof fn lemma_pair_count_from_range(p: Seq<u64>, e: Seq<u64>, i: int, z: int, k: int, l: int)
    requires
        p.len() == e.len(),
        0 <= z,
    ensures
        0 <= pair_count_from(p, e, i, z, k, l),
        0 <= i < p.len() && z <= e[i] ==> pair_count_from(p, e, i, z, k, l) <= (e[i] + 1 - z)
            * sigma_from(e, i + 1),
        0 <= i < p.len() && z > e[i] ==> pair_count_from(p, e, i, z, k, l) == 0,
        !(0 <= i < p.len()) ==> pair_count_from(p, e, i, z, k, l) <= 1,
    decreases p.len() - i, (if 0 <= i < e.len() { e[i] + 1 - z } else { 0 }),
{
    if 0 <= i < p.len() && z <= e[i] {
        let knext = k * pow(p[i] as int, z as nat);
        let lnext = l * pow(p[i] as int, (e[i] - z) as nat);
        lemma_pair_count_from_range(p, e, i + 1, 0, knext, lnext);
        lemma_pair_count_from_range(p, e, i, z + 1, k, l);
        lemma_sigma_from_pos(e, i + 1);
        if i + 1 < p.len() {
            assert(sigma_from(e, i + 1) == (e[i + 1] + 1) * sigma_from(e, i + 2));
            assert(pair_count_from(p, e, i + 1, 0, knext, lnext) <= sigma_from(e, i + 1));
        } else {
            assert(sigma_from(e, i + 1) == 1);
        }
        assert(pair_count_from(p, e, i, z + 1, k, l) <= (e[i] - z) * sigma_from(e, i + 1)) by {
            if z + 1 > e[i] {
                assert((e[i] - z) * sigma_from(e, i + 1) == 0) by (nonlinear_arith)
                    requires
                        e[i] - z == 0,
                ;
            }
        }
        assert((e[i] + 1 - z) * sigma_from(e, i + 1) == sigma_from(e, i + 1) + (e[i] - z)
            * sigma_from(e, i + 1)) by (nonlinear_arith);
    }
}

/// The pair count never exceeds the divisor count: at most one pair
/// per exponent choice.
pub proof fn lemma_pair_count_le_sigma(p: Seq<u64>, e: Seq<u64>)
    requires
        p.len() == e.len(),
    ensures
        pair_count(p, e) <= spec_sigma(e),
{
    lemma_pair_count_from_range(p, e, 0, 0, 1, 1);
    if p.len() >= 1 {
        lemma_sigma_from_pos(e, 1);
        assert(sigma_from(e, 0) == (e[0] + 1) * sigma_from(e, 1));
    }
}

/// The exponent row with its highest entry bumped by one.
pub open spec fn extended_exps(e: Seq<u64>) -> Seq<u64>
    recommends
        e.len() >= 1,
{
    e.update(e.len() - 1, ((e[e.len() - 1] + 1) as u64))
}

/// Bumping the exponent of slot `m` by one multiplies the product by the
/// prime of that slot.
pub proof fn lemma_prod_pows_update_inc(p: Seq<u64>, e: Seq<u64>, e2: Seq<u64>, m: int, i: int)
    requires
        p.len() == e.len(),
        e2 =~= e.update(m, e2[m]),
        0 <= m < e.len(),
        e2[m] == e[m] + 1,
        0 <= i <= m,
    ensures
        prod_pows_from(p, e2, i) == (p[m] as int) * prod_pows_from(p, e, i),
    decreases m - i,
{
    if i == m {
        assert(pow(p[m] as int, e2[m] as nat) == (p[m] as int) * pow(p[m] as int, e[m] as nat)) by {
            assert(e2[m] as nat == (e[m] as nat) + 1);
            reveal(pow);
        }
        assert(prod_pows_from(p, e2, i + 1) == prod_pows_from(p, e, i + 1)) by {
            lemma_prod_pows_from_agree(p, e, e2, i + 1);
        }
        assert(((p[m] as int) * pow(p[m] as int, e[m] as nat)) * prod_pows_from(p, e, i + 1) == (
        p[m] as int) * (pow(p[m] as int, e[m] as nat) * prod_pows_from(p, e, i + 1)))
            by (nonlinear_arith);
    } else {
        lemma_prod_pows_update_inc(p, e, e2, m, i + 1);
        assert(e2[i] == e[i]);
        let f = pow(p[i] as int, e[i] as nat);
        assert(f * ((p[m] as int) * prod_pows_from(p, e, i + 1)) == (p[m] as int) * (f
            * prod_pows_from(p, e, i + 1))) by (nonlinear_arith);
    }
}

/// Two exponent rows that agree from slot `i` on give the same product
/// from slot `i` on.
pub proof fn lemma_prod_pows_from_agree(p: Seq<u64>, e: Seq<u64>, e2: Seq<u64>, i: int)
    requires
        p.len() == e.len(),
        e2.len() == e.len(),
        forall|j: int| i <= j < e.len() ==> e2[j] == e[j],
    ensures
        prod_pows_from(p, e2, i) == prod_pows_from(p, e, i),
    decreases p.len() - i,
{
    if 0 <= i < p.len() {
        lemma_prod_pows_from_agree(p, e, e2, i + 1);
    }
}

/// Appending a slot multiplies the product by its prime power.
pub proof fn lemma_prod_pows_push(p: Seq<u64>, e: Seq<u64>, q: u64, x: u64, i: int)
    requires
        p.len() == e.len(),
        0 <= i <= p.len(),
    ensures
        prod_pows_from(p.push(q), e.push(x), i) == prod_pows_from(p, e, i) * pow(
            q as int,
            x as nat,
        ),
    decreases p.len() - i,
{
    let p2 = p.push(q);
    let e2 = e.push(x);
    if i == p.len() {
        assert(prod_pows_from(p2, e2, i) == pow(q as int, x as nat) * prod_pows_from(
            p2,
            e2,
            i + 1,
        ));
        assert(prod_pows_from(p2, e2, i + 1) == 1);
        assert(prod_pows_from(p, e, i) == 1);
    } else {
        lemma_prod_pows_push(p, e, q, x, i + 1);
        assert(0 <= i < p.len());
        assert(p2[i] == p[i] && e2[i] == e[i]);
        let f = pow(p[i] as int, e[i] as nat);
        let qx = pow(q as int, x as nat);
        assert(prod_pows_from(p2, e2, i) == f * prod_pows_from(p2, e2, i + 1));
        assert(prod_pows_from(p, e, i) == f * prod_pows_from(p, e, i + 1));
        assert(f * (prod_pows_from(p, e, i + 1) * qx) == (f * prod_pows_from(p, e, i + 1)) * qx)
            by (nonlinear_arith);
    }
}

/// Replacing the prime of a slot whose exponent is zero leaves the
/// product unchanged.
pub proof fn lemma_prod_pows_update_prime_zero(p: Seq<u64>, p2: Seq<u64>, e: Seq<u64>, m: int, i: int)
    requires
        p.len() == e.len(),
        p2 =~= p.update(m, p2[m]),
        0 <= m < p.len(),
        e[m] == 0,
        0 <= i,
    ensures
        prod_pows_from(p2, e, i) == prod_pows_from(p, e, i),
    decreases p.len() - i,
{
    if i < p.len() {
        lemma_prod_pows_update_prime_zero(p, p2, e, m, i + 1);
        if i == m {
            assert(pow(p2[m] as int, 0) == 1 && pow(p[m] as int, 0) == 1) by {
                reveal(pow);
            }
        }
    }
}

/// One slot's prime power never exceeds the whole product.
pub proof fn lemma_pow_le_prod(p: Seq<u64>, e: Seq<u64>, m: int, i: int)
    requires
        p.len() == e.len(),
        forall|j: int| 0 <= j < p.len() ==> #[trigger] p[j] >= 1,
        0 <= i <= m < p.len(),
    ensures
        pow(p[m] as int, e[m] as nat) <= prod_pows_from(p, e, i),
    decreases m - i,
{
    lemma_pow_positive(p[m] as int, e[m] as nat);
    if i == m {
        lemma_prod_pows_from_pos(p, e, i + 1);
        assert(pow(p[m] as int, e[m] as nat) * 1 <= pow(p[m] as int, e[m] as nat)
            * prod_pows_from(p, e, i + 1)) by (nonlinear_arith)
            requires
                pow(p[m] as int, e[m] as nat) >= 1,
                prod_pows_from(p, e, i + 1) >= 1,
        ;
    } else {
        lemma_pow_le_prod(p, e, m, i + 1);
        lemma_pow_positive(p[i] as int, e[i] as nat);
        assert(1 * prod_pows_from(p, e, i + 1) <= pow(p[i] as int, e[i] as nat) * prod_pows_from(
            p,
            e,
            i + 1,
        )) by (nonlinear_arith)
            requires
                pow(p[i] as int, e[i] as nat) >= 1,
                prod_pows_from(p, e, i + 1) >= 1,
        ;
    }
}

/// Products of prime powers only shrink as slots are dropped from the
/// front.
pub proof fn lemma_prod_pows_from_suffix_le(p: Seq<u64>, e: Seq<u64>, i: int, j: int)
    requires
        p.len() == e.len(),
        forall|m: int| 0 <= m < p.len() ==> #[trigger] p[m] >= 1,
        0 <= i <= j,
    ensures
        prod_pows_from(p, e, j) <= prod_pows_from(p, e, i),
    decreases j - i,
{
    if i < j {
        lemma_prod_pows_from_suffix_le(p, e, i + 1, j);
        if i < p.len() {
            lemma_pow_positive(p[i] as int, e[i] as nat);
            lemma_prod_pows_from_pos(p, e, i + 1);
            assert(1 * prod_pows_from(p, e, i + 1) <= pow(p[i] as int, e[i] as nat)
                * prod_pows_from(p, e, i + 1)) by (nonlinear_arith)
                requires
                    pow(p[i] as int, e[i] as nat) >= 1,
                    prod_pows_from(p, e, i + 1) >= 1,
            ;
        }
    }
}

/// Under the counter's value limit, no slot's exponent reaches 38.
pub proof fn lemma_exponent_bound(p: Seq<u64>, e: Seq<u64>, m: int, i: int)
    requires
        p.len() == e.len(),
        forall|j: int| 0 <= j < p.len() ==> #[trigger] p[j] >= 2,
        0 <= i <= m < p.len(),
        prod_pows_from(p, e, i) <= 200_000_000_000,
    ensures
        e[m] <= 37,
{
    lemma_pow_le_prod(p, e, m, i);
    if e[m] > 37 {
        lemma_pow_increases(2, 38, e[m] as nat);
        lemma_pow2(38);
        lemma2_to64();
        lemma2_to64_rest();
        assert(pow(2, 38) == 0x4000000000);
        lemma_pow_base_increases(p[m] as int, e[m] as nat);
        assert(false);
    }
}

/// A larger base gives a larger power.
pub proof fn lemma_pow_base_increases(b: int, x: nat)
    requires
        b >= 2,
    ensures
        pow(2, x) <= pow(b, x),
    decreases x,
{
    reveal(pow);
    if x > 0 {
        lemma_pow_base_increases(b, (x - 1) as nat);
        lemma_pow_positive(2, (x - 1) as nat);
        lemma_pow_positive(b, (x - 1) as nat);
        assert(2 * pow(2, (x - 1) as nat) <= b * pow(b, (x - 1) as nat)) by (nonlinear_arith)
            requires
                b >= 2,
                0 < pow(2, (x - 1) as nat) <= pow(b, (x - 1) as nat),
        ;
    }
}

/// `a * p` exceeds `q` exactly when `p` exceeds `q / a`.
pub proof fn lemma_div_mul_bound(a: int, p: int, q: int)
    requires
        a >= 1,
        p >= 0,
        q >= 0,
    ensures
        (p > q / a) <==> (a * p > q),
{
    lemma_fundamental_div_mod(q, a);
    let d = q / a;
    let r = q % a;
    assert(q == a * d + r && 0 <= r < a);
    if p > d {
        assert(a * p >= a * (d + 1)) by (nonlinear_arith)
            requires
                a >= 1,
                p >= d + 1,
        ;
        assert(a * (d + 1) == a * d + a) by (nonlinear_arith);
    } else {
        assert(a * p <= a * d) by (nonlinear_arith)
            requires
                a >= 1,
                p <= d,
        ;
    }
}

/// The truncated quotient never overshoots: `a * (q / a) <= q`.
pub proof fn lemma_mul_div_le(q: int, a: int)
    requires
        a >= 1,
        q >= 0,
    ensures
        a * (q / a) <= q,
        q / a >= 0,
    {
    lemma_fundamental_div_mod(q, a);
}

/// A child step of the search stays within bounds: when the next
/// prime passes the pruning test `q <= smin / s + 1`, the current
/// value is already at most `smin`, and the child's value `s * q` at
/// most `smin + s`.
pub proof fn lemma_step_fits(s: int, q: int, smin: int, smax: int, pmax: int)
    requires
        2 <= s,
        2 <= q,
        0 <= smin <= smax,
        pmax == smin / s + 1,
        q <= pmax,
    ensures
        s < s * q <= smin + s,
        s <= smin,
        s * q <= 2 * smax,
{
    lemma_mul_div_le(smin, s);
    assert(s * (q - 1) <= s * (smin / s)) by (nonlinear_arith)
        requires
            s >= 2,
            q - 1 <= smin / s,
    ;
    assert(s * (q - 1) == s * q - s) by (nonlinear_arith);
    assert(s <= s * (q - 1)) by (nonlinear_arith)
        requires
            s >= 2,
            q >= 2,
    ;
    assert(s < s * q) by (nonlinear_arith)
        requires
            s >= 2,
            q >= 2,
    ;
}

/// Prefix products of a table of positive entries grow with the prefix.
pub proof fn lemma_prefix_prod_le(t: Seq<u64>, m1: int, m2: int)
    requires
        forall|i: int| 0 <= i < t.len() ==> #[trigger] t[i] >= 1,
        0 <= m1 <= m2 <= t.len(),
    ensures
        1 <= prefix_prod(t, m1) <= prefix_prod(t, m2),
    decreases m2 - m1,
{
    if m1 == m2 {
        lemma_prefix_prod_pos(t, m1);
    } else {
        lemma_prefix_prod_le(t, m1, m2 - 1);
        lemma_prefix_prod_pos(t, m2 - 1);
        assert(prefix_prod(t, m2) == prefix_prod(t, m2 - 1) * t[m2 - 1]);
        assert(prefix_prod(t, m2 - 1) * 1 <= prefix_prod(t, m2 - 1) * t[m2 - 1])
            by (nonlinear_arith)
            requires
                prefix_prod(t, m2 - 1) >= 1,
                t[m2 - 1] >= 1,
        ;
    }
}

/// Prefix products of a table of positive entries are positive.
pub proof fn lemma_prefix_prod_pos(t: Seq<u64>, m: int)
    requires
        forall|i: int| 0 <= i < t.len() ==> #[trigger] t[i] >= 1,
    ensures
        prefix_prod(t, m) >= 1,
    decreases m,
{
    if 0 < m <= t.len() {
        lemma_prefix_prod_pos(t, m - 1);
        assert(prefix_prod(t, m - 1) * t[m - 1] >= 1) by (nonlinear_arith)
            requires
                prefix_prod(t, m - 1) >= 1,
                t[m - 1] >= 1,
        ;
    }
}

} // verus!
