use vstd::prelude::*;

use crate::arith::{divides, gcd, gcd64, lemma_divides_trans, lemma_gcd_divides, lemma_lcm_step};
use crate::error::Error;
use crate::key::Key;

verus! {

/// An exact probability: a rational number in the closed unit interval,
/// kept as a numerator and a positive denominator.
#[derive(Clone, Copy, Debug, PartialEq, Eq)]
pub struct Probability {
    num: u64,
    den: u64,
}

impl View for Probability {
    type V = (u64, u64);

    closed spec fn view(&self) -> (u64, u64) {
        (self.num, self.den)
    }
}

/// The exact product of two 64-bit values, computed in 128 bits.
pub(crate) fn mul_u64_wide(a: u64, b: u64) -> (r: u128)
    ensures
        r == a * b,
{
    proof {
        vstd::arithmetic::mul::lemma_mul_upper_bound(a as int, u64::MAX as int, b as int, u64::MAX as int);
    }
    (a as u128) * (b as u128)
}

impl Probability {
    #[verifier::type_invariant]
    spec fn type_inv(self) -> bool {
        1 <= self.den && self.num <= self.den
    }

    /// Builds the probability `num / den`, failing when the fraction lies
    /// outside the unit interval (including a zero denominator).
    pub fn new(num: u64, den: u64) -> (r: Result<Self, Error>)
        ensures
            r.is_ok() <==> (1 <= den && num <= den),
            r.is_ok() ==> r.unwrap()@ == (num, den),
            r.is_err() ==> r.unwrap_err() == Error::ProbabilityOutOfRange,
    {
        if den == 0 || num > den {
            Err(Error::ProbabilityOutOfRange)
        } else {
            Ok(Probability { num, den })
        }
    }

    /// The certain event, `1 / 1`.
    pub fn one() -> (r: Self)
        ensures
            r@ == (1u64, 1u64),
    {
        Probability { num: 1, den: 1 }
    }

    /// The impossible event, `0 / 1`.
    pub fn zero() -> (r: Self)
        ensures
            r@ == (0u64, 1u64),
    {
        Probability { num: 0, den: 1 }
    }

    /// The numerator and denominator, exactly as stored; the fraction is
    /// always within the unit interval.
    pub fn value(&self) -> (r: (u64, u64))
        ensures
            r == self@,
            1 <= r.1,
            r.0 <= r.1,
    {
        proof {
            use_type_invariant(self);
        }
        (self.num, self.den)
    }

    /// The complement `1 - p`, always exact.
    pub fn complement(&self) -> (r: Self)
        ensures
            r@.1 == self@.1,
            r@.0 == self@.1 - self@.0,
    {
        proof {
            use_type_invariant(self);
        }
        Probability { num: self.den - self.num, den: self.den }
    }

    /// The conjunction of two independent events: the exact product of the
    /// two fractions, failing when it cannot be represented.
    pub fn and(&self, other: Probability) -> (r: Result<Self, Error>)
        ensures
            r.is_ok() <==> mul_fits(self@, other@),
            r.is_ok() ==> r.unwrap()@.0 == self@.0 * other@.0,
            r.is_ok() ==> r.unwrap()@.1 == self@.1 * other@.1,
            r.is_err() ==> r.unwrap_err() == Error::ProbabilityOutOfRange,
    {
        proof {
            use_type_invariant(self);
            use_type_invariant(&other);
        }
        let nn: u128 = mul_u64_wide(self.num, other.num);
        let dd: u128 = mul_u64_wide(self.den, other.den);
        if nn > u64::MAX as u128 || dd > u64::MAX as u128 {
            Err(Error::ProbabilityOutOfRange)
        } else {
            proof {
                vstd::arithmetic::mul::lemma_mul_inequality(self.num as int, self.den as int, other.num as int);
                vstd::arithmetic::mul::lemma_mul_inequality(other.num as int, other.den as int, self.den as int);
                vstd::arithmetic::mul::lemma_mul_is_commutative(self.den as int, other.num as int);
                vstd::arithmetic::mul::lemma_mul_strictly_positive(self.den as int, other.den as int);
            }
            Ok(Probability { num: nn as u64, den: dd as u64 })
        }
    }

    /// The disjunction of two independent events, `p + q - p*q`,
    /// computed exactly over the common denominator; fails when that
    /// denominator cannot be represented.
    pub fn or(&self, other: Probability) -> (r: Result<Self, Error>)
        ensures
            r.is_ok() <==> mul_fits(self@, other@),
            r.is_ok() ==> r.unwrap()@.1 == self@.1 * other@.1,
            r.is_ok() ==> r.unwrap()@.0 == self@.0 * other@.1 + other@.0 * self@.1 - self@.0 * other@.0,
            r.is_err() ==> r.unwrap_err() == Error::ProbabilityOutOfRange,
    {
        proof {
            use_type_invariant(self);
            use_type_invariant(&other);
        }
        let nn: u128 = mul_u64_wide(self.num, other.num);
        let dd: u128 = mul_u64_wide(self.den, other.den);
        if nn > u64::MAX as u128 || dd > u64::MAX as u128 {
            Err(Error::ProbabilityOutOfRange)
        } else {
            let cross1: u128 = mul_u64_wide(self.num, other.den);
            let cross2: u128 = mul_u64_wide(other.num, self.den);
            proof {
                vstd::arithmetic::mul::lemma_mul_inequality(self.num as int, self.den as int, other.den as int);
                vstd::arithmetic::mul::lemma_mul_inequality(other.num as int, other.den as int, self.den as int);
                vstd::arithmetic::mul::lemma_mul_is_commutative(self.den as int, other.den as int);
                vstd::arithmetic::mul::lemma_mul_is_commutative(self.den as int, other.num as int);
                vstd::arithmetic::mul::lemma_mul_strictly_positive(self.den as int, other.den as int);
                // 1 - (p + q - p*q) == (1 - p) * (1 - q), so the numerator
                // stays within the denominator.
                vstd::arithmetic::mul::lemma_mul_is_distributive_sub(
                    self.den as int - self.num as int,
                    other.den as int,
                    other.num as int,
                );
                vstd::arithmetic::mul::lemma_mul_is_distributive_sub_other_way(
                    other.den as int,
                    self.den as int,
                    self.num as int,
                );
                vstd::arithmetic::mul::lemma_mul_is_distributive_sub_other_way(
                    other.num as int,
                    self.den as int,
                    self.num as int,
                );
                vstd::arithmetic::mul::lemma_mul_nonnegative(
                    self.den as int - self.num as int,
                    other.den as int - other.num as int,
                );
            }
            let num: u128 = cross1 + cross2 - nn;
            Ok(Probability { num: num as u64, den: dd as u64 })
        }
    }
}

/// Whether the exact product of two fractions (given as numerator and
/// denominator) is representable.
pub open spec fn mul_fits(a: (u64, u64), b: (u64, u64)) -> bool {
    a.0 * b.0 <= u64::MAX && a.1 * b.1 <= u64::MAX
}

/// Whether a fraction, given as numerator and denominator, is a valid
/// probability: a positive denominator and a value within the unit interval.
pub open spec fn valid_frac(f: (u64, u64)) -> bool {
    1 <= f.1 && f.0 <= f.1
}

/// Whether every weight of a distribution is a valid fraction.
pub open spec fn valid_weights<T>(s: Seq<(T, Probability)>) -> bool {
    forall|i: int| 0 <= i < s.len() ==> valid_frac((#[trigger] s[i]).1@)
}

/// Whether the values of a distribution are pairwise distinct.
pub open spec fn distinct_keys<T>(s: Seq<(T, Probability)>) -> bool {
    forall|i: int, j: int| 0 <= i < j < s.len() ==> s[i].0 != s[j].0
}

/// The exact sum of the weights of a distribution, as a fraction whose
/// denominator is the product of all the weights' denominators.
pub open spec fn mass<T>(s: Seq<(T, Probability)>) -> (int, int)
    decreases s.len(),
{
    if s.len() == 0 {
        (0int, 1int)
    } else {
        let rest = mass(s.drop_last());
        let w = s.last().1@;
        (w.0 * rest.1 + rest.0 * w.1, w.1 * rest.1)
    }
}

/// Whether the weights of a distribution sum to exactly one.
pub open spec fn unit_mass<T>(s: Seq<(T, Probability)>) -> bool {
    mass(s).0 == mass(s).1
}

/// The least common multiple of the weights' denominators.
pub open spec fn dens_lcm<T>(s: Seq<(T, Probability)>) -> int
    decreases s.len(),
{
    if s.len() == 0 {
        1int
    } else {
        let acc = dens_lcm(s.drop_last());
        let d = s.last().1@.1 as int;
        (acc / gcd(acc as nat, d as nat) as int) * d
    }
}

/// The sum of the weights after each is brought to the common
/// denominator `cd`: adds `num * (cd / den)` for every weight.
pub open spec fn weighted_total<T>(s: Seq<(T, Probability)>, cd: int) -> int
    decreases s.len(),
{
    if s.len() == 0 {
        0int
    } else {
        weighted_total(s.drop_last(), cd) + s.last().1@.0 * (cd / s.last().1@.1 as int)
    }
}

/// The denominator of the exact mass is positive, and the numerator is
/// not negative.
pub proof fn lemma_mass_signs<T>(s: Seq<(T, Probability)>)
    requires
        valid_weights(s),
    ensures
        mass(s).1 >= 1,
        mass(s).0 >= 0,
    decreases s.len(),
{
    if s.len() > 0 {
        assert(valid_weights(s.drop_last())) by {
            assert(forall|i: int|
                0 <= i < s.len() - 1 ==> (#[trigger] s.drop_last()[i]) == s[i]);
        }
        lemma_mass_signs(s.drop_last());
        let rest = mass(s.drop_last());
        let w = s.last().1@;
        assert(valid_frac(w));
        assert(w.1 * rest.1 >= 1) by (nonlinear_arith)
            requires w.1 >= 1 && rest.1 >= 1;
        assert(w.0 * rest.1 >= 0 && rest.0 * w.1 >= 0) by (nonlinear_arith)
            requires w.0 >= 0 && rest.1 >= 1 && rest.0 >= 0 && w.1 >= 1;
    }
}

/// The least common multiple of the denominators is positive.
pub proof fn lemma_dens_lcm_pos<T>(s: Seq<(T, Probability)>)
    requires
        valid_weights(s),
    ensures
        dens_lcm(s) >= 1,
    decreases s.len(),
{
    if s.len() > 0 {
        assert(valid_weights(s.drop_last())) by {
            assert(forall|i: int|
                0 <= i < s.len() - 1 ==> (#[trigger] s.drop_last()[i]) == s[i]);
        }
        lemma_dens_lcm_pos(s.drop_last());
        let acc = dens_lcm(s.drop_last());
        let d = s.last().1@.1 as int;
        assert(valid_frac(s.last().1@));
        lemma_lcm_step(acc as nat, d as nat);
    }
}

/// The least common multiple of a prefix never exceeds that of the
/// whole distribution.
pub proof fn lemma_dens_lcm_prefix<T>(s: Seq<(T, Probability)>, k: int)
    requires
        valid_weights(s),
        0 <= k <= s.len(),
    ensures
        dens_lcm(s.take(k)) <= dens_lcm(s),
        dens_lcm(s.take(k)) >= 1,
    decreases s.len() - k,
{
    assert(valid_weights(s.take(k))) by {
        assert(forall|i: int| 0 <= i < k ==> (#[trigger] s.take(k)[i]) == s[i]);
    }
    lemma_dens_lcm_pos(s.take(k));
    if k == s.len() {
        assert(s.take(k) =~= s);
    } else {
        assert(s.take(k + 1).drop_last() =~= s.take(k));
        assert(s.take(k + 1).last() == s[k]);
        let acc = dens_lcm(s.take(k));
        let d = s[k].1@.1 as int;
        assert(valid_frac(s[k].1@));
        lemma_lcm_step(acc as nat, d as nat);
        lemma_dens_lcm_prefix(s, k + 1);
    }
}

/// Relates the whole-number check to the exact rational mass: if every
/// denominator divides the common denominator `cd`, then the weights sum
/// to one exactly when the weighted total equals `cd`.
#[verifier::rlimit(50)]
pub proof fn lemma_weighted_total_mass<T>(s: Seq<(T, Probability)>, cd: int)
    requires
        valid_weights(s),
        cd >= 1,
        forall|i: int| 0 <= i < s.len() ==> divides((#[trigger] s[i]).1@.1 as int, cd),
    ensures
        mass(s).0 * cd == mass(s).1 * weighted_total(s, cd),
    decreases s.len(),
{
    if s.len() == 0 {
        assert(mass(s) == (0int, 1int));
        assert(weighted_total(s, cd) == 0);
        assert(mass(s).0 * cd == 0) by (nonlinear_arith)
            requires mass(s).0 == 0;
        assert(mass(s).1 * weighted_total(s, cd) == 0) by (nonlinear_arith)
            requires weighted_total(s, cd) == 0;
    } else {
        let r = s.drop_last();
        assert(valid_weights(r) && forall|i: int|
            0 <= i < r.len() ==> divides((#[trigger] r[i]).1@.1 as int, cd)) by {
            assert(forall|i: int| 0 <= i < s.len() - 1 ==> (#[trigger] r[i]) == s[i]);
        }
        lemma_weighted_total_mass(r, cd);
        lemma_mass_signs(r);
        let m = mass(r);
        let w = s.last().1@;
        let wt = weighted_total(r, cd);
        assert(valid_frac(w));
        let d = w.1 as int;
        let q = cd / d;
        vstd::arithmetic::div_mod::lemma_fundamental_div_mod(cd, d);
        assert(d * q == cd);
        assert(mass(s).0 == w.0 * m.1 + m.0 * d);
        assert(mass(s).1 == d * m.1);
        assert(weighted_total(s, cd) == wt + w.0 * q);
        vstd::arithmetic::mul::lemma_mul_is_distributive_add_other_way(
            cd,
            w.0 * m.1,
            m.0 * d,
        );
        assert((m.0 * d) * cd == (d * m.1) * wt) by (nonlinear_arith)
            requires
                m.0 * cd == m.1 * wt,
        ;
        assert((w.0 * m.1) * cd == (d * m.1) * (w.0 * q)) by (nonlinear_arith)
            requires
                cd == d * q,
        ;
        vstd::arithmetic::mul::lemma_mul_is_distributive_add(d * m.1, wt, w.0 * q);
        assert(mass(s).0 * cd == mass(s).1 * weighted_total(s, cd));
    }
}

/// The exact product of two weights; meaningful whenever the product of
/// the numerators and of the denominators fit in 64 bits.
spec fn prob_mul(a: Probability, b: Probability) -> Probability {
    Probability { num: (a@.0 * b@.0) as u64, den: (a@.1 * b@.1) as u64 }
}

/// One row of an independent joint distribution: a fixed entry of the
/// first distribution paired with every entry of the second.
spec fn scale_row<T, U>(e: (T, Probability), s2: Seq<(U, Probability)>) -> Seq<
    ((T, U), Probability),
> {
    Seq::new(s2.len(), |j: int| ((e.0, s2[j].0), prob_mul(e.1, s2[j].1)))
}

/// The independent joint distribution of two distributions, laid out row
/// by row: the entry for pair `(i, j)` sits at index `i * |s2| + j`.
pub closed spec fn product_dist<T, U>(
    s1: Seq<(T, Probability)>,
    s2: Seq<(U, Probability)>,
) -> Seq<((T, U), Probability)>
    decreases s1.len(),
{
    if s1.len() == 0 {
        Seq::empty()
    } else {
        product_dist(s1.drop_last(), s2) + scale_row(s1.last(), s2)
    }
}

/// Whether the exact product of every pair of weights is representable.
pub open spec fn all_pairs_fit<T, U>(
    s1: Seq<(T, Probability)>,
    s2: Seq<(U, Probability)>,
) -> bool {
    forall|i: int, j: int|
        0 <= i < s1.len() && 0 <= j < s2.len() ==> mul_fits(
            (#[trigger] s1[i]).1@,
            (#[trigger] s2[j]).1@,
        )
}

/// The joint distribution has one entry per pair of entries.
pub proof fn lemma_product_dist_len<T, U>(s1: Seq<(T, Probability)>, s2: Seq<(U, Probability)>)
    ensures
        product_dist(s1, s2).len() == s1.len() * s2.len(),
    decreases s1.len(),
{
    if s1.len() == 0 {
        assert(s1.len() * s2.len() == 0) by (nonlinear_arith)
            requires s1.len() == 0;
    } else {
        lemma_product_dist_len(s1.drop_last(), s2);
        assert((s1.len() - 1) * s2.len() + s2.len() == s1.len() * s2.len()) by (nonlinear_arith);
    }
}

/// The entry of the joint distribution at row `i`, column `j`: the pair
/// of the two values, weighted by the exact product of the two weights.
pub proof fn lemma_product_dist_at<T, U>(
    s1: Seq<(T, Probability)>,
    s2: Seq<(U, Probability)>,
    i: int,
    j: int,
)
    requires
        0 <= i < s1.len(),
        0 <= j < s2.len(),
    ensures
        product_dist(s1, s2)[i * s2.len() + j].0 == (s1[i].0, s2[j].0),
        mul_fits(s1[i].1@, s2[j].1@) ==> (product_dist(s1, s2)[i * s2.len() + j].1@.0 == s1[i].1@.0
            * s2[j].1@.0 && product_dist(s1, s2)[i * s2.len() + j].1@.1 == s1[i].1@.1
            * s2[j].1@.1),
    decreases s1.len(),
{
    let n1 = s1.len() as int;
    let n2 = s2.len() as int;
    let r = s1.drop_last();
    lemma_product_dist_len(r, s2);
    lemma_product_dist_len(s1, s2);
    assert(0 <= i * n2 + j < n1 * n2) by (nonlinear_arith)
        requires
            0 <= i < n1,
            0 <= j < n2,
    ;
    if i < n1 - 1 {
        assert(i * n2 + j < (n1 - 1) * n2) by (nonlinear_arith)
            requires
                0 <= i < n1 - 1,
                0 <= j < n2,
        ;
        lemma_product_dist_at(r, s2, i, j);
        assert(r[i] == s1[i]);
    } else {
        assert(i * n2 + j - (n1 - 1) * n2 == j) by (nonlinear_arith)
            requires
                i == n1 - 1,
        ;
        assert(product_dist(s1, s2)[i * n2 + j] == scale_row(s1.last(), s2)[j]);
        assert(s1.last() == s1[i]);
        if mul_fits(s1[i].1@, s2[j].1@) {
            let p = prob_mul(s1[i].1, s2[j].1);
            assert(p@.0 == s1[i].1@.0 * s2[j].1@.0 && p@.1 == s1[i].1@.1 * s2[j].1@.1);
        }
    }
}

/// Every denominator in a distribution divides the product of all its
/// denominators, which is the denominator of the exact mass.
pub proof fn lemma_den_divides_mass_den<T>(s: Seq<(T, Probability)>)
    requires
        valid_weights(s),
    ensures
        mass(s).1 >= 1,
        forall|i: int| 0 <= i < s.len() ==> divides((#[trigger] s[i]).1@.1 as int, mass(s).1),
    decreases s.len(),
{
    lemma_mass_signs(s);
    if s.len() > 0 {
        let r = s.drop_last();
        assert(valid_weights(r)) by {
            assert(forall|i: int| 0 <= i < r.len() ==> (#[trigger] r[i]) == s[i]);
        }
        lemma_den_divides_mass_den(r);
        let w = s.last().1@;
        let d = w.1 as int;
        assert(valid_frac(w));
        assert(mass(s).1 == d * mass(r).1);
        assert forall|i: int| 0 <= i < s.len() implies divides(
            (#[trigger] s[i]).1@.1 as int,
            mass(s).1,
        ) by {
            if i < s.len() - 1 {
                assert(s[i] == r[i]);
                assert(divides(s[i].1@.1 as int, mass(r).1));
                crate::arith::lemma_divides_mul(s[i].1@.1 as int, mass(r).1, d);
            } else {
                vstd::arithmetic::div_mod::lemma_mod_self_0(d);
                crate::arith::lemma_divides_mul(d, d, mass(r).1);
                assert(divides(d, mass(r).1 * d));
                vstd::arithmetic::mul::lemma_mul_is_commutative(mass(r).1, d);
            }
        }
    }
}

/// The weighted total of a concatenation is the sum of the totals.
proof fn lemma_weighted_total_concat<T>(
    x: Seq<(T, Probability)>,
    y: Seq<(T, Probability)>,
    cd: int,
)
    ensures
        weighted_total(x + y, cd) == weighted_total(x, cd) + weighted_total(y, cd),
    decreases y.len(),
{
    if y.len() == 0 {
        assert(x + y =~= x);
    } else {
        let r = y.drop_last();
        assert((x + y).drop_last() =~= x + r);
        assert((x + y).last() == y.last());
        lemma_weighted_total_concat(x, r, cd);
    }
}

/// The weighted total of one row of the joint distribution factors into
/// the row entry's contribution times the second distribution's total.
proof fn lemma_scale_row_total<T, U>(
    e: (T, Probability),
    s2: Seq<(U, Probability)>,
    p1: int,
    p2: int,
)
    requires
        valid_frac(e.1@),
        valid_weights(s2),
        forall|j: int| 0 <= j < s2.len() ==> mul_fits(e.1@, (#[trigger] s2[j]).1@),
        p1 >= 1,
        p2 >= 1,
        divides(e.1@.1 as int, p1),
        forall|j: int| 0 <= j < s2.len() ==> divides((#[trigger] s2[j]).1@.1 as int, p2),
    ensures
        weighted_total(scale_row(e, s2), p1 * p2) == (e.1@.0 * (p1 / e.1@.1 as int))
            * weighted_total(s2, p2),
    decreases s2.len(),
{
    let row = scale_row(e, s2);
    if s2.len() == 0 {
        assert(row.len() == 0);
        assert((e.1@.0 * (p1 / e.1@.1 as int)) * 0 == 0) by (nonlinear_arith);
    } else {
        let r2 = s2.drop_last();
        assert(valid_weights(r2) && (forall|j: int|
            0 <= j < r2.len() ==> mul_fits(e.1@, (#[trigger] r2[j]).1@)) && (forall|j: int|
            0 <= j < r2.len() ==> divides((#[trigger] r2[j]).1@.1 as int, p2))) by {
            assert(forall|j: int| 0 <= j < r2.len() ==> (#[trigger] r2[j]) == s2[j]);
        }
        lemma_scale_row_total(e, r2, p1, p2);
        assert(row.drop_last() =~= scale_row(e, r2));
        let f = s2.last().1@;
        assert(valid_frac(f) && mul_fits(e.1@, f) && divides(f.1 as int, p2)) by {
            assert(s2[s2.len() - 1] == s2.last());
        }
        let en = e.1@.0 as int;
        let ed = e.1@.1 as int;
        let fn_ = f.0 as int;
        let fd = f.1 as int;
        let pm = prob_mul(e.1, s2.last().1);
        assert(row.last() == ((e.0, s2.last().0), pm));
        assert(pm@.0 == en * fn_ && pm@.1 == ed * fd);
        crate::arith::lemma_divides_product_pair(ed, fd, p1, p2);
        let q1 = p1 / ed;
        let q2 = p2 / fd;
        // the last term of the row's total factors into the two
        // component contributions
        assert((en * fn_) * ((p1 * p2) / (ed * fd)) == (en * q1) * (fn_ * q2)) by (nonlinear_arith)
            requires
                (p1 * p2) / (ed * fd) == q1 * q2,
        ;
        assert((en * q1) * (weighted_total(r2, p2) + fn_ * q2) == (en * q1) * weighted_total(
            r2,
            p2,
        ) + (en * q1) * (fn_ * q2)) by {
            vstd::arithmetic::mul::lemma_mul_is_distributive_add(
                en * q1,
                weighted_total(r2, p2),
                fn_ * q2,
            );
        }
    }
}

/// The weighted total of the joint distribution is the product of the
/// two weighted totals.
proof fn lemma_product_dist_total<T, U>(
    s1: Seq<(T, Probability)>,
    s2: Seq<(U, Probability)>,
    p1: int,
    p2: int,
)
    requires
        valid_weights(s1),
        valid_weights(s2),
        all_pairs_fit(s1, s2),
        p1 >= 1,
        p2 >= 1,
        forall|i: int| 0 <= i < s1.len() ==> divides((#[trigger] s1[i]).1@.1 as int, p1),
        forall|j: int| 0 <= j < s2.len() ==> divides((#[trigger] s2[j]).1@.1 as int, p2),
    ensures
        weighted_total(product_dist(s1, s2), p1 * p2) == weighted_total(s1, p1) * weighted_total(
            s2,
            p2,
        ),
    decreases s1.len(),
{
    if s1.len() == 0 {
        assert(0 == 0 * weighted_total(s2, p2)) by (nonlinear_arith);
    } else {
        let r = s1.drop_last();
        assert(valid_weights(r) && all_pairs_fit(r, s2) && (forall|i: int|
            0 <= i < r.len() ==> divides((#[trigger] r[i]).1@.1 as int, p1))) by {
            assert(forall|i: int| 0 <= i < r.len() ==> (#[trigger] r[i]) == s1[i]);
        }
        lemma_product_dist_total(r, s2, p1, p2);
        let e = s1.last();
        assert(valid_frac(e.1@) && divides(e.1@.1 as int, p1) && (forall|j: int|
            0 <= j < s2.len() ==> mul_fits(e.1@, (#[trigger] s2[j]).1@))) by {
            assert(s1[s1.len() - 1] == e);
        }
        lemma_weighted_total_concat(product_dist(r, s2), scale_row(e, s2), p1 * p2);
        lemma_scale_row_total(e, s2, p1, p2);
        // the step adds exactly the last entry's contribution to the
        // first total, times the second total
        assert(weighted_total(r, p1) * weighted_total(s2, p2) + (e.1@.0 * (p1 / e.1@.1 as int))
            * weighted_total(s2, p2) == weighted_total(s1, p1) * weighted_total(s2, p2)) by {
            vstd::arithmetic::mul::lemma_mul_is_distributive_add_other_way(
                weighted_total(s2, p2),
                weighted_total(r, p1),
                e.1@.0 * (p1 / e.1@.1 as int),
            );
        }
    }
}

/// Law: the independent joint of two distributions whose weights each sum
/// to one, with every pairwise weight product representable, again has
/// weights summing to exactly one.
#[verifier::rlimit(30)]
pub proof fn lemma_product_mass<T, U>(s1: Seq<(T, Probability)>, s2: Seq<(U, Probability)>)
    requires
        valid_weights(s1),
        valid_weights(s2),
        unit_mass(s1),
        unit_mass(s2),
        all_pairs_fit(s1, s2),
    ensures
        unit_mass(product_dist(s1, s2)),
        valid_weights(product_dist(s1, s2)),
{
    let p1 = mass(s1).1;
    let p2 = mass(s2).1;
    lemma_den_divides_mass_den(s1);
    lemma_den_divides_mass_den(s2);
    lemma_mass_signs(s1);
    lemma_mass_signs(s2);
    // Each distribution's weighted total over its own mass denominator
    // equals that denominator, because the weights sum to one.
    lemma_weighted_total_mass(s1, p1);
    lemma_weighted_total_mass(s2, p2);
    let wt1 = weighted_total(s1, p1);
    let wt2 = weighted_total(s2, p2);
    assert(wt1 == p1) by (nonlinear_arith)
        requires
            p1 >= 1,
            mass(s1).0 * p1 == mass(s1).1 * wt1,
            mass(s1).0 == p1 && mass(s1).1 == p1,
    ;
    assert(wt2 == p2) by (nonlinear_arith)
        requires
            p2 >= 1,
            mass(s2).0 * p2 == mass(s2).1 * wt2,
            mass(s2).0 == p2 && mass(s2).1 == p2,
    ;
    let joint = product_dist(s1, s2);
    let n1 = s1.len() as int;
    let n2 = s2.len() as int;
    assert(n2 >= 1) by {
        if s2.len() == 0 {
            assert(mass(s2) == (0int, 1int));
        }
    }
    assert(n1 >= 1) by {
        if s1.len() == 0 {
            assert(mass(s1) == (0int, 1int));
        }
    }
    lemma_product_dist_len(s1, s2);
    let cd = p1 * p2;
    assert(cd >= 1) by {
        vstd::arithmetic::mul::lemma_mul_strictly_positive(p1, p2);
    }
    assert forall|k: int| 0 <= k < joint.len() implies valid_frac((#[trigger] joint[k]).1@)
        && divides(joint[k].1@.1 as int, cd) by {
        let i = k / n2;
        let j = k % n2;
        vstd::arithmetic::div_mod::lemma_fundamental_div_mod(k, n2);
        assert(0 <= j < n2) by {
            vstd::arithmetic::div_mod::lemma_mod_division_less_than_divisor(k, n2);
        }
        assert(0 <= i < n1) by (nonlinear_arith)
            requires
                k == n2 * i + j,
                0 <= j < n2,
                0 <= k < n1 * n2,
        ;
        lemma_product_dist_at(s1, s2, i, j);
        assert(i * n2 + j == k);
        assert(mul_fits(s1[i].1@, s2[j].1@));
        assert(valid_frac(s1[i].1@) && valid_frac(s2[j].1@));
        let a = s1[i].1@;
        let b = s2[j].1@;
        assert(joint[k].1@.0 == a.0 * b.0 && joint[k].1@.1 == a.1 * b.1);
        assert(a.0 * b.0 <= a.1 * b.1 && 1 <= a.1 * b.1) by (nonlinear_arith)
            requires
                a.0 <= a.1,
                b.0 <= b.1,
                1 <= a.1,
                1 <= b.1,
                0 <= a.0,
                0 <= b.0,
        ;
        crate::arith::lemma_divides_product_pair(a.1 as int, b.1 as int, p1, p2);
    }
    lemma_product_dist_total(s1, s2, p1, p2);
    lemma_weighted_total_mass(joint, cd);
    assert(weighted_total(joint, cd) == cd);
    lemma_cancel_common(mass(joint).0, mass(joint).1, cd);
}

/// The joint distribution of two distributions over distinct values is
/// again over distinct values.
pub proof fn lemma_product_dist_distinct<T, U>(
    s1: Seq<(T, Probability)>,
    s2: Seq<(U, Probability)>,
)
    requires
        distinct_keys(s1),
        distinct_keys(s2),
    ensures
        distinct_keys(product_dist(s1, s2)),
{
    let joint = product_dist(s1, s2);
    let n1 = s1.len() as int;
    let n2 = s2.len() as int;
    lemma_product_dist_len(s1, s2);
    if n2 == 0 {
        assert(n1 * n2 == 0) by (nonlinear_arith)
            requires
                n2 == 0,
        ;
    } else {
        assert forall|k1: int, k2: int| 0 <= k1 < k2 < joint.len() implies joint[k1].0
            != joint[k2].0 by {
            let i1 = k1 / n2;
            let j1 = k1 % n2;
            let i2 = k2 / n2;
            let j2 = k2 % n2;
            vstd::arithmetic::div_mod::lemma_fundamental_div_mod(k1, n2);
            vstd::arithmetic::div_mod::lemma_fundamental_div_mod(k2, n2);
            vstd::arithmetic::div_mod::lemma_mod_division_less_than_divisor(k1, n2);
            vstd::arithmetic::div_mod::lemma_mod_division_less_than_divisor(k2, n2);
            assert(0 <= i1 < n1) by (nonlinear_arith)
                requires
                    k1 == n2 * i1 + j1,
                    0 <= j1 < n2,
                    0 <= k1 < n1 * n2,
            ;
            assert(0 <= i2 < n1) by (nonlinear_arith)
                requires
                    k2 == n2 * i2 + j2,
                    0 <= j2 < n2,
                    0 <= k2 < n1 * n2,
            ;
            lemma_product_dist_at(s1, s2, i1, j1);
            lemma_product_dist_at(s1, s2, i2, j2);
            assert(i1 * n2 + j1 == k1 && i2 * n2 + j2 == k2);
            if i1 == i2 {
                assert(j1 != j2);
                assert(s2[j1].0 != s2[j2].0);
            } else {
                assert(s1[i1].0 != s1[i2].0);
            }
        }
    }
}

/// If two nonnegative products with the same positive factor agree, the
/// other factors agree: used to cancel the common denominator.
proof fn lemma_cancel_common(a: int, b: int, c: int)
    requires
        c >= 1,
        a * c == b * c,
    ensures
        a == b,
{
    assert(a == b) by (nonlinear_arith)
        requires c >= 1 && a * c == b * c;
}

/// A finite discrete probability distribution: distinct values, each
/// carrying a probability weight, with the weights summing to exactly one.
#[derive(Debug)]
pub struct Measure<T> {
    dist: Vec<(T, Probability)>,
}

impl<T> View for Measure<T> {
    type V = Seq<(T, Probability)>;

    closed spec fn view(&self) -> Seq<(T, Probability)> {
        self.dist@
    }
}

impl<T> Measure<T> {
    #[verifier::type_invariant]
    spec fn type_inv(self) -> bool {
        distinct_keys(self.dist@) && unit_mass(self.dist@) && valid_weights(self.dist@)
    }

    /// The underlying distribution: pairs of value and weight. The list
    /// is never empty, its values are distinct, and its weights sum to one.
    pub fn dist(&self) -> (r: &Vec<(T, Probability)>)
        ensures
            r@ == self@,
            distinct_keys(self@),
            unit_mass(self@),
            valid_weights(self@),
            self@.len() >= 1,
    {
        proof {
            use_type_invariant(self);
            if self.dist@.len() == 0 {
                assert(mass(self.dist@) == (0int, 1int));
            }
        }
        &self.dist
    }

    /// The distribution that puts weight one on a single value.
    pub fn deterministic(key: T) -> (r: Measure<T>)
        ensures
            r@ == det_dist(key),
            r@.len() == 1,
            r@[0].0 == key,
            r@[0].1@ == (1u64, 1u64),
    {
        proof {
            lemma_det_dist(key);
        }
        let one = Probability::one();
        let mut dist: Vec<(T, Probability)> = Vec::new();
        dist.push((key, one));
        proof {
            assert(dist@.drop_last() =~= Seq::<(T, Probability)>::empty());
            assert(mass(dist@.drop_last()) == (0int, 1int));
            assert(dist@.last() == (key, one));
            assert(mass(dist@) == (1int * 1int + 0int * 1int, 1int * 1int));
            assert(dist@ =~= det_dist(key));
        }
        Measure { dist }
    }
}

impl<T: Key> Measure<T> {
    /// Builds a measure from an arbitrary weighted distribution. Fails
    /// with `InvalidMeasure` when a value repeats, when the weights'
    /// common denominator is not representable in 64 bits, or when the
    /// weights do not sum to exactly one.
    pub fn from_distribution(dist: Vec<(T, Probability)>) -> (r: Result<Measure<T>, Error>)
        ensures
            r.is_ok() <==> (distinct_keys(dist@) && dens_lcm(dist@) <= u64::MAX && unit_mass(
                dist@,
            )),
            r.is_ok() ==> r.unwrap()@ == dist@,
            r.is_err() ==> r->Err_0 == Error::InvalidMeasure,
    {
        let ghost s = dist@;
        let n = dist.len();

        // Distinct values; this pass also records that every stored
        // weight is a valid fraction.
        let mut i: usize = 0;
        while i < n
            invariant
                n == dist.len(),
                s == dist@,
                0 <= i <= n,
                forall|j: int| 0 <= j < i ==> valid_frac((#[trigger] s[j]).1@),
                forall|a: int, b: int| 0 <= a < b < n && a < i ==> s[a].0 != s[b].0,
            decreases n - i,
        {
            let p = &dist[i].1;
            proof {
                use_type_invariant(p);
            }
            let mut j: usize = i + 1;
            while j < n
                invariant
                    n == dist.len(),
                    s == dist@,
                    0 <= i < j <= n,
                    forall|b: int| i < b < j ==> s[i as int].0 != s[b].0,
                decreases n - j,
            {
                if dist[i].0.key_eq(&dist[j].0) {
                    return Err(Error::InvalidMeasure);
                }
                j += 1;
            }
            i += 1;
        }
        assert(distinct_keys(s));
        assert(valid_weights(s));

        // The common denominator of all the weights.
        let mut cd: u64 = 1;
        let mut i: usize = 0;
        proof {
            assert(s.take(0) =~= Seq::<(T, Probability)>::empty());
        }
        while i < n
            invariant
                n == dist.len(),
                s == dist@,
                valid_weights(s),
                0 <= i <= n,
                1 <= cd,
                cd == dens_lcm(s.take(i as int)),
                forall|j: int| 0 <= j < i ==> divides((#[trigger] s[j]).1@.1 as int, cd as int),
            decreases n - i,
        {
            let d = dist[i].1.value().1;
            let g = gcd64(cd, d);
            proof {
                assert(valid_frac(s[i as int].1@));
                lemma_gcd_divides(cd as nat, d as nat);
            }
            let q = cd / g;
            let l = mul_u64_wide(q, d);
            proof {
                lemma_lcm_step(cd as nat, d as nat);
                assert(s.take(i + 1).drop_last() =~= s.take(i as int));
                assert(s.take(i + 1).last() == s[i as int]);
            }
            if l > u64::MAX as u128 {
                proof {
                    lemma_dens_lcm_prefix(s, i + 1);
                }
                return Err(Error::InvalidMeasure);
            }
            proof {
                let prev = cd as int;
                let next = l as int;
                assert forall|j: int| 0 <= j < i + 1 implies divides(
                    (#[trigger] s[j]).1@.1 as int,
                    next,
                ) by {
                    if j < i {
                        lemma_divides_trans(s[j].1@.1 as int, prev, next);
                    }
                }
            }
            cd = l as u64;
            i += 1;
        }
        proof {
            assert(s.take(n as int) =~= s);
        }

        // The weights, brought to the common denominator, must add up
        // to exactly that denominator.
        let mut total: u128 = 0;
        let mut i: usize = 0;
        while i < n
            invariant
                n == dist.len(),
                s == dist@,
                valid_weights(s),
                0 <= i <= n,
                1 <= cd,
                forall|j: int| 0 <= j < n ==> divides((#[trigger] s[j]).1@.1 as int, cd as int),
                total == weighted_total(s.take(i as int), cd as int),
                total <= (i as int) * (cd as int),
            decreases n - i,
        {
            let (num, den) = dist[i].1.value();
            let q = cd / den;
            let term = mul_u64_wide(num, q);
            proof {
                assert(valid_frac(s[i as int].1@));
                vstd::arithmetic::div_mod::lemma_fundamental_div_mod(cd as int, den as int);
                assert(den * q == cd);
                assert(term <= cd) by (nonlinear_arith)
                    requires
                        term == num * q,
                        num <= den,
                        q >= 0,
                        den * q == cd,
                ;
                assert(total + term <= (i + 1) * (cd as int)) by (nonlinear_arith)
                    requires
                        total <= (i as int) * (cd as int),
                        term <= cd,
                ;
                vstd::arithmetic::mul::lemma_mul_upper_bound(
                    (i + 1) as int,
                    u64::MAX as int,
                    cd as int,
                    u64::MAX as int,
                );
                assert(s.take(i + 1).drop_last() =~= s.take(i as int));
                assert(s.take(i + 1).last() == s[i as int]);
            }
            total = total + term;
            i += 1;
        }
        proof {
            assert(s.take(n as int) =~= s);
            lemma_weighted_total_mass(s, cd as int);
            lemma_mass_signs(s);
            lemma_dens_lcm_prefix(s, n as int);
        }
        if total == cd as u128 {
            proof {
                assert(mass(s).0 * (cd as int) == mass(s).1 * (cd as int)) by (nonlinear_arith)
                    requires
                        mass(s).0 * (cd as int) == mass(s).1 * weighted_total(s, cd as int),
                        weighted_total(s, cd as int) == cd as int,
                ;
                lemma_cancel_common(mass(s).0, mass(s).1, cd as int);
            }
            Ok(Measure { dist })
        } else {
            proof {
                if unit_mass(s) {
                    assert(weighted_total(s, cd as int) * mass(s).1 == (cd as int) * mass(s).1)
                        by (nonlinear_arith)
                        requires
                            mass(s).0 * (cd as int) == mass(s).1 * weighted_total(s, cd as int),
                            mass(s).0 == mass(s).1,
                    ;
                    lemma_cancel_common(weighted_total(s, cd as int), cd as int, mass(s).1);
                }
            }
            Err(Error::InvalidMeasure)
        }
    }

    /// The weight attached to a value, if the value carries any mass.
    pub fn get_prob(&self, key: &T) -> (r: Option<&Probability>)
        ensures
            r.is_some() <==> exists|i: int| 0 <= i < self@.len() && (#[trigger] self@[i]).0 == *key,
            r matches Some(p) ==> forall|i: int|
                0 <= i < self@.len() && (#[trigger] self@[i]).0 == *key ==> *p == self@[i].1,
    {
        proof {
            use_type_invariant(self);
        }
        let n = self.dist.len();
        let mut i: usize = 0;
        while i < n
            invariant
                n == self.dist.len(),
                0 <= i <= n,
                distinct_keys(self.dist@),
                forall|j: int| 0 <= j < i ==> (#[trigger] self.dist@[j]).0 != *key,
            decreases n - i,
        {
            if self.dist[i].0.key_eq(key) {
                proof {
                    assert(0 <= (i as int) < self@.len());
                    assert(self@[i as int].0 == *key);
                }
                return Some(&self.dist[i].1);
            }
            i += 1;
        }
        None
    }

    /// The independent joint distribution over pairs of values: the
    /// weight of `(t, u)` is the exact product of the two marginal
    /// weights. Fails only when some pairwise product of weights cannot
    /// be represented.
    pub fn product<U: Key>(&self, other: &Measure<U>) -> (r: Result<Measure<(T, U)>, Error>)
        ensures
            r.is_ok() <==> all_pairs_fit(self@, other@),
            r.is_ok() ==> r.unwrap()@ == product_dist(self@, other@),
            r.is_err() ==> r->Err_0 == Error::ProbabilityOutOfRange,
    {
        proof {
            use_type_invariant(self);
            use_type_invariant(other);
        }
        let ghost s1 = self.dist@;
        let ghost s2 = other.dist@;
        let n1 = self.dist.len();
        let n2 = other.dist.len();
        let mut out: Vec<((T, U), Probability)> = Vec::new();
        proof {
            assert(s1.take(0) =~= Seq::<(T, Probability)>::empty());
        }
        let mut i: usize = 0;
        while i < n1
            invariant
                n1 == self.dist.len(),
                n2 == other.dist.len(),
                s1 == self.dist@,
                s2 == other.dist@,
                0 <= i <= n1,
                out@ == product_dist(s1.take(i as int), s2),
                forall|a: int, b: int|
                    0 <= a < i && 0 <= b < n2 ==> mul_fits(
                        (#[trigger] s1[a]).1@,
                        (#[trigger] s2[b]).1@,
                    ),
            decreases n1 - i,
        {
            let mut j: usize = 0;
            proof {
                assert(scale_row(s1[i as int], s2).take(0) =~= Seq::<
                    ((T, U), Probability),
                >::empty());
                assert(out@ + scale_row(s1[i as int], s2).take(0) =~= out@);
            }
            let ghost row_start = out@;
            while j < n2
                invariant
                    n1 == self.dist.len(),
                    n2 == other.dist.len(),
                    s1 == self.dist@,
                    s2 == other.dist@,
                    0 <= i < n1,
                    0 <= j <= n2,
                    out@ == row_start + scale_row(s1[i as int], s2).take(j as int),
                    forall|b: int| 0 <= b < j ==> mul_fits(s1[i as int].1@, (#[trigger] s2[b]).1@),
                decreases n2 - j,
            {
                match self.dist[i].1.and(other.dist[j].1) {
                    Ok(p) => {
                        proof {
                            let pm = prob_mul(s1[i as int].1, s2[j as int].1);
                            assert(p@ == pm@);
                            assert(p == pm);
                            assert(scale_row(s1[i as int], s2).take(j + 1) =~= scale_row(
                                s1[i as int],
                                s2,
                            ).take(j as int).push(((s1[i as int].0, s2[j as int].0), pm)));
                        }
                        out.push(((self.dist[i].0, other.dist[j].0), p));
                    },
                    Err(e) => {
                        proof {
                            assert(!mul_fits(s1[i as int].1@, s2[j as int].1@));
                        }
                        return Err(e);
                    },
                }
                j += 1;
            }
            proof {
                assert(scale_row(s1[i as int], s2).take(n2 as int) =~= scale_row(
                    s1[i as int],
                    s2,
                ));
                assert(s1.take(i + 1).drop_last() =~= s1.take(i as int));
                assert(s1.take(i + 1).last() == s1[i as int]);
            }
            i += 1;
        }
        proof {
            assert(s1.take(n1 as int) =~= s1);
            lemma_product_mass(s1, s2);
            lemma_product_dist_distinct(s1, s2);
        }
        Ok(Measure { dist: out })
    }

    /// Draws a value at random, weighted by the distribution: scaled
    /// integer weights are accumulated and the first value whose
    /// cumulative weight exceeds a uniform draw is returned. A value is
    /// always returned, since a distribution is never empty.
    pub fn sample(&self) -> (r: Option<T>)
        ensures
            r.is_some(),
            exists|i: int| 0 <= i < self@.len() && r == Some((#[trigger] self@[i]).0),
            self@.len() == 1 ==> r == Some(self@[0].0),
    {
        proof {
            use_type_invariant(self);
            if self.dist@.len() == 0 {
                assert(mass(self.dist@) == (0int, 1int));
            }
        }
        let n = self.dist.len();
        let mut total: u128 = 0;
        let mut i: usize = 0;
        while i < n
            invariant
                n == self.dist.len(),
                0 <= i <= n,
                total == scaled_total(self.dist@, i as int),
                total <= (i as int) * 0x1_0000_0000,
            decreases n - i,
        {
            let w = scaled_weight(&self.dist[i].1);
            proof {
                assert(self.dist@.take(i + 1).drop_last() =~= self.dist@.take(i as int));
                assert(self.dist@.take(i + 1).last() == self.dist@[i as int]);
                assert(total + w <= (i + 1) * 0x1_0000_0000) by (nonlinear_arith)
                    requires
                        total <= (i as int) * 0x1_0000_0000,
                        w <= 0x1_0000_0000,
                ;
                vstd::arithmetic::mul::lemma_mul_upper_bound(
                    (i + 1) as int,
                    0x1_0000_0000_0000_0000,
                    0x1_0000_0000,
                    0x1_0000_0000,
                );
            }
            total = total + w;
            i += 1;
        }
        proof {
            assert(self.dist@.take(n as int) =~= self.dist@);
        }
        if total == 0 {
            proof {
                assert(self@[0int].0 == self.dist@[0int].0);
            }
            return Some(self.dist[0].0);
        }
        let target = (crate::random::random_word() as u128) % total;
        let k = self.pick(target);
        proof {
            assert(self@[k as int].0 == self.dist@[k as int].0);
        }
        Some(self.dist[k].0)
    }

    /// The index selected by the walk: the first value whose cumulative
    /// scaled weight exceeds the target, or the last value when the
    /// target lies beyond the whole cumulative weight.
    pub fn pick(&self, target: u128) -> (r: usize)
        ensures
            r < self@.len(),
            scaled_total(self@, r as int) <= target,
            target < scaled_total(self@, r as int + 1) || r == self@.len() - 1,
            self@.len() == 1 ==> r == 0,
    {
        proof {
            use_type_invariant(self);
            if self.dist@.len() == 0 {
                assert(mass(self.dist@) == (0int, 1int));
            }
        }
        let n = self.dist.len();
        let mut cum: u128 = 0;
        let mut i: usize = 0;
        while i < n - 1
            invariant
                n == self.dist.len(),
                n >= 1,
                0 <= i <= n - 1,
                cum == scaled_total(self.dist@, i as int),
                cum <= target,
                cum <= (i as int) * 0x1_0000_0000,
                valid_weights(self.dist@),
            decreases n - i,
        {
            let w = scaled_weight(&self.dist[i].1);
            proof {
                assert(self.dist@.take(i + 1).drop_last() =~= self.dist@.take(i as int));
                assert(self.dist@.take(i + 1).last() == self.dist@[i as int]);
                assert(cum + w <= (i + 1) * 0x1_0000_0000) by (nonlinear_arith)
                    requires
                        cum <= (i as int) * 0x1_0000_0000,
                        w <= 0x1_0000_0000,
                ;
                vstd::arithmetic::mul::lemma_mul_upper_bound(
                    (i + 1) as int,
                    0x1_0000_0000_0000_0000,
                    0x1_0000_0000,
                    0x1_0000_0000,
                );
            }
            let next = cum + w;
            if target < next {
                return i;
            }
            cum = next;
            i += 1;
        }
        i
    }
}

/// The distribution that puts the whole weight on one value.
pub closed spec fn det_dist<T>(v: T) -> Seq<(T, Probability)> {
    seq![(v, Probability { num: 1, den: 1 })]
}

/// The one-point distribution has a single entry of weight one.
pub proof fn lemma_det_dist<T>(v: T)
    ensures
        det_dist(v).len() == 1,
        det_dist(v)[0].0 == v,
        det_dist(v)[0].1@ == (1u64, 1u64),
        valid_weights(det_dist(v)),
        distinct_keys(det_dist(v)),
        unit_mass(det_dist(v)),
{
    let s = det_dist(v);
    assert(s.drop_last() =~= Seq::<(T, Probability)>::empty());
    assert(mass(s.drop_last()) == (0int, 1int));
    assert(s.last() == s[0] && s[0].1@ == (1u64, 1u64));
    assert(mass(s) == (1int * 1int + 0int * 1int, 1int * 1int));
}

/// Repackages a joint distribution over value pairs into one over the
/// joint states used by the composition operators; the weights are kept
/// as they are.
pub fn pairs_to_product_states<S1: Key, S2: Key>(m: Measure<(S1, S2)>) -> (r: Measure<
    crate::products::Product<S1, S2>,
>)
    ensures
        r@ == product_state_dist(m@),
{
    proof {
        use_type_invariant(&m);
    }
    let ghost src = m@;
    let Measure { dist } = m;
    let n = dist.len();
    let mut out: Vec<(crate::products::Product<S1, S2>, Probability)> = Vec::new();
    let mut i: usize = 0;
    while i < n
        invariant
            n == dist.len(),
            dist@ == src,
            0 <= i <= n,
            out@.len() == i,
            forall|k: int|
                0 <= k < i ==> (#[trigger] out@[k]) == (
                    crate::products::Product { fst: src[k].0.0, snd: src[k].0.1 },
                    src[k].1,
                ),
        decreases n - i,
    {
        let ((a, b), p) = dist[i];
        out.push((crate::products::Product { fst: a, snd: b }, p));
        i += 1;
    }
    proof {
        assert(out@ =~= product_state_dist(src));
        let t = product_state_dist(src);
        assert(forall|k: int| 0 <= k < t.len() ==> (#[trigger] t[k]).1 == src[k].1);
        lemma_mass_same_weights(src, t);
        assert forall|k1: int, k2: int| 0 <= k1 < k2 < t.len() implies t[k1].0 != t[k2].0 by {
            assert(src[k1].0 != src[k2].0);
        }
    }
    Measure { dist: out }
}

/// The entries of a pair distribution, with each pair repackaged as a
/// joint state.
pub open spec fn product_state_dist<S1, S2>(s: Seq<((S1, S2), Probability)>) -> Seq<
    (crate::products::Product<S1, S2>, Probability),
> {
    Seq::new(
        s.len(),
        |k: int| (crate::products::Product { fst: s[k].0.0, snd: s[k].0.1 }, s[k].1),
    )
}

/// Two distributions with the same weights in the same order have the
/// same mass, whatever their values.
proof fn lemma_mass_same_weights<A, B>(x: Seq<(A, Probability)>, y: Seq<(B, Probability)>)
    requires
        x.len() == y.len(),
        forall|k: int| 0 <= k < x.len() ==> (#[trigger] y[k]).1 == x[k].1,
    ensures
        mass(y) == mass(x),
    decreases x.len(),
{
    if x.len() > 0 {
        assert(forall|k: int|
            0 <= k < x.len() - 1 ==> (#[trigger] y.drop_last()[k]).1 == x.drop_last()[k].1);
        lemma_mass_same_weights(x.drop_last(), y.drop_last());
        assert(y.last().1 == x.last().1) by {
            assert(y[y.len() - 1].1 == x[x.len() - 1].1);
        }
    }
}

/// The weight scaled to 32 fractional bits, rounded down.
fn scaled_weight(p: &Probability) -> (w: u128)
    ensures
        w == p@.0 * 0x1_0000_0000 / (p@.1 as int),
        w <= 0x1_0000_0000,
{
    let (num, den) = p.value();
    let wide = mul_u64_wide(num, 0x1_0000_0000u64);
    proof {
        vstd::arithmetic::mul::lemma_mul_inequality(num as int, den as int, 0x1_0000_0000);
        vstd::arithmetic::mul::lemma_mul_is_commutative(den as int, 0x1_0000_0000);
        vstd::arithmetic::div_mod::lemma_div_is_ordered(
            num as int * 0x1_0000_0000,
            den as int * 0x1_0000_0000,
            den as int,
        );
        vstd::arithmetic::div_mod::lemma_div_by_multiple(0x1_0000_0000, den as int);
    }
    wide / (den as u128)
}

/// The sum of the first `k` scaled weights.
pub open spec fn scaled_total<T>(s: Seq<(T, Probability)>, k: int) -> int
    decreases k,
{
    if k <= 0 {
        0int
    } else {
        scaled_total(s, k - 1) + s.take(k).last().1@.0 * 0x1_0000_0000 / (s.take(k).last().1@.1
            as int)
    }
}

/// Prefix sums of scaled weights never exceed the whole sum.
proof fn lemma_scaled_total_bound<T>(s: Seq<(T, Probability)>, k: int, n: int)
    requires
        0 <= k <= n <= s.len(),
        valid_weights(s),
    ensures
        scaled_total(s, k) <= scaled_total(s, n),
    decreases n - k,
{
    if k < n {
        let w = s.take(k + 1).last().1@;
        assert(s.take(k + 1).last() == s[k]);
        assert(valid_frac(w));
        vstd::arithmetic::div_mod::lemma_div_pos_is_pos(w.0 * 0x1_0000_0000, w.1 as int);
        vstd::arithmetic::mul::lemma_mul_nonnegative(w.0 as int, 0x1_0000_0000);
        lemma_scaled_total_bound(s, k + 1, n);
    }
}

} // verus!
