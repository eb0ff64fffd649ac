use vstd::prelude::*;

use vstd::arithmetic::div_mod::{
    lemma_add_mod_noop, lemma_fundamental_div_mod, lemma_mod_multiples_basic, lemma_mod_self_0,
    lemma_small_mod,
};
use vstd::arithmetic::mul::{
    lemma_mul_is_associative, lemma_mul_is_commutative, lemma_mul_strictly_positive,
};

verus! {

/// Whether `d` evenly divides `x`.
pub open spec fn divides(d: int, x: int) -> bool
    recommends
        d >= 1,
{
    x % d == 0
}

/// The greatest common divisor, by Euclid's rule.
pub open spec fn gcd(a: nat, b: nat) -> nat
    decreases b,
{
    if b == 0 {
        a
    } else {
        gcd(b, a % b)
    }
}

/// The greatest common divisor of a positive number and any second number
/// is positive and divides both.
pub proof fn lemma_gcd_divides(a: nat, b: nat)
    requires
        a >= 1,
    ensures
        gcd(a, b) >= 1,
        divides(gcd(a, b) as int, a as int),
        divides(gcd(a, b) as int, b as int),
    decreases b,
{
    if b == 0 {
        lemma_mod_self_0(a as int);
        lemma_small_mod(0, a);
    } else {
        lemma_gcd_divides(b, a % b);
        let g = gcd(b, a % b) as int;
        let ai = a as int;
        let bi = b as int;
        lemma_fundamental_div_mod(ai, bi);
        // a == b * (a / b) + a % b
        lemma_fundamental_div_mod(bi, g);
        // b == g * (b / g) since b % g == 0
        assert(bi == g * (bi / g));
        assert(bi * (ai / bi) == g * ((bi / g) * (ai / bi))) by {
            lemma_mul_is_associative(g, bi / g, ai / bi);
        }
        lemma_mod_multiples_basic((bi / g) * (ai / bi), g);
        assert((g * ((bi / g) * (ai / bi))) % g == 0) by {
            lemma_mul_is_commutative(g, (bi / g) * (ai / bi));
        }
        lemma_add_mod_noop(bi * (ai / bi), ai % bi, g);
        lemma_small_mod(0, g as nat);
    }
}

/// Divisibility is transitive.
pub proof fn lemma_divides_trans(a: int, b: int, c: int)
    requires
        a >= 1,
        b >= 1,
        divides(a, b),
        divides(b, c),
    ensures
        divides(a, c),
{
    lemma_fundamental_div_mod(b, a);
    // b == a * (b / a)
    lemma_fundamental_div_mod(c, b);
    // c == b * (c / b)
    assert(c == a * ((b / a) * (c / b))) by {
        lemma_mul_is_associative(a, b / a, c / b);
    }
    lemma_mod_multiples_basic((b / a) * (c / b), a);
    assert((a * ((b / a) * (c / b))) % a == 0) by {
        lemma_mul_is_commutative(a, (b / a) * (c / b));
    }
}

/// One step of a least-common-multiple fold: `(acc / gcd(acc, d)) * d`
/// is a positive common multiple of `acc` and `d`, at least as large
/// as `acc`.
pub proof fn lemma_lcm_step(acc: nat, d: nat)
    requires
        acc >= 1,
        d >= 1,
    ensures
        ({
            let g = gcd(acc, d) as int;
            let l = (acc as int / g) * d as int;
            &&& l >= acc
            &&& l >= 1
            &&& divides(acc as int, l)
            &&& divides(d as int, l)
        }),
{
    lemma_gcd_divides(acc, d);
    let g = gcd(acc, d) as int;
    let a = acc as int;
    let di = d as int;
    let l = (a / g) * di;
    lemma_fundamental_div_mod(a, g);
    // acc == g * (acc / g)
    lemma_fundamental_div_mod(di, g);
    // d == g * (d / g)
    assert(a / g >= 1) by {
        if a / g <= 0 {
            assert(g * (a / g) <= 0) by (nonlinear_arith)
                requires g >= 1 && a / g <= 0;
        }
    }
    assert(di / g >= 1) by {
        if di / g <= 0 {
            assert(g * (di / g) <= 0) by (nonlinear_arith)
                requires g >= 1 && di / g <= 0;
        }
    }
    assert(l >= 1) by {
        lemma_mul_strictly_positive(a / g, di);
    }
    assert(l >= a) by (nonlinear_arith)
        requires
            a == g * (a / g),
            di / g >= 1,
            di == g * (di / g),
            a / g >= 1,
            g >= 1,
            l == (a / g) * di,
    ;
    assert(divides(di, l)) by {
        lemma_mod_multiples_basic(a / g, di);
    }
    // l == (acc / g) * d == acc * (d / g), so acc divides l.
    assert(l == a * (di / g)) by (nonlinear_arith)
        requires
            a == g * (a / g),
            di == g * (di / g),
            g >= 1,
            l == (a / g) * di,
    ;
    assert(divides(a, l)) by {
        lemma_mod_multiples_basic(di / g, a);
        lemma_mul_is_commutative(a, di / g);
    }
}

/// A divisor of one factor divides the product.
pub proof fn lemma_divides_mul(x: int, a: int, b: int)
    requires
        x >= 1,
        divides(x, a),
    ensures
        divides(x, b * a),
{
    lemma_fundamental_div_mod(a, x);
    // a == x * (a / x)
    assert(b * a == ((a / x) * b) * x) by (nonlinear_arith)
        requires
            a == x * (a / x),
    ;
    lemma_mod_multiples_basic((a / x) * b, x);
}

/// Divisibility is preserved by taking products componentwise, and the
/// quotient of the products is the product of the quotients.
pub proof fn lemma_divides_product_pair(d1: int, d2: int, p1: int, p2: int)
    requires
        d1 >= 1,
        d2 >= 1,
        p1 >= 0,
        p2 >= 0,
        divides(d1, p1),
        divides(d2, p2),
    ensures
        d1 * d2 >= 1,
        divides(d1 * d2, p1 * p2),
        (p1 * p2) / (d1 * d2) == (p1 / d1) * (p2 / d2),
{
    let q1 = p1 / d1;
    let q2 = p2 / d2;
    lemma_fundamental_div_mod(p1, d1);
    lemma_fundamental_div_mod(p2, d2);
    lemma_mul_strictly_positive(d1, d2);
    assert(q1 >= 0 && q2 >= 0) by {
        vstd::arithmetic::div_mod::lemma_div_pos_is_pos(p1, d1);
        vstd::arithmetic::div_mod::lemma_div_pos_is_pos(p2, d2);
    }
    assert(p1 * p2 == (q1 * q2) * (d1 * d2)) by (nonlinear_arith)
        requires
            p1 == d1 * q1,
            p2 == d2 * q2,
    ;
    lemma_mod_multiples_basic(q1 * q2, d1 * d2);
    vstd::arithmetic::div_mod::lemma_div_by_multiple(q1 * q2, d1 * d2);
}

/// Euclid's algorithm on machine words.
pub(crate) fn gcd64(a: u64, b: u64) -> (g: u64)
    ensures
        g == gcd(a as nat, b as nat),
{
    let mut x = a;
    let mut y = b;
    while y != 0
        invariant
            gcd(x as nat, y as nat) == gcd(a as nat, b as nat),
        decreases y,
    {
        let r = x % y;
        x = y;
        y = r;
    }
    x
}

} // verus!
