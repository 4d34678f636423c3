//! Greatest common divisor and least common multiple, with the facts about
//! them that normalisation of fractions rests on.

use vstd::prelude::*;
use vstd::arithmetic::div_mod::{
    lemma_fundamental_div_mod,
    lemma_fundamental_div_mod_converse,
    lemma_mod_multiples_basic,
};

verus! {

/// Greatest common divisor of two naturals, by Euclid's algorithm.
pub open spec fn spec_gcd(a: nat, b: nat) -> nat
    decreases b,
{
    if b == 0 {
        a
    } else {
        spec_gcd(b, a % b)
    }
}

/// The gcd of two naturals that are not both zero is positive and divides both.
pub proof fn lemma_gcd_divides(a: nat, b: nat)
    requires
        a > 0 || b > 0,
    ensures
        spec_gcd(a, b) > 0,
        a % spec_gcd(a, b) == 0,
        b % spec_gcd(a, b) == 0,
    decreases b,
{
    if b == 0 {
        lemma_mod_multiples_basic(1, a as int);
        lemma_mod_multiples_basic(0, a as int);
    } else {
        let r = a % b;
        lemma_gcd_divides(b, r);
        let g = spec_gcd(a, b);
        assert(g == spec_gcd(b, r));
        lemma_fundamental_div_mod(b as int, g as int);
        lemma_fundamental_div_mod(r as int, g as int);
        lemma_fundamental_div_mod(a as int, b as int);
        let qb = b as int / g as int;
        let qr = r as int / g as int;
        let q = a as int / b as int;
        assert(a as int == (q * qb + qr) * g) by (nonlinear_arith)
            requires
                b as int == g * qb,
                r as int == g * qr,
                a as int == b * q + r,
        ;
        lemma_mod_multiples_basic(q * qb + qr, g as int);
    }
}

/// Scaling both arguments by a positive factor scales the gcd by it.
pub proof fn lemma_gcd_scale(a: nat, b: nat, k: nat)
    requires
        k > 0,
    ensures
        spec_gcd(a * k, b * k) == spec_gcd(a, b) * k,
    decreases b,
{
    if b == 0 {
        assert(b * k == 0);
    } else {
        let r = a % b;
        let q = a / b;
        lemma_fundamental_div_mod(a as int, b as int);
        assert(0 <= r < b);
        assert(a * k == q * (b * k) + r * k && 0 <= r * k < b * k) by (nonlinear_arith)
            requires
                a == b * q + r,
                0 <= r < b,
                k > 0,
        ;
        assert(b * k > 0) by (nonlinear_arith)
            requires
                b > 0,
                k > 0,
        ;
        lemma_fundamental_div_mod_converse((a * k) as int, (b * k) as int, q as int, (r * k) as int);
        assert((a * k) % (b * k) == r * k);
        lemma_gcd_scale(b, r, k);
    }
}

/// The gcd does not depend on the order of its arguments.
pub proof fn lemma_gcd_commutes(a: nat, b: nat)
    ensures
        spec_gcd(a, b) == spec_gcd(b, a),
{
    if a == 0 || b == 0 {
        if b > 0 {
            assert(spec_gcd(0, b) == spec_gcd(b, 0nat % b));
        }
        if a > 0 {
            assert(spec_gcd(0, a) == spec_gcd(a, 0nat % a));
        }
    } else if a < b {
        lemma_fundamental_div_mod_converse(a as int, b as int, 0, a as int);
        assert(spec_gcd(a, b) == spec_gcd(b, a % b));
    } else if b < a {
        lemma_fundamental_div_mod_converse(b as int, a as int, 0, b as int);
        assert(spec_gcd(b, a) == spec_gcd(a, b % a));
    }
}

/// How the least common multiple of two positive naturals splits into the
/// cofactors that remain after dividing each by their gcd.
pub proof fn lemma_lcm_cofactors(x: nat, y: nat)
    requires
        x > 0,
        y > 0,
    ensures
        ({
            let g = spec_gcd(x, y);
            let p = x / g;
            let q = y / g;
            &&& g > 0
            &&& p * g == x
            &&& q * g == y
            &&& (x * y) / g == p * q * g
            &&& ((x * y) / g) / x == q
            &&& ((x * y) / g) / y == p
        }),
{
    let g = spec_gcd(x, y);
    lemma_gcd_divides(x, y);
    lemma_fundamental_div_mod(x as int, g as int);
    lemma_fundamental_div_mod(y as int, g as int);
    let p = x / g;
    let q = y / g;
    assert(x * y == (p * q * g) * g + 0) by (nonlinear_arith)
        requires
            x == g * p,
            y == g * q,
    ;
    lemma_fundamental_div_mod_converse((x * y) as int, g as int, (p * q * g) as int, 0);
    assert(p * q * g == q * x + 0 && p * q * g == p * y + 0) by (nonlinear_arith)
        requires
            x == g * p,
            y == g * q,
    ;
    lemma_fundamental_div_mod_converse((p * q * g) as int, x as int, q as int, 0);
    lemma_fundamental_div_mod_converse((p * q * g) as int, y as int, p as int, 0);
}

/// Greatest common divisor by Euclid's algorithm.
pub fn gcd(x: u128, y: u128) -> (r: u128)
    ensures
        r == spec_gcd(x as nat, y as nat),
{
    let mut a: u128 = x;
    let mut b: u128 = y;
    while b != 0
        invariant
            spec_gcd(a as nat, b as nat) == spec_gcd(x as nat, y as nat),
        decreases b,
    {
        let t: u128 = a % b;
        a = b;
        b = t;
    }
    a
}

/// Least common multiple of two positive numbers, as their product divided by
/// their gcd.
pub fn lcm(x: u128, y: u128) -> (r: u128)
    requires
        x > 0,
        y > 0,
        x * y <= u128::MAX,
    ensures
        r == (x * y) / (spec_gcd(x as nat, y as nat) as int),
{
    proof {
        lemma_gcd_divides(x as nat, y as nat);
    }
    (x * y) / gcd(x, y)
}

} // verus!
