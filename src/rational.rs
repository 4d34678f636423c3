//! The rational number type, its normal form and its arithmetic.

use vstd::prelude::*;
use vstd::arithmetic::div_mod::{lemma_fundamental_div_mod, lemma_fundamental_div_mod_converse};
use crate::decimal::{int_digits, push_int};
use crate::arith::{gcd, lcm, lemma_gcd_commutes, lemma_gcd_divides, lemma_gcd_scale, lemma_lcm_cofactors, spec_gcd};

verus! {

/// Absolute value of an integer, as a natural.
pub open spec fn abs(x: int) -> nat {
    if x < 0 {
        (-x) as nat
    } else {
        x as nat
    }
}

/// Numerator of `n / d` in lowest terms, carrying the sign of the fraction.
pub open spec fn reduced_numerator(n: int, d: int) -> int {
    let m = abs(n) / spec_gcd(abs(n), abs(d));
    if (n < 0) != (d < 0) {
        -m
    } else {
        m as int
    }
}

/// Denominator of `n / d` in lowest terms: always positive when `d` is not zero.
pub open spec fn reduced_denominator(n: int, d: int) -> int {
    (abs(d) / spec_gcd(abs(n), abs(d))) as int
}

/// Text of the fraction `n / d`: the numerator alone when the denominator is
/// one, else numerator, `/`, denominator.
pub open spec fn rendered(n: int, d: int) -> Seq<char> {
    if d == 1 {
        int_digits(n)
    } else {
        int_digits(n) + seq!['/'] + int_digits(d)
    }
}

/// Whether both parts of `n / d` in lowest terms fit in an `i64`.
pub open spec fn fits_i64(n: int, d: int) -> bool {
    &&& i64::MIN <= reduced_numerator(n, d) <= i64::MAX
    &&& reduced_denominator(n, d) <= i64::MAX
}

/// The only way building a fraction can fail.
#[derive(Debug, Clone, Copy, PartialEq, Eq, Structural)]
pub enum RationalError {
    /// A zero denominator was asked for.
    InvalidDenominator,
}

/// A fraction in lowest terms. Values made by this library always have a
/// positive denominator and coprime parts, so two of them are equal exactly
/// when they stand for the same number.
#[derive(Debug, Clone, Copy, PartialEq, Eq, Structural)]
pub struct Rational {
    pub numerator: i64,
    pub denominator: i64,
}

/// Reducing `n / d` gives a positive denominator and coprime parts, and keeps
/// the magnitude of the numerator as `|n|` divided by the gcd.
pub proof fn lemma_reduced_form(n: int, d: int)
    requires
        d != 0,
    ensures
        reduced_denominator(n, d) > 0,
        spec_gcd(abs(reduced_numerator(n, d)), reduced_denominator(n, d) as nat) == 1,
        abs(reduced_numerator(n, d)) == abs(n) / spec_gcd(abs(n), abs(d)),
{
    let g = spec_gcd(abs(n), abs(d));
    lemma_gcd_divides(abs(n), abs(d));
    lemma_fundamental_div_mod(abs(n) as int, g as int);
    lemma_fundamental_div_mod(abs(d) as int, g as int);
    let p = abs(n) / g;
    let q = abs(d) / g;
    assert(p * g == abs(n) && q * g == abs(d)) by (nonlinear_arith)
        requires
            abs(n) == g * p,
            abs(d) == g * q,
    ;
    lemma_gcd_scale(p, q, g);
    assert(spec_gcd(p, q) == 1) by (nonlinear_arith)
        requires
            spec_gcd(p, q) * g == g,
            g > 0,
    ;
    assert(q > 0) by (nonlinear_arith)
        requires
            q * g == abs(d),
            abs(d) > 0,
    ;
}

/// Neither part of `n / d` in lowest terms leaves `i64` when neither `n` nor
/// `d` is `i64::MIN`.
pub proof fn lemma_fits_i64(n: int, d: int)
    requires
        i64::MIN < n <= i64::MAX,
        i64::MIN < d <= i64::MAX,
        d != 0,
    ensures
        fits_i64(n, d),
{
    let g = spec_gcd(abs(n), abs(d));
    lemma_gcd_divides(abs(n), abs(d));
    lemma_reduced_form(n, d);
    assert(abs(n) / g <= abs(n) && abs(d) / g <= abs(d)) by (nonlinear_arith)
        requires
            g > 0,
    ;
}

/// Scaling numerator and denominator by the same nonzero factor does not
/// change the reduced form: `new(a * k, b * k)` equals `new(a, b)`.
pub proof fn lemma_reduced_scaled(n: int, d: int, k: int)
    requires
        d != 0,
        k != 0,
    ensures
        reduced_numerator(n * k, d * k) == reduced_numerator(n, d),
        reduced_denominator(n * k, d * k) == reduced_denominator(n, d),
{
    let ak = abs(k);
    assert(abs(n * k) == abs(n) * ak && abs(d * k) == abs(d) * ak) by (nonlinear_arith)
        requires
            ak == abs(k),
    ;
    let g = spec_gcd(abs(n), abs(d));
    lemma_gcd_divides(abs(n), abs(d));
    lemma_gcd_scale(abs(n), abs(d), ak);
    lemma_fundamental_div_mod(abs(n) as int, g as int);
    lemma_fundamental_div_mod(abs(d) as int, g as int);
    let p = abs(n) / g;
    let q = abs(d) / g;
    assert(abs(n) * ak == p * (g * ak) + 0 && abs(d) * ak == q * (g * ak) + 0 && g * ak > 0)
        by (nonlinear_arith)
        requires
            abs(n) == g * p,
            abs(d) == g * q,
            g > 0,
            ak > 0,
    ;
    lemma_fundamental_div_mod_converse((abs(n) * ak) as int, (g * ak) as int, p as int, 0);
    lemma_fundamental_div_mod_converse((abs(d) * ak) as int, (g * ak) as int, q as int, 0);
    if n == 0 {
        assert(n * k == 0);
    } else {
        assert(((n * k < 0) != (d * k < 0)) == ((n < 0) != (d < 0))) by (nonlinear_arith)
            requires
                n != 0,
                d != 0,
                k != 0,
        ;
    }
}

/// Rescaling both numerators to the least common multiple of the
/// denominators gives the same reduced sum and difference as cross
/// multiplication, with cofactors no larger than the other denominator.
proof fn lemma_common_denominator(n1: int, d1: int, n2: int, d2: int)
    requires
        d1 > 0,
        d2 > 0,
    ensures
        ({
            let g = spec_gcd(d1 as nat, d2 as nat);
            let l = (d1 * d2) / (g as int);
            let m1 = l / d1;
            let m2 = l / d2;
            &&& 0 < l <= d1 * d2
            &&& 0 < m1 <= d2
            &&& 0 < m2 <= d1
            &&& reduced_numerator(n1 * m1 + n2 * m2, l) == reduced_numerator(n1 * d2 + n2 * d1, d1 * d2)
            &&& reduced_denominator(n1 * m1 + n2 * m2, l) == reduced_denominator(n1 * d2 + n2 * d1, d1 * d2)
            &&& reduced_numerator(n1 * m1 - n2 * m2, l) == reduced_numerator(n1 * d2 - n2 * d1, d1 * d2)
            &&& reduced_denominator(n1 * m1 - n2 * m2, l) == reduced_denominator(n1 * d2 - n2 * d1, d1 * d2)
        }),
{
    let g = spec_gcd(d1 as nat, d2 as nat);
    lemma_lcm_cofactors(d1 as nat, d2 as nat);
    let p = d1 / (g as int);
    let q = d2 / (g as int);
    let l = p * q * g;
    assert(0 < q <= d2 && 0 < p <= d1 && 0 < l <= d1 * d2) by (nonlinear_arith)
        requires
            p * g == d1,
            q * g == d2,
            g > 0,
            d1 > 0,
            d2 > 0,
            l == p * q * g,
    ;
    assert((n1 * q + n2 * p) * g == n1 * d2 + n2 * d1 && (n1 * q - n2 * p) * g == n1 * d2 - n2 * d1
        && l * g == d1 * d2) by (nonlinear_arith)
        requires
            p * g == d1,
            q * g == d2,
            l == p * q * g,
    ;
    lemma_reduced_scaled(n1 * q + n2 * p, l, g as int);
    lemma_reduced_scaled(n1 * q - n2 * p, l, g as int);
}

/// The product of two `i64` values stays well inside `i128`, away from its
/// minimum, and is nonzero when both factors are.
proof fn lemma_product_bounds(x: int, y: int)
    requires
        i64::MIN <= x <= i64::MAX,
        i64::MIN <= y <= i64::MAX,
    ensures
        i128::MIN < x * y <= i128::MAX,
        x != 0 && y != 0 ==> x * y != 0,
{
    assert(-0x4000_0000_0000_0000_0000_0000_0000_0000 <= x * y <= 0x4000_0000_0000_0000_0000_0000_0000_0000)
        by (nonlinear_arith)
        requires
            -0x8000_0000_0000_0000 <= x <= 0x7fff_ffff_ffff_ffff,
            -0x8000_0000_0000_0000 <= y <= 0x7fff_ffff_ffff_ffff,
    ;
    if x != 0 && y != 0 {
        assert(x * y != 0) by (nonlinear_arith)
            requires
                x != 0,
                y != 0,
        ;
    }
}

/// Taking the reciprocal twice gives back the value: for a reduced `r` with a
/// nonzero numerator, reducing `r.denominator / r.numerator` and then swapping
/// and reducing again yields `r.numerator / r.denominator` unchanged.
pub proof fn lemma_reciprocal_involution(r: Rational)
    requires
        r.is_reduced(),
        r.numerator != 0,
    ensures
        ({
            let n1 = reduced_numerator(r.denominator as int, r.numerator as int);
            let d1 = reduced_denominator(r.denominator as int, r.numerator as int);
            &&& reduced_numerator(d1, n1) == r.numerator
            &&& reduced_denominator(d1, n1) == r.denominator
        }),
{
    let n = r.numerator as int;
    let d = r.denominator as int;
    lemma_gcd_commutes(abs(n), abs(d));
    lemma_fundamental_div_mod_converse(abs(n) as int, 1, abs(n) as int, 0);
    lemma_fundamental_div_mod_converse(d, 1, d, 0);
    let n1 = reduced_numerator(d, n);
    let d1 = reduced_denominator(d, n);
    assert(d1 == abs(n) && abs(n1) == d);
    lemma_gcd_commutes(abs(n1), abs(d1));
}

/// Addition commutes: `a + b` and `b + a` reduce the same fraction.
pub proof fn lemma_add_commutes(a: Rational, b: Rational)
    requires
        a.is_reduced(),
        b.is_reduced(),
    ensures
        reduced_numerator(
            a.numerator * b.denominator + b.numerator * a.denominator,
            a.denominator * b.denominator,
        ) == reduced_numerator(
            b.numerator * a.denominator + a.numerator * b.denominator,
            b.denominator * a.denominator,
        ),
        reduced_denominator(
            a.numerator * b.denominator + b.numerator * a.denominator,
            a.denominator * b.denominator,
        ) == reduced_denominator(
            b.numerator * a.denominator + a.numerator * b.denominator,
            b.denominator * a.denominator,
        ),
{
    assert(a.denominator * b.denominator == b.denominator * a.denominator) by (nonlinear_arith);
}

/// Multiplication commutes: `a * b` and `b * a` reduce the same fraction.
pub proof fn lemma_mul_commutes(a: Rational, b: Rational)
    requires
        a.is_reduced(),
        b.is_reduced(),
    ensures
        reduced_numerator(a.numerator * b.numerator, a.denominator * b.denominator)
            == reduced_numerator(b.numerator * a.numerator, b.denominator * a.denominator),
        reduced_denominator(a.numerator * b.numerator, a.denominator * b.denominator)
            == reduced_denominator(b.numerator * a.numerator, b.denominator * a.denominator),
{
    assert(a.numerator * b.numerator == b.numerator * a.numerator) by (nonlinear_arith);
    assert(a.denominator * b.denominator == b.denominator * a.denominator) by (nonlinear_arith);
}

/// Builds the reduced form of `n / d`, with the sign on the numerator.
fn reduce(n: i128, d: i128) -> (r: Rational)
    requires
        d != 0,
        n > i128::MIN,
        d > i128::MIN,
        fits_i64(n as int, d as int),
    ensures
        r.numerator == reduced_numerator(n as int, d as int),
        r.denominator == reduced_denominator(n as int, d as int),
{
    let an: u128 = if n < 0 { (-n) as u128 } else { n as u128 };
    let ad: u128 = if d < 0 { (-d) as u128 } else { d as u128 };
    assert(an == abs(n as int) && ad == abs(d as int));
    let g = gcd(an, ad);
    proof {
        lemma_gcd_divides(an as nat, ad as nat);
        lemma_reduced_form(n as int, d as int);
    }
    let qn: u128 = an / g;
    let qd: u128 = ad / g;
    let num: i64 = if (n < 0) != (d < 0) {
        (-(qn as i128)) as i64
    } else {
        qn as i64
    };
    Rational { numerator: num, denominator: qd as i64 }
}

impl Rational {
    /// Whether this value is in the normal form that every value built by the
    /// library has: positive denominator, coprime parts.
    pub open spec fn is_reduced(self) -> bool {
        &&& self.denominator > 0
        &&& spec_gcd(abs(self.numerator as int), self.denominator as nat) == 1
    }

    /// Whether this value is `n / d` in lowest terms.
    pub open spec fn is_reduction_of(self, n: int, d: int) -> bool {
        &&& self.numerator == reduced_numerator(n, d)
        &&& self.denominator == reduced_denominator(n, d)
    }

    /// The fraction `numerator / denominator` in lowest terms, with the sign
    /// carried by the numerator; a zero denominator is refused.
    pub fn new(numerator: i64, denominator: i64) -> (r: Result<Rational, RationalError>)
        requires
            denominator != 0 ==> fits_i64(numerator as int, denominator as int),
        ensures
            match r {
                Ok(q) => {
                    &&& denominator != 0
                    &&& q.is_reduction_of(numerator as int, denominator as int)
                    &&& q.is_reduced()
                },
                Err(e) => denominator == 0 && e == RationalError::InvalidDenominator,
            },
    {
        if denominator == 0 {
            return Err(RationalError::InvalidDenominator);
        }
        proof {
            lemma_reduced_form(numerator as int, denominator as int);
        }
        Ok(reduce(numerator as i128, denominator as i128))
    }

    /// The reciprocal `denominator / numerator`, reduced; a zero value has
    /// none.
    pub fn reciprocal(&self) -> (r: Result<Rational, RationalError>)
        requires
            self.is_reduced(),
            self.numerator != i64::MIN,
        ensures
            match r {
                Ok(q) => {
                    &&& self.numerator != 0
                    &&& q.is_reduction_of(self.denominator as int, self.numerator as int)
                    &&& q.is_reduced()
                },
                Err(e) => self.numerator == 0 && e == RationalError::InvalidDenominator,
            },
    {
        proof {
            let n = self.numerator as int;
            let d = self.denominator as int;
            if n != 0 {
                lemma_gcd_commutes(abs(n), abs(d));
                lemma_fundamental_div_mod_converse(abs(n) as int, 1, abs(n) as int, 0);
                lemma_fundamental_div_mod_converse(d, 1, d, 0);
            }
        }
        Rational::new(self.denominator, self.numerator)
    }

    /// The sum, over the least common multiple of the two denominators.
    pub fn add(self, other: Rational) -> (r: Rational)
        requires
            self.is_reduced(),
            other.is_reduced(),
            fits_i64(
                self.numerator * other.denominator + other.numerator * self.denominator,
                self.denominator * other.denominator,
            ),
        ensures
            r.is_reduction_of(
                self.numerator * other.denominator + other.numerator * self.denominator,
                self.denominator * other.denominator,
            ),
            r.is_reduced(),
    {
        let d1 = self.denominator as u128;
        let d2 = other.denominator as u128;
        proof {
            lemma_common_denominator(self.numerator as int, d1 as int, other.numerator as int, d2 as int);
            assert(d1 * d2 <= 0x4000_0000_0000_0000_0000_0000_0000_0000) by (nonlinear_arith)
                requires
                    0 < d1 <= i64::MAX,
                    0 < d2 <= i64::MAX,
            ;
        }
        let l = lcm(d1, d2);
        let m1 = l / d1;
        let m2 = l / d2;
        proof {
            let n1 = self.numerator as int;
            let n2 = other.numerator as int;
            assert(-0x4000_0000_0000_0000_0000_0000_0000_0000 < n1 * m1 < 0x4000_0000_0000_0000_0000_0000_0000_0000
                && -0x4000_0000_0000_0000_0000_0000_0000_0000 < n2 * m2 < 0x4000_0000_0000_0000_0000_0000_0000_0000)
                by (nonlinear_arith)
                requires
                    i64::MIN <= n1 <= i64::MAX,
                    i64::MIN <= n2 <= i64::MAX,
                    0 < m1 <= i64::MAX,
                    0 < m2 <= i64::MAX,
            ;
            lemma_reduced_form(n1 * m1 + n2 * m2, l as int);
        }
        let a: i128 = self.numerator as i128 * m1 as i128;
        let b: i128 = other.numerator as i128 * m2 as i128;
        reduce(a + b, l as i128)
    }

    /// The difference, over the least common multiple of the two denominators.
    pub fn sub(self, other: Rational) -> (r: Rational)
        requires
            self.is_reduced(),
            other.is_reduced(),
            fits_i64(
                self.numerator * other.denominator - other.numerator * self.denominator,
                self.denominator * other.denominator,
            ),
        ensures
            r.is_reduction_of(
                self.numerator * other.denominator - other.numerator * self.denominator,
                self.denominator * other.denominator,
            ),
            r.is_reduced(),
    {
        let d1 = self.denominator as u128;
        let d2 = other.denominator as u128;
        proof {
            lemma_common_denominator(self.numerator as int, d1 as int, other.numerator as int, d2 as int);
            assert(d1 * d2 <= 0x4000_0000_0000_0000_0000_0000_0000_0000) by (nonlinear_arith)
                requires
                    0 < d1 <= i64::MAX,
                    0 < d2 <= i64::MAX,
            ;
        }
        let l = lcm(d1, d2);
        let m1 = l / d1;
        let m2 = l / d2;
        proof {
            let n1 = self.numerator as int;
            let n2 = other.numerator as int;
            assert(-0x4000_0000_0000_0000_0000_0000_0000_0000 < n1 * m1 < 0x4000_0000_0000_0000_0000_0000_0000_0000
                && -0x4000_0000_0000_0000_0000_0000_0000_0000 < n2 * m2 < 0x4000_0000_0000_0000_0000_0000_0000_0000)
                by (nonlinear_arith)
                requires
                    i64::MIN <= n1 <= i64::MAX,
                    i64::MIN <= n2 <= i64::MAX,
                    0 < m1 <= i64::MAX,
                    0 < m2 <= i64::MAX,
            ;
            lemma_reduced_form(n1 * m1 - n2 * m2, l as int);
        }
        let a: i128 = self.numerator as i128 * m1 as i128;
        let b: i128 = other.numerator as i128 * m2 as i128;
        reduce(a - b, l as i128)
    }

    /// The product of numerators over the product of denominators, reduced.
    pub fn mul(self, other: Rational) -> (r: Rational)
        requires
            self.is_reduced(),
            other.is_reduced(),
            fits_i64(self.numerator * other.numerator, self.denominator * other.denominator),
        ensures
            r.is_reduction_of(self.numerator * other.numerator, self.denominator * other.denominator),
            r.is_reduced(),
    {
        proof {
            lemma_product_bounds(self.numerator as int, other.numerator as int);
            lemma_product_bounds(self.denominator as int, other.denominator as int);
            lemma_reduced_form(self.numerator * other.numerator, self.denominator * other.denominator);
        }
        reduce(
            self.numerator as i128 * other.numerator as i128,
            self.denominator as i128 * other.denominator as i128,
        )
    }

    /// The quotient: `self` times the reciprocal of `other`, reduced. Dividing
    /// by zero is refused.
    pub fn div(self, other: Rational) -> (r: Result<Rational, RationalError>)
        requires
            self.is_reduced(),
            other.is_reduced(),
            other.numerator != 0 ==> fits_i64(
                self.numerator * other.denominator,
                self.denominator * other.numerator,
            ),
        ensures
            match r {
                Ok(q) => {
                    &&& other.numerator != 0
                    &&& q.is_reduction_of(
                        self.numerator * other.denominator,
                        self.denominator * other.numerator,
                    )
                    &&& q.is_reduced()
                },
                Err(e) => other.numerator == 0 && e == RationalError::InvalidDenominator,
            },
    {
        if other.numerator == 0 {
            return Err(RationalError::InvalidDenominator);
        }
        proof {
            lemma_product_bounds(self.numerator as int, other.denominator as int);
            lemma_product_bounds(self.denominator as int, other.numerator as int);
            lemma_reduced_form(self.numerator * other.denominator, self.denominator * other.numerator);
        }
        Ok(reduce(
            self.numerator as i128 * other.denominator as i128,
            self.denominator as i128 * other.numerator as i128,
        ))
    }

    /// Decimal text of the value: `"4"` when the denominator is one,
    /// `"1/2"` otherwise.
    pub fn to_string(&self) -> (r: String)
        ensures
            r@ == rendered(self.numerator as int, self.denominator as int),
    {
        let mut s = String::new();
        push_int(&mut s, self.numerator);
        if self.denominator != 1 {
            proof { reveal_strlit("/"); }
            s.append("/");
            push_int(&mut s, self.denominator);
        }
        assert(s@ =~= rendered(self.numerator as int, self.denominator as int));
        s
    }
}

} // verus!
