use vstd::prelude::*;

verus! {

/// `r` is the fraction `a / b` written with a positive denominator.
pub open spec fn is_fraction(r: Ratio, a: int, b: int) -> bool {
    if b > 0 {
        r.num == a && r.den == b
    } else {
        r.num == -a && r.den == -b
    }
}

/// An exact fraction `num / den`, kept as computed (not reduced).
#[derive(Clone, Copy, Debug, PartialEq, Eq, Structural)]
pub struct Ratio {
    pub num: i128,
    pub den: i128,
}

impl Ratio {
    pub fn new(num: i128, den: i128) -> (r: Ratio)
        ensures
            r.num == num,
            r.den == den,
    {
        Ratio { num, den }
    }

    /// `a / b` with a positive denominator; `None` when `b` is zero.
    pub fn of_quotient(a: i128, b: i128) -> (r: Option<Ratio>)
        requires
            a > i128::MIN,
            b > i128::MIN,
        ensures
            b == 0 ==> r is None,
            b != 0 ==> r is Some && is_fraction(r.unwrap(), a as int, b as int),
    {
        if b == 0 {
            None
        } else if b > 0 {
            Some(Ratio { num: a, den: b })
        } else {
            Some(Ratio { num: -a, den: -b })
        }
    }
}

/// `a / b` rounded down, for a positive `b`.
pub fn floor_div(a: i128, b: i128) -> (r: i128)
    requires
        b > 0,
        a > i128::MIN,
    ensures
        r == a / b,
{
    if a >= 0 {
        a / b
    } else {
        let q = (-a) / b;
        let m = (-a) % b;
        proof {
            assert(-a == q * b + m && 0 <= m < b) by {
                vstd::arithmetic::div_mod::lemma_fundamental_div_mod(-a as int, b as int);
            }
        }
        if m == 0 {
            proof {
                assert(a == (-q) * b + 0) by (nonlinear_arith)
                    requires
                        -a == q * b + m,
                        m == 0,
                ;
                vstd::arithmetic::div_mod::lemma_fundamental_div_mod_converse_div(a as int, b as int, -q as int, 0);
            }
            -q
        } else {
            proof {
                assert(a == (-q - 1) * b + (b - m)) by (nonlinear_arith)
                    requires
                        -a == q * b + m,
                ;
                vstd::arithmetic::div_mod::lemma_fundamental_div_mod_converse_div(
                    a as int,
                    b as int,
                    -q - 1,
                    b - m,
                );
            }
            -q - 1
        }
    }
}

/// Bounds on `a / t` from bounds on `a`.
pub proof fn lemma_div_bounds(a: int, t: int, lo: int, hi: int)
    requires
        t > 0,
        lo * t <= a <= hi * t,
    ensures
        lo <= a / t <= hi,
{
    vstd::arithmetic::div_mod::lemma_fundamental_div_mod(a, t);
    let q = a / t;
    let m = a % t;
    assert(lo <= q <= hi) by (nonlinear_arith)
        requires
            a == t * q + m,
            0 <= m < t,
            lo * t <= a <= hi * t,
            t > 0,
    ;
}

/// Equal fractions round down alike.
pub proof fn lemma_floor_of_equal_fractions(a: int, b: int, c: int, d: int)
    requires
        b > 0,
        d > 0,
        a * d == c * b,
    ensures
        a / b == c / d,
{
    vstd::arithmetic::div_mod::lemma_fundamental_div_mod(a, b);
    vstd::arithmetic::div_mod::lemma_fundamental_div_mod(c, d);
    let q1 = a / b;
    let q2 = c / d;
    let r1 = a % b;
    let r2 = c % d;
    assert(q1 <= q2) by (nonlinear_arith)
        requires
            a == b * q1 + r1,
            c == d * q2 + r2,
            0 <= r1 < b,
            0 <= r2 < d,
            a * d == c * b,
            b > 0,
            d > 0,
    ;
    assert(q2 <= q1) by (nonlinear_arith)
        requires
            a == b * q1 + r1,
            c == d * q2 + r2,
            0 <= r1 < b,
            0 <= r2 < d,
            a * d == c * b,
            b > 0,
            d > 0,
    ;
}

} // verus!
