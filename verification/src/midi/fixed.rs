//! Exact arithmetic on fractions of integers.
use vstd::prelude::*;
use vstd::arithmetic::div_mod::lemma_fundamental_div_mod;
use vstd::arithmetic::div_mod::lemma_fundamental_div_mod_converse;

verus! {

/// The quotient of `a` by a positive `b`, rounded down, and what is left of
/// `a` above that multiple of `b`.
pub fn floor_div_mod(a: i128, b: i128) -> (r: (i128, i128))
    requires
        b > 0,
        a > i128::MIN,
    ensures
        r.0 == a as int / b as int,
        r.1 == a as int % b as int,
        0 <= r.1 < b,
        a == r.0 * b + r.1,
{
    let d: u128 = b as u128;
    if a >= 0 {
        let x: u128 = a as u128;
        let q: u128 = x / d;
        let m: u128 = x % d;
        proof {
            lemma_fundamental_div_mod(x as int, d as int);
            assert(q * d <= x) by (nonlinear_arith)
                requires
                    x == d * q + m,
                    0 <= m,
            ;
            assert(q <= q * d) by (nonlinear_arith)
                requires
                    d >= 1,
                    q >= 0,
            ;
            assert(q * b == d * q) by (nonlinear_arith)
                requires
                    b == d,
            ;
        }
        (q as i128, m as i128)
    } else {
        let x: u128 = (-a) as u128;
        let q: u128 = x / d;
        let m: u128 = x % d;
        proof {
            lemma_fundamental_div_mod(x as int, d as int);
            assert(q * d <= x) by (nonlinear_arith)
                requires
                    x == d * q + m,
                    0 <= m,
            ;
            assert(q <= q * d) by (nonlinear_arith)
                requires
                    d >= 1,
                    q >= 0,
            ;
        }
        if m == 0 {
            proof {
                assert(a == (-(q as int)) * b + 0) by (nonlinear_arith)
                    requires
                        -a == d * q + m,
                        m == 0,
                        b == d,
                ;
                lemma_fundamental_div_mod_converse(a as int, b as int, -(q as int), 0);
            }
            (-(q as i128), 0)
        } else {
            proof {
                assert(a == (-(q as int) - 1) * b + (b - m)) by (nonlinear_arith)
                    requires
                        -a == d * q + m,
                        b == d,
                ;
                lemma_fundamental_div_mod_converse(
                    a as int,
                    b as int,
                    -(q as int) - 1,
                    b as int - m as int,
                );
            }
            (-(q as i128) - 1, b - (m as i128))
        }
    }
}

/// The nearest value to `x` that sixteen bits hold.
pub open spec fn clamp_u16(x: int) -> int {
    if x < 0 {
        0
    } else if x > 65535 {
        65535
    } else {
        x
    }
}

/// The nearest value to `x` that sixteen bits hold.
pub fn clamp_to_u16(x: i128) -> (r: u16)
    ensures
        r == clamp_u16(x as int),
{
    if x < 0 {
        0
    } else if x > 65535 {
        65535
    } else {
        x as u16
    }
}

/// A quotient is no larger than the bound that its numerator keeps, counted in denominators.
pub proof fn lemma_floor_bound(num: int, den: int, bound: int)
    requires
        den > 0,
        -(bound * den) <= num <= bound * den,
    ensures
        -bound <= num / den <= bound,
{
    vstd::arithmetic::div_mod::lemma_div_is_ordered(num, bound * den, den);
    vstd::arithmetic::div_mod::lemma_div_is_ordered(-(bound * den), num, den);
    vstd::arithmetic::div_mod::lemma_div_multiples_vanish(bound, den);
    vstd::arithmetic::div_mod::lemma_div_multiples_vanish(-bound, den);
    assert(den * bound == bound * den) by (nonlinear_arith);
    assert(den * (-bound) == -(bound * den)) by (nonlinear_arith);
}

/// A product is no larger than the product of the bounds of its factors.
pub proof fn lemma_mul_bound(a: int, b: int, bound_a: int, bound_b: int)
    requires
        -bound_a <= a <= bound_a,
        -bound_b <= b <= bound_b,
    ensures
        -(bound_a * bound_b) <= a * b <= bound_a * bound_b,
{
    assert(-(bound_a * bound_b) <= a * b <= bound_a * bound_b) by (nonlinear_arith)
        requires
            -bound_a <= a <= bound_a,
            -bound_b <= b <= bound_b,
    ;
}

} // verus!
