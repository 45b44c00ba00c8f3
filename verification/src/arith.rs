//! Integer quotients: toward zero, to the nearest, and upward.

use vstd::prelude::*;

verus! {

/// `a / b` toward zero, for `b > 0`.
pub open spec fn trunc_quot(a: int, b: int) -> int {
    if a >= 0 { a / b } else { -((-a) / b) }
}

/// `a / b` upward, for `b > 0`.
pub open spec fn ceil_quot(a: int, b: int) -> int {
    -((-a) / b)
}

/// `a / b` to the nearest integer, halves away from zero, for `b > 0`.
pub open spec fn round_quot(a: int, b: int) -> int {
    if a >= 0 { (2 * a + b) / (2 * b) } else { -((2 * (-a) + b) / (2 * b)) }
}

/// The smaller of two integers.
pub open spec fn imin(a: int, b: int) -> int {
    if a <= b { a } else { b }
}

/// The larger of two integers.
pub open spec fn imax(a: int, b: int) -> int {
    if a >= b { a } else { b }
}

/// The distance between two integers.
pub open spec fn dist(a: int, b: int) -> int {
    if a >= b { a - b } else { b - a }
}

/// Division toward zero.
pub fn div_trunc(a: i64, b: i64) -> (r: i64)
    requires
        b > 0,
    ensures
        r == trunc_quot(a as int, b as int),
{
    a / b
}

/// A quotient by a positive number is no further from zero than the dividend.
pub proof fn lemma_quot_bound(a: int, b: int)
    requires
        b > 0,
        a >= 0,
    ensures
        0 <= a / b <= a,
        (a / b) * b <= a,
        a < (a / b) * b + b,
{
    assert(0 <= a / b <= a) by (nonlinear_arith)
        requires b > 0, a >= 0;
    assert((a / b) * b <= a < (a / b) * b + b) by (nonlinear_arith)
        requires b > 0, a >= 0;
}

/// Floor division.
pub fn div_floor(a: i64, b: i64) -> (r: i64)
    requires
        b > 0,
        a > i64::MIN,
    ensures
        r == a as int / b as int,
{
    let q: i64 = a / b;
    let m: i64 = a % b;
    proof {
        if a < 0 {
            let n = -a as int;
            lemma_quot_bound(n, b as int);
            assert(n == (n / b as int) * b + n % (b as int)) by (nonlinear_arith)
                requires b > 0;
            assert(m == -(n % (b as int)));
            if m == 0 {
                assert(a as int / b as int == -(n / b as int)) by (nonlinear_arith)
                    requires b > 0, n == -a, n == (n / b as int) * b + 0;
            } else {
                assert(a as int / b as int == -(n / b as int) - 1) by (nonlinear_arith)
                    requires b > 0, n == -a, n == (n / b as int) * b + n % (b as int), 0 < n % (b as int) < b;
            }
        }
    }
    if a < 0 && m != 0 {
        q - 1
    } else {
        q
    }
}

/// Division to the nearest integer, halves away from zero.
pub fn div_round(a: i64, b: i64) -> (r: i64)
    requires
        0 < b <= 0x1_0000_0000,
        -0x1000_0000_0000_0000 <= a <= 0x1000_0000_0000_0000,
    ensures
        r == round_quot(a as int, b as int),
{
    if a >= 0 {
        (2 * a + b) / (2 * b)
    } else {
        let q: i64 = (2 * (-a) + b) / (2 * b);
        proof {
            lemma_quot_bound((2 * (-a) + b) as int, (2 * b) as int);
        }
        -q
    }
}

/// Division upward.
pub fn div_ceil(a: i64, b: i64) -> (r: i64)
    requires
        b > 0,
        a > i64::MIN,
    ensures
        r == ceil_quot(a as int, b as int),
{
    let q: i64 = div_floor(-a, b);
    proof {
        assert(q > i64::MIN) by (nonlinear_arith)
            requires q == (-a) as int / b as int, b > 0, -a > i64::MIN, -a <= i64::MAX;
    }
    -q
}

/// The distance between two numbers of 32 bits.
pub fn distance(a: i64, b: i64) -> (r: i64)
    requires
        -0x2000_0000_0000_0000 <= a <= 0x2000_0000_0000_0000,
        -0x2000_0000_0000_0000 <= b <= 0x2000_0000_0000_0000,
    ensures
        r == dist(a as int, b as int),
{
    if a >= b { a - b } else { b - a }
}

/// The smaller of two numbers.
pub fn min64(a: i64, b: i64) -> (r: i64)
    ensures
        r == imin(a as int, b as int),
{
    if a <= b { a } else { b }
}

/// The larger of two numbers.
pub fn max64(a: i64, b: i64) -> (r: i64)
    ensures
        r == imax(a as int, b as int),
{
    if a >= b { a } else { b }
}

/// The remainder of a floor division.
pub fn rem_floor(a: i64, b: i64) -> (r: i64)
    requires
        0 < b <= 0x7fff_ffff_ffff,
        -0x1000_0000_0000_0000 <= a <= 0x1000_0000_0000_0000,
    ensures
        r == a as int % b as int,
{
    let q: i64 = div_floor(a, b);
    proof {
        let (x, y) = (a as int, b as int);
        assert(x == (x / y) * y + x % y && 0 <= x % y < y) by (nonlinear_arith)
            requires y > 0;
        assert(q * b == (x / y) * y);
    }
    a - q * b
}

} // verus!
