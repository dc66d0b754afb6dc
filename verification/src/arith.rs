use vstd::prelude::*;

verus! {

/// Quotient of a non-negative number by a positive one.
pub fn div_nonneg(a: i64, b: i64) -> (q: i64)
    requires
        a >= 0,
        b > 0,
    ensures
        q == a / b,
        0 <= q <= a,
{
    let q = (a as u64) / (b as u64);
    proof {
        assert(0 <= a / b <= a) by (nonlinear_arith)
            requires
                a >= 0,
                b > 0,
        ;
    }
    q as i64
}

/// The value `x` clamped to the range of `i64`.
pub open spec fn clamp(x: int) -> int {
    if x < i64::MIN {
        i64::MIN as int
    } else if x > i64::MAX {
        i64::MAX as int
    } else {
        x
    }
}

/// Sum of `a` and `b`, or the nearest `i64` where the sum does not fit.
pub fn sat_add(a: i64, b: i64) -> (sum: i64)
    ensures
        sum == clamp(a + b),
{
    if b > 0 && a > i64::MAX - b {
        i64::MAX
    } else if b < 0 && a < i64::MIN - b {
        i64::MIN
    } else {
        a + b
    }
}

/// Difference of `a` and `b`, or the nearest `i64` where the difference does not fit.
pub fn sat_sub(a: i64, b: i64) -> (difference: i64)
    ensures
        difference == clamp(a - b),
{
    if b < 0 && a > i64::MAX + b {
        i64::MAX
    } else if b > 0 && a < i64::MIN + b {
        i64::MIN
    } else {
        a - b
    }
}

/// Negation of `a`, or `i64::MAX` for the one value whose negation does not fit.
pub fn sat_neg(a: i64) -> (negation: i64)
    ensures
        negation == clamp(-a),
{
    if a == i64::MIN {
        i64::MAX
    } else {
        -a
    }
}

/// Product of `a` and `b`, or the nearest `i64` where the product does not fit.
pub fn sat_mul(a: i64, b: i64) -> (product: i64)
    ensures
        product == clamp(a * b),
{
    proof {
        assert(-0x8000_0000_0000_0000 * 0x8000_0000_0000_0000 <= a * b <= 0x8000_0000_0000_0000
            * 0x8000_0000_0000_0000) by (nonlinear_arith)
            requires
                -0x8000_0000_0000_0000 <= a <= 0x8000_0000_0000_0000,
                -0x8000_0000_0000_0000 <= b <= 0x8000_0000_0000_0000,
        ;
    }
    let wide: i128 = (a as i128) * (b as i128);
    if wide > i64::MAX as i128 {
        i64::MAX
    } else if wide < i64::MIN as i128 {
        i64::MIN
    } else {
        wide as i64
    }
}

/// Quotient of `a` by the positive number `b`, rounded towards zero.
pub open spec fn quotient_toward_zero(a: int, b: int) -> int {
    if a >= 0 {
        a / b
    } else {
        -((-a) / b)
    }
}

/// Quotient of `a` by the positive number `b`, rounded towards zero.
pub fn div_toward_zero(a: i64, b: i64) -> (q: i64)
    requires
        b > 0,
    ensures
        q == quotient_toward_zero(a as int, b as int),
{
    if a >= 0 {
        div_nonneg(a, b)
    } else {
        let positive: u64 = if a == i64::MIN {
            0x8000_0000_0000_0000u64
        } else {
            (-a) as u64
        };
        let q = positive / (b as u64);
        proof {
            assert(0 <= (-a) / (b as int) <= -a) by (nonlinear_arith)
                requires
                    -a >= 0,
                    b > 0,
            ;
        }
        if q > i64::MAX as u64 {
            i64::MIN
        } else {
            -(q as i64)
        }
    }
}

/// The greatest number whose square does not exceed `n`.
pub fn floor_sqrt(n: usize) -> (root: usize)
    ensures
        root * root <= n < (root + 1) * (root + 1),
{
    let mut root: usize = 0;
    while root < n && root + 1 <= n / (root + 1)
        invariant
            root * root <= n,
            root <= n,
        decreases n - root,
    {
        proof {
            let next = root + 1;
            let whole = n as int;
            assert(next * next <= whole) by (nonlinear_arith)
                requires
                    next <= whole / next,
                    next > 0,
                    whole >= 0,
            ;
        }
        root += 1;
    }
    proof {
        let next = root + 1;
        let whole = n as int;
        if root < n {
            assert(next * next > whole) by (nonlinear_arith)
                requires
                    next > whole / next,
                    next > 0,
                    whole >= 0,
            ;
        } else {
            assert(next * next > whole) by (nonlinear_arith)
                requires
                    next > whole,
                    whole >= 0,
            ;
        }
    }
    root
}

} // verus!
