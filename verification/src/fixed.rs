//! Saturating decimal fixed-point scalars.
//!
//! A [`Fixed`] stores a number as an integer count of thousandths. Every
//! operation is total: results are rounded toward zero and saturate at
//! `±RAW_LIMIT`, and a division by zero yields zero. The contracts describe
//! each result exactly, as integer arithmetic on the raw counts.
use vstd::prelude::*;

verus! {

/// Raw units per whole unit: values carry three decimal places.
pub const SCALE: i64 = 1000;

/// Largest raw magnitude. Arithmetic saturates at `±RAW_LIMIT`, which is one
/// million whole units.
pub const RAW_LIMIT: i64 = 1_000_000_000;

/// The raw value of pi, rounded to three decimal places.
pub const PI_RAW: i64 = 3142;

/// Restricts an integer to the representable raw range.
pub open spec fn clamp(v: int) -> int {
    if v < -RAW_LIMIT {
        -(RAW_LIMIT as int)
    } else if v > RAW_LIMIT {
        RAW_LIMIT as int
    } else {
        v
    }
}

/// True when `v` is a representable raw value.
pub open spec fn in_range(v: int) -> bool {
    -RAW_LIMIT <= v <= RAW_LIMIT
}

/// The magnitude of an integer.
pub open spec fn magnitude(v: int) -> int {
    if v < 0 {
        -v
    } else {
        v
    }
}

/// The quotient `a / b` rounded toward zero, and zero when `b` is zero.
pub open spec fn div_trunc(a: int, b: int) -> int {
    if b == 0 {
        0
    } else if (a < 0) == (b < 0) {
        magnitude(a) / magnitude(b)
    } else {
        -(magnitude(a) / magnitude(b))
    }
}

/// `r` is the integer square root of `n`: the largest integer whose square
/// does not exceed `n`.
pub open spec fn is_floor_sqrt(n: int, r: int) -> bool {
    0 <= r && r * r <= n < (r + 1) * (r + 1)
}

/// The integer square root of `n`, and zero for negative `n`.
pub open spec fn sqrt_floor(n: int) -> int {
    if n < 0 {
        0
    } else {
        choose|r: int| is_floor_sqrt(n, r)
    }
}

/// Raw result of a saturating addition.
pub open spec fn fx_add(a: int, b: int) -> int {
    clamp(a + b)
}

/// Raw result of a saturating subtraction.
pub open spec fn fx_sub(a: int, b: int) -> int {
    clamp(a - b)
}

/// Raw result of a fixed-point multiplication.
pub open spec fn fx_mul(a: int, b: int) -> int {
    clamp(div_trunc(a * b, SCALE as int))
}

/// Raw result of a fixed-point division; zero when the divisor is zero.
pub open spec fn fx_div(a: int, b: int) -> int {
    clamp(div_trunc(a * SCALE, b))
}

/// Raw result of a fixed-point square root; zero for negative arguments.
pub open spec fn fx_sqrt(a: int) -> int {
    sqrt_floor(a * SCALE)
}

/// Any two integer square roots of the same number coincide.
pub proof fn lemma_floor_sqrt_unique(n: int, r1: int, r2: int)
    requires
        is_floor_sqrt(n, r1),
        is_floor_sqrt(n, r2),
    ensures
        r1 == r2,
{
    if r1 < r2 {
        assert((r1 + 1) * (r1 + 1) <= r2 * r2) by (nonlinear_arith)
            requires
                0 <= r1,
                r1 + 1 <= r2,
        ;
    } else if r2 < r1 {
        assert((r2 + 1) * (r2 + 1) <= r1 * r1) by (nonlinear_arith)
            requires
                0 <= r2,
                r2 + 1 <= r1,
        ;
    }
}

/// Every non-negative integer has an integer square root.
pub proof fn lemma_floor_sqrt_exists(n: int)
    requires
        0 <= n,
    ensures
        is_floor_sqrt(n, sqrt_floor(n)),
    decreases n,
{
    if n == 0 {
        assert(is_floor_sqrt(0, 0));
    } else {
        lemma_floor_sqrt_exists(n - 1);
        let r = sqrt_floor(n - 1);
        if n < (r + 1) * (r + 1) {
            assert(is_floor_sqrt(n, r));
        } else {
            assert((r + 1) * (r + 1) == n);
            assert((r + 1) * (r + 1) < (r + 2) * (r + 2)) by (nonlinear_arith)
                requires
                    0 <= r,
            ;
            assert(is_floor_sqrt(n, r + 1));
        }
    }
}

/// A witness of the defining inequalities is the integer square root.
pub proof fn lemma_floor_sqrt_is(n: int, r: int)
    requires
        is_floor_sqrt(n, r),
    ensures
        sqrt_floor(n) == r,
{
    assert(0 <= n) by (nonlinear_arith)
        requires
            r * r <= n,
    ;
    lemma_floor_sqrt_exists(n);
    lemma_floor_sqrt_unique(n, r, sqrt_floor(n));
}

/// The integer square root never decreases when its argument grows.
pub proof fn lemma_sqrt_floor_monotone(a: int, b: int)
    requires
        a <= b,
    ensures
        sqrt_floor(a) <= sqrt_floor(b),
{
    if a < 0 {
        if b >= 0 {
            lemma_floor_sqrt_exists(b);
        }
    } else {
        lemma_floor_sqrt_exists(a);
        lemma_floor_sqrt_exists(b);
        let ra = sqrt_floor(a);
        let rb = sqrt_floor(b);
        if rb < ra {
            assert((rb + 1) * (rb + 1) <= ra * ra) by (nonlinear_arith)
                requires
                    0 <= rb,
                    rb + 1 <= ra,
            ;
        }
    }
}

/// The integer square root of a perfect square is its non-negative root.
pub proof fn lemma_sqrt_floor_square(r: int)
    requires
        0 <= r,
    ensures
        sqrt_floor(r * r) == r,
{
    assert(r * r < (r + 1) * (r + 1)) by (nonlinear_arith)
        requires
            0 <= r,
    ;
    lemma_floor_sqrt_is(r * r, r);
}

/// Rounding toward zero never moves a quotient away from zero: the result
/// lies between zero and the exact quotient.
pub proof fn lemma_div_trunc_bounds(a: int, b: int)
    requires
        b != 0,
    ensures
        magnitude(div_trunc(a, b)) * magnitude(b) <= magnitude(a),
        magnitude(a) < (magnitude(div_trunc(a, b)) + 1) * magnitude(b),
        a == 0 ==> div_trunc(a, b) == 0,
        (a >= 0) == (b > 0) ==> div_trunc(a, b) >= 0,
        (a <= 0) == (b > 0) ==> div_trunc(a, b) <= 0,
{
    let ma = magnitude(a);
    let mb = magnitude(b);
    let q = ma / mb;
    assert(0 <= q && q * mb <= ma && ma < (q + 1) * mb) by (nonlinear_arith)
        requires
            q == ma / mb,
            ma >= 0,
            mb > 0,
    ;
    assert(magnitude(div_trunc(a, b)) == q);
    if a == 0 {
        assert(q == 0) by (nonlinear_arith)
            requires
                0 <= q,
                q * mb <= 0,
                mb > 0,
        ;
    }
}

/// A product is bounded by the product of the bounds of its factors.
pub proof fn lemma_product_bound(a: int, b: int, x: int, y: int)
    requires
        -x <= a <= x,
        -y <= b <= y,
    ensures
        -(x * y) <= a * b <= x * y,
{
    assert(-(x * y) <= a * b <= x * y) by (nonlinear_arith)
        requires
            -x <= a <= x,
            -y <= b <= y,
    ;
}

/// What a division that rounds toward zero leaves over is smaller than the
/// divisor.
pub proof fn lemma_remainder(a: int, b: int)
    requires
        b > 0,
    ensures
        -b < a - div_trunc(a, b) * b < b,
{
    let q = div_trunc(a, b);
    lemma_div_trunc_bounds(a, b);
    let back = q * b;
    assert(-b < a - back < b) by (nonlinear_arith)
        requires
            back == q * b,
            b > 0,
            a >= 0 ==> q >= 0,
            a <= 0 ==> q <= 0,
            magnitude(q) * b <= magnitude(a),
            magnitude(a) < (magnitude(q) + 1) * b,
            magnitude(q) == if q < 0 {
                -q
            } else {
                q
            },
            magnitude(a) == if a < 0 {
                -a
            } else {
                a
            },
    ;
}

/// Two numbers that are each smaller than `size` in magnitude, weighted by
/// the two components of a vector that is not zero, add up to less than
/// `size` times the sum of the magnitudes of the components.
pub proof fn lemma_small_rest(ex: int, ey: int, rx: int, ry: int, size: int)
    requires
        -size < rx < size,
        -size < ry < size,
        ex != 0 || ey != 0,
    ensures
        -((magnitude(ex) + magnitude(ey)) * size) < ex * rx + ey * ry < (magnitude(ex)
            + magnitude(ey)) * size,
        -((magnitude(ex) + magnitude(ey)) * size) < ex * ry - ey * rx < (magnitude(ex)
            + magnitude(ey)) * size,
{
    let (mx, my) = (magnitude(ex), magnitude(ey));
    lemma_product_bound(ex, rx, mx, size - 1);
    lemma_product_bound(ey, ry, my, size - 1);
    lemma_product_bound(ex, ry, mx, size - 1);
    lemma_product_bound(ey, rx, my, size - 1);
    assert(mx * (size - 1) + my * (size - 1) < (mx + my) * size) by (nonlinear_arith)
        requires
            mx >= 0,
            my >= 0,
            mx + my > 0,
    ;
}

/// A quotient is bounded as its dividend is, relative to the divisor.
pub proof fn lemma_quotient_bound(a: int, b: int, bound: int)
    requires
        b > 0,
        -(bound * b) <= a <= bound * b,
    ensures
        -bound <= div_trunc(a, b) <= bound,
{
    let q = div_trunc(a, b);
    lemma_div_trunc_bounds(a, b);
    assert(-bound <= q <= bound) by (nonlinear_arith)
        requires
            b > 0,
            -(bound * b) <= a <= bound * b,
            magnitude(q) * b <= magnitude(a),
            magnitude(q) == if q < 0 {
                -q
            } else {
                q
            },
            magnitude(a) == if a < 0 {
                -a
            } else {
                a
            },
    ;
}

/// Negating the dividend negates a quotient rounded toward zero.
pub proof fn lemma_div_trunc_neg(a: int, b: int)
    ensures
        div_trunc(-a, b) == -div_trunc(a, b),
{
    if b != 0 && a == 0 {
        lemma_div_trunc_bounds(0, b);
    }
}

/// Integer square root of a machine integer, by bisection.
pub fn isqrt(n: u128) -> (r: u128)
    ensures
        is_floor_sqrt(n as int, r as int),
        r == sqrt_floor(n as int),
        r < 0x1_0000_0000_0000_0000,
{
    let mut lo: u128 = 0;
    let mut hi: u128 = 0x1_0000_0000_0000_0000;
    assert(0x1_0000_0000_0000_0000int * 0x1_0000_0000_0000_0000int > n) by (nonlinear_arith)
        requires
            n <= u128::MAX,
    ;
    while hi - lo > 1
        invariant
            lo < hi <= 0x1_0000_0000_0000_0000,
            lo * lo <= n < hi * hi,
        decreases hi - lo,
    {
        let mid: u128 = lo + (hi - lo) / 2;
        assert(mid * mid < 0x1_0000_0000_0000_0000int * 0x1_0000_0000_0000_0000int)
            by (nonlinear_arith)
            requires
                0 <= mid < 0x1_0000_0000_0000_0000,
        ;
        if mid * mid <= n {
            lo = mid;
        } else {
            hi = mid;
        }
    }
    proof {
        lemma_floor_sqrt_is(n as int, lo as int);
    }
    lo
}

/// The square root of `n` rounded up: the least non-negative integer whose
/// square is at least `n`.
pub open spec fn sqrt_ceil(n: int) -> int {
    let root = sqrt_floor(n);
    if root * root >= n {
        root
    } else {
        root + 1
    }
}

/// The rounded-up square root is the least integer whose square reaches
/// `n`.
pub proof fn lemma_sqrt_ceil(n: int)
    requires
        0 <= n,
    ensures
        0 <= sqrt_ceil(n),
        sqrt_ceil(n) * sqrt_ceil(n) >= n,
        n > 0 ==> sqrt_ceil(n) >= 1 && (sqrt_ceil(n) - 1) * (sqrt_ceil(n) - 1) < n,
        n == 0 ==> sqrt_ceil(n) == 0,
{
    lemma_floor_sqrt_exists(n);
    let root = sqrt_floor(n);
    if n == 0 {
        lemma_sqrt_floor_square(0);
    }
    if root * root < n {
        assert((root + 1 - 1) * (root + 1 - 1) == root * root) by (nonlinear_arith);
    } else {
        assert(root * root == n);
        if n > 0 {
            assert(root >= 1) by (nonlinear_arith)
                requires
                    root * root == n,
                    n > 0,
                    root >= 0,
            ;
            assert((root - 1) * (root - 1) < root * root) by (nonlinear_arith)
                requires
                    root >= 1,
            ;
        }
    }
}

/// Integer square root of a machine integer, rounded up.
pub fn isqrt_ceil(n: u128) -> (r: u128)
    ensures
        r == sqrt_ceil(n as int),
        r <= 0x1_0000_0000_0000_0000,
{
    let root = isqrt(n);
    assert(root * root <= n);
    if root * root == n {
        root
    } else {
        root + 1
    }
}

/// Quotient of two wide integers, rounded toward zero; zero when `b` is zero.
pub fn quot(a: i128, b: i128) -> (q: i128)
    requires
        i128::MIN < a,
        i128::MIN < b,
    ensures
        q == div_trunc(a as int, b as int),
{
    if b == 0 {
        return 0;
    }
    let na: u128 = if a < 0 {
        (-a) as u128
    } else {
        a as u128
    };
    let nb: u128 = if b < 0 {
        (-b) as u128
    } else {
        b as u128
    };
    let m: u128 = na / nb;
    assert(m <= na) by (nonlinear_arith)
        requires
            m == na / nb,
            nb >= 1,
            na >= 0,
    ;
    if (a < 0) == (b < 0) {
        m as i128
    } else {
        -(m as i128)
    }
}

/// A fixed-point number with three decimal places.
///
/// Its view is the raw count of thousandths, always within `±RAW_LIMIT`.
#[derive(Clone, Copy, Debug, PartialEq, Eq, Structural)]
pub struct Fixed {
    raw: i64,
}

impl View for Fixed {
    type V = int;

    closed spec fn view(&self) -> int {
        self.raw as int
    }
}

impl Fixed {
    #[verifier::type_invariant]
    spec fn bounded(self) -> bool {
        -RAW_LIMIT <= self.raw <= RAW_LIMIT
    }

    /// The value with the given raw count, saturated to the representable
    /// range.
    pub fn saturate(v: i128) -> (r: Fixed)
        ensures
            r@ == clamp(v as int),
    {
        if v < -(RAW_LIMIT as i128) {
            Fixed { raw: -RAW_LIMIT }
        } else if v > RAW_LIMIT as i128 {
            Fixed { raw: RAW_LIMIT }
        } else {
            Fixed { raw: v as i64 }
        }
    }

    /// The value with the given raw count of thousandths, saturated.
    pub fn from_raw(v: i64) -> (r: Fixed)
        ensures
            r@ == clamp(v as int),
    {
        Fixed::saturate(v as i128)
    }

    /// The whole number `n`, saturated.
    pub fn from_int(n: i64) -> (r: Fixed)
        ensures
            r@ == clamp(n * SCALE),
    {
        Fixed::saturate((n as i128) * 1000)
    }

    /// The fraction `num / den` rounded toward zero to three decimal places;
    /// zero when `den` is zero.
    pub fn from_ratio(num: i64, den: i64) -> (r: Fixed)
        ensures
            r@ == clamp(div_trunc(num * SCALE, den as int)),
    {
        Fixed::saturate(quot((num as i128) * 1000, den as i128))
    }

    /// Zero.
    pub fn zero() -> (r: Fixed)
        ensures
            r@ == 0,
    {
        Fixed { raw: 0 }
    }

    /// One.
    pub fn one() -> (r: Fixed)
        ensures
            r@ == SCALE,
    {
        Fixed { raw: SCALE }
    }

    /// The raw count of thousandths.
    pub fn raw(self) -> (r: i64)
        ensures
            r == self@,
            in_range(r as int),
    {
        proof {
            use_type_invariant(&self);
        }
        self.raw
    }

    /// True for the value zero.
    pub fn is_zero(self) -> (r: bool)
        ensures
            r == (self@ == 0),
    {
        self.raw == 0
    }

    /// Saturating sum.
    pub fn add(self, rhs: Fixed) -> (r: Fixed)
        ensures
            r@ == fx_add(self@, rhs@),
    {
        proof {
            use_type_invariant(&self);
            use_type_invariant(&rhs);
        }
        Fixed::saturate(self.raw as i128 + rhs.raw as i128)
    }

    /// Saturating difference.
    pub fn sub(self, rhs: Fixed) -> (r: Fixed)
        ensures
            r@ == fx_sub(self@, rhs@),
    {
        proof {
            use_type_invariant(&self);
            use_type_invariant(&rhs);
        }
        Fixed::saturate(self.raw as i128 - rhs.raw as i128)
    }

    /// Product, rounded toward zero and saturated.
    pub fn mul(self, rhs: Fixed) -> (r: Fixed)
        ensures
            r@ == fx_mul(self@, rhs@),
    {
        proof {
            use_type_invariant(&self);
            use_type_invariant(&rhs);
        }
        let a: i128 = self.raw as i128;
        let b: i128 = rhs.raw as i128;
        assert(-1_000_000_000_000_000_000 <= a * b <= 1_000_000_000_000_000_000)
            by (nonlinear_arith)
            requires
                -1_000_000_000 <= a <= 1_000_000_000,
                -1_000_000_000 <= b <= 1_000_000_000,
        ;
        Fixed::saturate(quot(a * b, 1000))
    }

    /// Quotient, rounded toward zero and saturated; zero when `rhs` is zero.
    pub fn div(self, rhs: Fixed) -> (r: Fixed)
        ensures
            r@ == fx_div(self@, rhs@),
    {
        proof {
            use_type_invariant(&self);
            use_type_invariant(&rhs);
        }
        Fixed::saturate(quot((self.raw as i128) * 1000, rhs.raw as i128))
    }

    /// The negated value.
    pub fn neg(self) -> (r: Fixed)
        ensures
            r@ == -self@,
    {
        proof {
            use_type_invariant(&self);
        }
        Fixed { raw: -self.raw }
    }

    /// The magnitude.
    pub fn abs(self) -> (r: Fixed)
        ensures
            r@ == magnitude(self@),
    {
        proof {
            use_type_invariant(&self);
        }
        if self.raw < 0 {
            Fixed { raw: -self.raw }
        } else {
            self
        }
    }

    /// The smaller of two values.
    pub fn min(self, rhs: Fixed) -> (r: Fixed)
        ensures
            r@ == if self@ <= rhs@ { self@ } else { rhs@ },
    {
        if self.raw <= rhs.raw {
            self
        } else {
            rhs
        }
    }

    /// The larger of two values.
    pub fn max(self, rhs: Fixed) -> (r: Fixed)
        ensures
            r@ == if self@ >= rhs@ { self@ } else { rhs@ },
    {
        if self.raw >= rhs.raw {
            self
        } else {
            rhs
        }
    }

    /// Square root, rounded down; zero for negative values.
    pub fn sqrt(self) -> (r: Fixed)
        ensures
            r@ == fx_sqrt(self@),
    {
        proof {
            use_type_invariant(&self);
        }
        if self.raw < 0 {
            Fixed { raw: 0 }
        } else {
            let n: u128 = (self.raw as u128) * 1000;
            let root: u128 = isqrt(n);
            assert(root <= 1_000_000) by (nonlinear_arith)
                requires
                    root * root <= n,
                    n <= 1_000_000_000_000,
                    0 <= root,
            ;
            Fixed { raw: root as i64 }
        }
    }

    /// `self < rhs`.
    pub fn lt(self, rhs: Fixed) -> (r: bool)
        ensures
            r == (self@ < rhs@),
    {
        self.raw < rhs.raw
    }

    /// `self <= rhs`.
    pub fn le(self, rhs: Fixed) -> (r: bool)
        ensures
            r == (self@ <= rhs@),
    {
        self.raw <= rhs.raw
    }

    /// `self > rhs`.
    pub fn gt(self, rhs: Fixed) -> (r: bool)
        ensures
            r == (self@ > rhs@),
    {
        self.raw > rhs.raw
    }

    /// `self >= rhs`.
    pub fn ge(self, rhs: Fixed) -> (r: bool)
        ensures
            r == (self@ >= rhs@),
    {
        self.raw >= rhs.raw
    }
}

} // verus!
