use vstd::prelude::*;
use vstd::arithmetic::div_mod::lemma_div_is_ordered;
use vstd::arithmetic::div_mod::lemma_div_multiples_vanish;
use vstd::arithmetic::mul::lemma_mul_upper_bound;

verus! {

/// Scaling factor of the fixed-point scalar: one whole unit is `SCALE` raw
/// steps, so sixteen bits of every raw value lie below the binary point.
pub const SCALE: i128 = 65536;

/// Raw magnitude accepted by the additive operations (2^125).
pub const ADD_LIM: i128 = 42535295865117307932921825928971026432;

/// Cap on raw magnitudes and on their product in `mul` (2^124).
pub const MUL_PROD_LIM: i128 = 21267647932558653966460912964485513216;

/// Raw magnitude accepted by `div` numerators and by `sqrt` (2^108).
pub const DIV_NUM_LIM: i128 = 324518553658426726783156020576256;

/// A fixed-point scalar: the represented value is `raw / SCALE`.
/// All arithmetic on it is exact integer arithmetic on `raw`, with
/// multiplication, division and square root truncating toward zero.
#[derive(Clone, Copy, PartialEq, Eq, Structural, Debug)]
pub struct Fx {
    pub raw: i128,
}

/// Magnitude of a mathematical integer.
pub open spec fn iabs(a: int) -> int {
    if a < 0 {
        -a
    } else {
        a
    }
}

/// Raw value of the fixed-point product: magnitudes multiply, the extra
/// scale divides away by truncation, and the sign is the sign rule's.
pub open spec fn fx_mul_raw(a: int, b: int) -> int {
    if (a < 0) == (b < 0) {
        iabs(a) * iabs(b) / (SCALE as int)
    } else {
        -(iabs(a) * iabs(b) / (SCALE as int))
    }
}

/// Raw value of the fixed-point quotient, truncated toward zero.
pub open spec fn fx_div_raw(a: int, b: int) -> int {
    if (a < 0) == (b < 0) {
        iabs(a) * (SCALE as int) / iabs(b)
    } else {
        -(iabs(a) * (SCALE as int) / iabs(b))
    }
}

/// `r` is the integer square root of `n`, rounded down.
pub open spec fn is_sqrt(n: int, r: int) -> bool {
    &&& 0 <= r
    &&& r * r <= n
    &&& n < (r + 1) * (r + 1)
}

/// The integer square root of `n`, rounded down.
pub open spec fn sqrt_floor(n: int) -> int {
    choose|r: int| is_sqrt(n, r)
}

/// An integer square root exists for every nonnegative integer.
pub proof fn lemma_sqrt_exists(n: nat)
    ensures
        is_sqrt(n as int, sqrt_floor(n as int)),
    decreases n,
{
    if n == 0 {
        assert(is_sqrt(0, 0)) by (nonlinear_arith);
        assert(exists|r: int| is_sqrt(0, r));
    } else {
        lemma_sqrt_exists((n - 1) as nat);
        let r = sqrt_floor(n - 1);
        if (r + 1) * (r + 1) <= n {
            assert(is_sqrt(n as int, r + 1)) by (nonlinear_arith)
                requires
                    is_sqrt(n - 1, r),
                    (r + 1) * (r + 1) <= n as int,
            ;
            assert(exists|w: int| is_sqrt(n as int, w));
        } else {
            assert(is_sqrt(n as int, r));
            assert(exists|w: int| is_sqrt(n as int, w));
        }
    }
}

/// The integer square root is unique.
pub proof fn lemma_sqrt_unique(n: int, r1: int, r2: int)
    requires
        is_sqrt(n, r1),
        is_sqrt(n, r2),
    ensures
        r1 == r2,
{
    assert(r1 == r2) by (nonlinear_arith)
        requires
            0 <= r1 && r1 * r1 <= n && n < (r1 + 1) * (r1 + 1),
            0 <= r2 && r2 * r2 <= n && n < (r2 + 1) * (r2 + 1),
    ;
}

/// The magnitude of a fixed-point product is the truncated product of the
/// magnitudes, and is bounded by any bound on its factors.
pub proof fn lemma_mul_raw_bound(a: int, b: int, m: int, n: int)
    requires
        iabs(a) <= m,
        iabs(b) <= n,
    ensures
        iabs(fx_mul_raw(a, b)) == iabs(a) * iabs(b) / (SCALE as int),
        iabs(fx_mul_raw(a, b)) <= m * n / (SCALE as int),
        m * n / (SCALE as int) <= m * n,
        0 <= m * n,
        iabs(a) * iabs(b) <= m * n,
{
    lemma_mul_upper_bound(iabs(a), m, iabs(b), n);
    assert(0 <= iabs(a) * iabs(b)) by (nonlinear_arith);
    lemma_div_is_ordered(iabs(a) * iabs(b), m * n, SCALE as int);
    assert(iabs(a) * iabs(b) / (SCALE as int) >= 0) by (nonlinear_arith)
        requires
            0 <= iabs(a) * iabs(b),
    ;
    assert(m * n / (SCALE as int) <= m * n) by (nonlinear_arith)
        requires
            0 <= m * n,
    ;
}

/// Multiplying by zero gives zero.
pub proof fn lemma_fx_mul_zero(a: int)
    ensures
        fx_mul_raw(a, 0) == 0,
        fx_mul_raw(0, a) == 0,
{
    assert(iabs(a) * 0 == 0) by (nonlinear_arith);
    assert(0 * iabs(a) == 0) by (nonlinear_arith);
}

/// Multiplying by the fixed-point one is exact.
pub proof fn lemma_fx_mul_one(a: int)
    ensures
        fx_mul_raw(a, SCALE as int) == a,
        fx_mul_raw(SCALE as int, a) == a,
        fx_mul_raw(a, -(SCALE as int)) == -a,
{
    let s = SCALE as int;
    assert(iabs(a) * s / s == iabs(a)) by (nonlinear_arith)
        requires
            s == 65536,
            0 <= iabs(a),
    ;
    assert(s * iabs(a) / s == iabs(a)) by (nonlinear_arith)
        requires
            s == 65536,
            0 <= iabs(a),
    ;
}

/// The fixed-point product is commutative.
pub proof fn lemma_fx_mul_comm(a: int, b: int)
    ensures
        fx_mul_raw(a, b) == fx_mul_raw(b, a),
{
    assert(iabs(a) * iabs(b) == iabs(b) * iabs(a)) by (nonlinear_arith);
}

/// Negating one factor negates the fixed-point product.
pub proof fn lemma_fx_mul_neg(a: int, b: int)
    ensures
        fx_mul_raw(-a, b) == -fx_mul_raw(a, b),
        fx_mul_raw(a, -b) == -fx_mul_raw(a, b),
{
    assert(iabs(-a) == iabs(a));
    assert(iabs(-b) == iabs(b));
    if a == 0 {
        lemma_fx_mul_zero(b);
        lemma_fx_mul_comm(a, b);
        lemma_fx_mul_comm(-a, b);
    }
    if b == 0 {
        lemma_fx_mul_zero(a);
    }
}

/// The fixed-point product of nonnegative scalars is nonnegative.
pub proof fn lemma_fx_mul_nonneg(a: int, b: int)
    requires
        0 <= a,
        0 <= b,
    ensures
        0 <= fx_mul_raw(a, b),
{
    assert(0 <= a * b) by (nonlinear_arith)
        requires
            0 <= a,
            0 <= b,
    ;
    assert(a * b / (SCALE as int) >= 0) by (nonlinear_arith)
        requires
            0 <= a * b,
            SCALE == 65536i128,
    ;
}

/// A product with a factor in [0, 1] does not exceed the other factor.
pub proof fn lemma_fx_mul_le(a: int, b: int)
    requires
        0 <= a <= SCALE as int,
        0 <= b,
    ensures
        0 <= fx_mul_raw(a, b) <= b,
{
    let s = SCALE as int;
    assert(a * b <= s * b) by (nonlinear_arith)
        requires
            0 <= a <= s,
            0 <= b,
    ;
    assert(0 <= a * b) by (nonlinear_arith)
        requires
            0 <= a,
            0 <= b,
    ;
    lemma_div_is_ordered(a * b, s * b, s);
    lemma_div_multiples_vanish(b, s);
    assert(a * b / s >= 0) by (nonlinear_arith)
        requires
            0 <= a * b,
            s == 65536,
    ;
}

/// Fixed-point division by a positive scalar is monotone in the numerator.
pub proof fn lemma_fx_div_mono(x1: int, x2: int, a: int)
    requires
        x1 <= x2,
        0 < a,
    ensures
        fx_div_raw(x1, a) <= fx_div_raw(x2, a),
{
    let s = SCALE as int;
    if 0 <= x1 {
        assert(x1 * s <= x2 * s) by (nonlinear_arith)
            requires
                x1 <= x2,
                s > 0,
        ;
        lemma_div_is_ordered(x1 * s, x2 * s, a);
    } else if x2 < 0 {
        assert((-x2) * s <= (-x1) * s) by (nonlinear_arith)
            requires
                x1 <= x2,
                s > 0,
        ;
        lemma_div_is_ordered((-x2) * s, (-x1) * s, a);
    } else {
        assert(0 <= (-x1) * s) by (nonlinear_arith)
            requires
                x1 < 0,
                s > 0,
        ;
        assert(0 <= x2 * s) by (nonlinear_arith)
            requires
                0 <= x2,
                s > 0,
        ;
        assert((-x1) * s / a >= 0) by (nonlinear_arith)
            requires
                0 <= (-x1) * s,
                0 < a,
        ;
        assert(x2 * s / a >= 0) by (nonlinear_arith)
            requires
                0 <= x2 * s,
                0 < a,
        ;
    }
}

/// The square root of zero is zero, and of one is one.
pub proof fn lemma_sqrt_small()
    ensures
        sqrt_floor(0) == 0,
        sqrt_floor((SCALE as int) * (SCALE as int)) == SCALE as int,
{
    assert(is_sqrt(0, 0)) by (nonlinear_arith);
    lemma_sqrt_exists(0);
    lemma_sqrt_unique(0, 0, sqrt_floor(0));
    let s = SCALE as int;
    assert(is_sqrt(s * s, s)) by (nonlinear_arith)
        requires
            s == 65536,
    ;
    assert(s * s >= 0) by (nonlinear_arith);
    lemma_sqrt_exists((s * s) as nat);
    lemma_sqrt_unique(s * s, s, sqrt_floor(s * s));
}

/// Floor square root of a 128-bit integer, by binary search on the result.
pub fn isqrt_u128(n: u128) -> (r: u128)
    requires
        (n as int) < 85070591730234615865843651857942052864,
    ensures
        is_sqrt(n as int, r as int),
{
    let mut lo: u128 = 0;
    let mut hi: u128 = 9223372036854775808;
    proof {
        assert(9223372036854775808int * 9223372036854775808int
            == 85070591730234615865843651857942052864int) by (nonlinear_arith);
    }
    while lo + 1 < hi
        invariant
            lo < hi,
            hi <= 9223372036854775808u128,
            (lo as int) * (lo as int) <= n as int,
            (n as int) < (hi as int) * (hi as int),
        decreases hi - lo,
    {
        let mid: u128 = lo + (hi - lo) / 2;
        assert(lo < mid && mid < hi);
        assert((mid as int) * (mid as int) < 85070591730234615865843651857942052864int)
            by (nonlinear_arith)
            requires
                0 <= (mid as int),
                (mid as int) < 9223372036854775808int,
        ;
        if mid * mid <= n {
            lo = mid;
        } else {
            hi = mid;
        }
    }
    assert(hi == lo + 1);
    lo
}

impl Fx {
    /// The scalar with the given raw value.
    pub fn from_raw(raw: i128) -> (r: Fx)
        ensures
            r.raw == raw,
    {
        Fx { raw }
    }

    /// The scalar equal to the given small integer.
    pub fn from_int(v: i32) -> (r: Fx)
        ensures
            r.raw == (v as int) * (SCALE as int),
    {
        Fx { raw: (v as i128) * SCALE }
    }

    /// Zero.
    pub fn zero() -> (r: Fx)
        ensures
            r.raw == 0,
    {
        Fx { raw: 0 }
    }

    /// One.
    pub fn one() -> (r: Fx)
        ensures
            r.raw == SCALE,
    {
        Fx { raw: SCALE }
    }

    /// Exact sum.
    pub fn add(self, o: Fx) -> (r: Fx)
        requires
            iabs(self.raw as int) <= ADD_LIM as int,
            iabs(o.raw as int) <= ADD_LIM as int,
        ensures
            r.raw == self.raw + o.raw,
    {
        Fx { raw: self.raw + o.raw }
    }

    /// Exact difference.
    pub fn sub(self, o: Fx) -> (r: Fx)
        requires
            iabs(self.raw as int) <= ADD_LIM as int,
            iabs(o.raw as int) <= ADD_LIM as int,
        ensures
            r.raw == self.raw - o.raw,
    {
        Fx { raw: self.raw - o.raw }
    }

    /// Exact negation.
    pub fn neg(self) -> (r: Fx)
        requires
            iabs(self.raw as int) <= ADD_LIM as int,
        ensures
            r.raw == -self.raw,
    {
        Fx { raw: -self.raw }
    }

    /// Magnitude.
    pub fn abs(self) -> (r: Fx)
        requires
            iabs(self.raw as int) <= ADD_LIM as int,
        ensures
            r.raw == iabs(self.raw as int),
    {
        if self.raw < 0 {
            Fx { raw: -self.raw }
        } else {
            self
        }
    }

    /// The smaller of two scalars.
    pub fn min(self, o: Fx) -> (r: Fx)
        ensures
            r.raw == if self.raw <= o.raw {
                self.raw as int
            } else {
                o.raw as int
            },
    {
        if self.raw <= o.raw {
            self
        } else {
            o
        }
    }

    /// The larger of two scalars.
    pub fn max(self, o: Fx) -> (r: Fx)
        ensures
            r.raw == if self.raw >= o.raw {
                self.raw as int
            } else {
                o.raw as int
            },
    {
        if self.raw >= o.raw {
            self
        } else {
            o
        }
    }

    /// Fixed-point product, truncated toward zero.
    pub fn mul(self, o: Fx) -> (r: Fx)
        requires
            iabs(self.raw as int) <= MUL_PROD_LIM as int,
            iabs(o.raw as int) <= MUL_PROD_LIM as int,
            iabs(self.raw as int) * iabs(o.raw as int) <= MUL_PROD_LIM as int,
        ensures
            r.raw == fx_mul_raw(self.raw as int, o.raw as int),
            iabs(r.raw as int) == iabs(self.raw as int) * iabs(o.raw as int) / (SCALE as int),
    {
        let neg: bool = (self.raw < 0) != (o.raw < 0);
        let ma: u128 = if self.raw < 0 {
            (-self.raw) as u128
        } else {
            self.raw as u128
        };
        let mb: u128 = if o.raw < 0 {
            (-o.raw) as u128
        } else {
            o.raw as u128
        };
        assert(ma as int == iabs(self.raw as int));
        assert(mb as int == iabs(o.raw as int));
        let q: u128 = (ma * mb) / 65536;
        proof {
            lemma_div_is_ordered(ma as int * mb as int, MUL_PROD_LIM as int, SCALE as int);
        }
        if neg {
            Fx { raw: -(q as i128) }
        } else {
            Fx { raw: q as i128 }
        }
    }

    /// Fixed-point quotient, truncated toward zero.
    pub fn div(self, o: Fx) -> (r: Fx)
        requires
            o.raw != 0,
            iabs(self.raw as int) <= DIV_NUM_LIM as int,
            iabs(o.raw as int) <= ADD_LIM as int,
        ensures
            r.raw == fx_div_raw(self.raw as int, o.raw as int),
            iabs(r.raw as int) == iabs(self.raw as int) * (SCALE as int) / iabs(o.raw as int),
    {
        let neg: bool = (self.raw < 0) != (o.raw < 0);
        let ma: u128 = if self.raw < 0 {
            (-self.raw) as u128
        } else {
            self.raw as u128
        };
        let mb: u128 = if o.raw < 0 {
            (-o.raw) as u128
        } else {
            o.raw as u128
        };
        assert(ma as int == iabs(self.raw as int));
        assert(mb as int == iabs(o.raw as int));
        let q: u128 = (ma * 65536) / mb;
        proof {
            lemma_div_is_ordered(
                ma as int * (SCALE as int),
                (DIV_NUM_LIM as int) * (SCALE as int),
                mb as int,
            );
            assert((DIV_NUM_LIM as int) * (SCALE as int) / (mb as int)
                <= (DIV_NUM_LIM as int) * (SCALE as int)) by (nonlinear_arith)
                requires
                    1 <= mb as int,
                    0 <= (DIV_NUM_LIM as int) * (SCALE as int),
            ;
        }
        if neg {
            Fx { raw: -(q as i128) }
        } else {
            Fx { raw: q as i128 }
        }
    }

    /// Fixed-point square root, rounded down to the nearest raw step.
    pub fn sqrt(self) -> (r: Fx)
        requires
            0 <= self.raw <= DIV_NUM_LIM,
        ensures
            is_sqrt(self.raw * SCALE, r.raw as int),
            r.raw == sqrt_floor(self.raw * SCALE),
            0 <= r.raw <= 4611686018427387904,
    {
        let n: u128 = (self.raw as u128) * 65536;
        let s: u128 = isqrt_u128(n);
        proof {
            lemma_sqrt_exists((self.raw * SCALE) as nat);
            lemma_sqrt_unique(self.raw * SCALE, s as int, sqrt_floor(self.raw * SCALE));
            assert((s as int) <= 4611686018427387904int) by (nonlinear_arith)
                requires
                    0 <= s as int,
                    (s as int) * (s as int) <= 21267647932558653966460912964485513216int,
        ;
        }
        Fx { raw: s as i128 }
    }
}

} // verus!
