use vstd::prelude::*;
use crate::fx::{
    Fx, iabs, fx_mul_raw, fx_div_raw, is_sqrt, sqrt_floor, lemma_mul_raw_bound, lemma_fx_mul_comm,
    lemma_fx_mul_neg, lemma_fx_mul_zero, lemma_fx_mul_one, lemma_sqrt_small, lemma_sqrt_exists, SCALE, ADD_LIM,
    MUL_PROD_LIM, DIV_NUM_LIM,
};
use crate::rng::next_symmetric_fx;
use vstd::arithmetic::div_mod::lemma_div_is_ordered;
use vstd::arithmetic::div_mod::lemma_div_is_ordered_by_denominator;
use vstd::arithmetic::div_mod::lemma_div_multiples_vanish;
use vstd::arithmetic::div_mod::lemma_fundamental_div_mod;

verus! {

/// Magnitude accepted for the components of dot-product operands (2^60).
pub const VLIM: i128 = 1152921504606846976;

/// Bound on the components of a normalized vector (2^23).
pub const UNIT_LIM: i128 = 8388608;

/// Bound on the components of a ray direction (2^44).
pub const DIR_LIM: i128 = 17592186044416;

/// Bound on scene coordinates and on intersection distances (2^30).
pub const FIT: i128 = 1073741824;

/// A triple of components; over `Fx` it is a point, direction or color.
#[derive(Clone, Copy, PartialEq, Eq, Structural, Debug)]
pub struct Vec3<T> {
    pub x: T,
    pub y: T,
    pub z: T,
}

pub type Position = Vec3<Fx>;

pub type Color = Vec3<Fx>;

pub type Direction = Vec3<Fx>;

/// The raw components of a fixed-point vector, as mathematical integers.
pub open spec fn v3(v: Vec3<Fx>) -> (int, int, int) {
    (v.x.raw as int, v.y.raw as int, v.z.raw as int)
}

/// Every component's magnitude is at most `m`.
pub open spec fn tb3(a: (int, int, int), m: int) -> bool {
    &&& iabs(a.0) <= m
    &&& iabs(a.1) <= m
    &&& iabs(a.2) <= m
}

/// Every component's magnitude is at most `m`.
pub open spec fn vbound(v: Vec3<Fx>, m: int) -> bool {
    tb3(v3(v), m)
}

pub open spec fn add3(a: (int, int, int), b: (int, int, int)) -> (int, int, int) {
    (a.0 + b.0, a.1 + b.1, a.2 + b.2)
}

pub open spec fn sub3(a: (int, int, int), b: (int, int, int)) -> (int, int, int) {
    (a.0 - b.0, a.1 - b.1, a.2 - b.2)
}

pub open spec fn neg3(a: (int, int, int)) -> (int, int, int) {
    (-a.0, -a.1, -a.2)
}

/// Scaling by a fixed-point factor, componentwise.
pub open spec fn scale3(a: (int, int, int), f: int) -> (int, int, int) {
    (fx_mul_raw(a.0, f), fx_mul_raw(a.1, f), fx_mul_raw(a.2, f))
}

/// Division by a fixed-point scalar, componentwise.
pub open spec fn divs3(a: (int, int, int), f: int) -> (int, int, int) {
    (fx_div_raw(a.0, f), fx_div_raw(a.1, f), fx_div_raw(a.2, f))
}

/// The componentwise (Hadamard) product.
pub open spec fn mul3(a: (int, int, int), b: (int, int, int)) -> (int, int, int) {
    (fx_mul_raw(a.0, b.0), fx_mul_raw(a.1, b.1), fx_mul_raw(a.2, b.2))
}

/// The fixed-point dot product.
pub open spec fn dot3(a: (int, int, int), b: (int, int, int)) -> int {
    fx_mul_raw(a.0, b.0) + fx_mul_raw(a.1, b.1) + fx_mul_raw(a.2, b.2)
}

/// The fixed-point cross product.
pub open spec fn cross3(a: (int, int, int), b: (int, int, int)) -> (int, int, int) {
    (
        fx_mul_raw(a.1, b.2) - fx_mul_raw(a.2, b.1),
        fx_mul_raw(a.2, b.0) - fx_mul_raw(a.0, b.2),
        fx_mul_raw(a.0, b.1) - fx_mul_raw(a.1, b.0),
    )
}

/// The raw length of a vector: the rounded square root of its squared length.
pub open spec fn len3(a: (int, int, int)) -> int {
    sqrt_floor(dot3(a, a) * (SCALE as int))
}

/// Normalization. A vector too short to divide by is replaced by the
/// vertical unit vector, the same substitution the executable code makes.
pub open spec fn unit3(a: (int, int, int)) -> (int, int, int) {
    if dot3(a, a) >= 1 {
        divs3(a, len3(a))
    } else {
        (0, SCALE as int, 0)
    }
}

/// Mirror reflection of `v` about the normal `n`.
pub open spec fn reflect3(v: (int, int, int), n: (int, int, int)) -> (int, int, int) {
    sub3(v, scale3(n, 2 * dot3(v, n)))
}

pub open spec fn max0(x: int) -> int {
    if x < 0 {
        0
    } else {
        x
    }
}

/// Clamp to the fixed-point interval [-1, 1].
pub open spec fn clamp_one(x: int) -> int {
    if x > SCALE as int {
        SCALE as int
    } else if x < -(SCALE as int) {
        -(SCALE as int)
    } else {
        x
    }
}

/// Refraction of `v` at a surface with normal `n` and refractive ratio
/// `ratio`, by the perpendicular/parallel decomposition. The incidence
/// cosine is clamped to the representable [-1, 1].
pub open spec fn refract3(v: (int, int, int), n: (int, int, int), ratio: int) -> (int, int, int) {
    let cos = clamp_one(dot3(neg3(v), n));
    let perp = scale3(add3(v, scale3(n, cos)), ratio);
    let par_len = sqrt_floor(iabs(SCALE as int - dot3(perp, perp)) * (SCALE as int));
    add3(perp, scale3(n, -par_len))
}

/// Square-root gamma encoding, componentwise, after clamping below at zero.
pub open spec fn gamma3(a: (int, int, int)) -> (int, int, int) {
    (
        sqrt_floor(max0(a.0) * (SCALE as int)),
        sqrt_floor(max0(a.1) * (SCALE as int)),
        sqrt_floor(max0(a.2) * (SCALE as int)),
    )
}

/// A dot product of vectors whose components are bounded by `m` and `n` is
/// bounded by three times the scaled product of the bounds.
pub proof fn lemma_dot3_bound(a: (int, int, int), b: (int, int, int), m: int, n: int)
    requires
        tb3(a, m),
        tb3(b, n),
    ensures
        iabs(dot3(a, b)) <= 3 * (m * n / (SCALE as int)),
        0 <= m * n,
{
    lemma_mul_raw_bound(a.0, b.0, m, n);
    lemma_mul_raw_bound(a.1, b.1, m, n);
    lemma_mul_raw_bound(a.2, b.2, m, n);
}

/// A square is nonnegative, and no square exceeds the full dot product of a
/// vector with itself.
pub proof fn lemma_dot3_self(a: (int, int, int))
    ensures
        0 <= dot3(a, a),
        fx_mul_raw(a.0, a.0) <= dot3(a, a),
        fx_mul_raw(a.1, a.1) <= dot3(a, a),
        fx_mul_raw(a.2, a.2) <= dot3(a, a),
        fx_mul_raw(a.0, a.0) >= 0,
        fx_mul_raw(a.1, a.1) >= 0,
        fx_mul_raw(a.2, a.2) >= 0,
{
    lemma_mul_raw_bound(a.0, a.0, iabs(a.0), iabs(a.0));
    lemma_mul_raw_bound(a.1, a.1, iabs(a.1), iabs(a.1));
    lemma_mul_raw_bound(a.2, a.2, iabs(a.2), iabs(a.2));
}

/// Each component of a cross product of bounded vectors is bounded by
/// twice the scaled product of the bounds.
pub proof fn lemma_cross3_bound(a: (int, int, int), b: (int, int, int), m: int, n: int)
    requires
        tb3(a, m),
        tb3(b, n),
    ensures
        tb3(cross3(a, b), 2 * (m * n / (SCALE as int))),
{
    lemma_mul_raw_bound(a.1, b.2, m, n);
    lemma_mul_raw_bound(a.2, b.1, m, n);
    lemma_mul_raw_bound(a.2, b.0, m, n);
    lemma_mul_raw_bound(a.0, b.2, m, n);
    lemma_mul_raw_bound(a.0, b.1, m, n);
    lemma_mul_raw_bound(a.1, b.0, m, n);
}

/// The dot product is commutative.
pub proof fn lemma_dot3_comm(a: (int, int, int), b: (int, int, int))
    ensures
        dot3(a, b) == dot3(b, a),
{
    lemma_fx_mul_comm(a.0, b.0);
    lemma_fx_mul_comm(a.1, b.1);
    lemma_fx_mul_comm(a.2, b.2);
}

/// Negating one operand negates the dot product.
pub proof fn lemma_dot3_neg(a: (int, int, int), b: (int, int, int))
    ensures
        dot3(neg3(a), b) == -dot3(a, b),
{
    lemma_fx_mul_neg(a.0, b.0);
    lemma_fx_mul_neg(a.1, b.1);
    lemma_fx_mul_neg(a.2, b.2);
}

/// A component of a normalized vector is bounded: division by the vector's
/// own length cannot produce more than about one unit.
pub proof fn lemma_unit_comp_bound(a: int, q: int, l: int)
    requires
        1 <= q,
        iabs(a) * iabs(a) / (SCALE as int) <= q,
        is_sqrt(q * (SCALE as int), l),
    ensures
        iabs(fx_div_raw(a, l)) == iabs(a) * (SCALE as int) / l,
        iabs(a) * (SCALE as int) / l <= UNIT_LIM as int,
        256 <= l,
{
    let m = iabs(a);
    let s = SCALE as int;
    assert(65536 <= q * s) by (nonlinear_arith)
        requires
            1 <= q,
            s == 65536,
    ;
    assert(256 <= l) by (nonlinear_arith)
        requires
            0 <= l,
            65536 <= q * s,
            q * s < (l + 1) * (l + 1),
    ;
    assert(iabs(fx_div_raw(a, l)) == m * s / l) by {
        assert(l >= 256);
        assert(m * s >= 0) by (nonlinear_arith)
            requires
                m >= 0,
                s > 0,
        ;
        assert(m * s / l >= 0) by (nonlinear_arith)
            requires
                m * s >= 0,
                l > 0,
        ;
    }
    if m < 32769 {
        lemma_div_is_ordered_by_denominator(m * s, 256, l);
        assert(m * s / 256 <= UNIT_LIM as int) by (nonlinear_arith)
            requires
                0 <= m < 32769,
                s == 65536,
                UNIT_LIM == 8388608i128,
        ;
    } else {
        // q >= floor(m*m/s) gives q*s > m*m - s, and m > s/2 gives
        // m*m - s >= (m-1)*(m-1), so l >= m - 1.
        lemma_fundamental_div_mod(m * m, s);
        assert(q * s >= (m * m / s) * s) by (nonlinear_arith)
            requires
                q >= m * m / s,
                s > 0,
        ;
        assert((m * m / s) * s > m * m - s) by (nonlinear_arith)
            requires
                m * m == s * (m * m / s) + (m * m) % s,
                0 <= (m * m) % s < s,
        ;
        assert(m * m - s >= (m - 1) * (m - 1)) by (nonlinear_arith)
            requires
                m >= 32769,
                s == 65536,
        ;
        assert(l >= m - 1) by (nonlinear_arith)
            requires
                q * s < (l + 1) * (l + 1),
                q * s > (m - 1) * (m - 1) - 1,
                0 <= l,
                2 <= m,
        ;
        lemma_div_is_ordered_by_denominator(m * s, m - 1, l);
        assert(m * s <= (m - 1) * (2 * s)) by (nonlinear_arith)
            requires
                m >= 2,
                s == 65536,
        ;
        lemma_div_is_ordered(m * s, (m - 1) * (2 * s), m - 1);
        lemma_div_multiples_vanish(2 * s, m - 1);
        assert(m * s / l <= m * s / (m - 1));
        assert(m * s / (m - 1) <= ((m - 1) * (2 * s)) / (m - 1));
        assert(m * s / l <= 2 * s);
    }
}

impl<T> Vec3<T> {
    /// The vector with the given components.
    pub fn new(x: T, y: T, z: T) -> (r: Vec3<T>)
        ensures
            r == (Vec3 { x, y, z }),
    {
        Vec3 { x, y, z }
    }

    /// The first component.
    pub fn x(self) -> (r: T)
        ensures
            r == self.x,
    {
        self.x
    }

    /// The second component.
    pub fn y(self) -> (r: T)
        ensures
            r == self.y,
    {
        self.y
    }

    /// The third component.
    pub fn z(self) -> (r: T)
        ensures
            r == self.z,
    {
        self.z
    }

    /// All three components at once.
    pub fn all(self) -> (r: (T, T, T))
        ensures
            r == (self.x, self.y, self.z),
    {
        (self.x, self.y, self.z)
    }
}

impl Vec3<Fx> {
    /// The zero vector.
    pub fn zero() -> (r: Vec3<Fx>)
        ensures
            v3(r) == (0int, 0int, 0int),
    {
        Vec3 { x: Fx::zero(), y: Fx::zero(), z: Fx::zero() }
    }

    /// Exact componentwise sum.
    pub fn add(self, o: Vec3<Fx>) -> (r: Vec3<Fx>)
        requires
            vbound(self, ADD_LIM as int),
            vbound(o, ADD_LIM as int),
        ensures
            v3(r) == add3(v3(self), v3(o)),
    {
        Vec3 { x: self.x.add(o.x), y: self.y.add(o.y), z: self.z.add(o.z) }
    }

    /// Exact componentwise difference.
    pub fn sub(self, o: Vec3<Fx>) -> (r: Vec3<Fx>)
        requires
            vbound(self, ADD_LIM as int),
            vbound(o, ADD_LIM as int),
        ensures
            v3(r) == sub3(v3(self), v3(o)),
    {
        Vec3 { x: self.x.sub(o.x), y: self.y.sub(o.y), z: self.z.sub(o.z) }
    }

    /// Exact componentwise negation.
    pub fn neg(self) -> (r: Vec3<Fx>)
        requires
            vbound(self, ADD_LIM as int),
        ensures
            v3(r) == neg3(v3(self)),
    {
        Vec3 { x: self.x.neg(), y: self.y.neg(), z: self.z.neg() }
    }

    /// Scaling by a fixed-point factor.
    pub fn scale(self, f: Fx) -> (r: Vec3<Fx>)
        requires
            vbound(self, VLIM as int),
            iabs(f.raw as int) <= VLIM as int,
        ensures
            v3(r) == scale3(v3(self), f.raw as int),
    {
        proof {
            lemma_mul_raw_bound(self.x.raw as int, f.raw as int, VLIM as int, VLIM as int);
            lemma_mul_raw_bound(self.y.raw as int, f.raw as int, VLIM as int, VLIM as int);
            lemma_mul_raw_bound(self.z.raw as int, f.raw as int, VLIM as int, VLIM as int);
            assert((VLIM as int) * (VLIM as int) <= MUL_PROD_LIM as int) by (nonlinear_arith)
                requires
                    VLIM == 1152921504606846976i128,
                    MUL_PROD_LIM == 21267647932558653966460912964485513216i128,
            ;
        }
        Vec3 { x: self.x.mul(f), y: self.y.mul(f), z: self.z.mul(f) }
    }

    /// Division by a fixed-point scalar.
    pub fn div(self, f: Fx) -> (r: Vec3<Fx>)
        requires
            f.raw != 0,
            iabs(f.raw as int) <= ADD_LIM as int,
            vbound(self, DIV_NUM_LIM as int),
        ensures
            v3(r) == divs3(v3(self), f.raw as int),
    {
        Vec3 { x: self.x.div(f), y: self.y.div(f), z: self.z.div(f) }
    }

    /// The componentwise (Hadamard) product.
    pub fn mul(&self, o: &Vec3<Fx>) -> (r: Vec3<Fx>)
        requires
            vbound(*self, VLIM as int),
            vbound(*o, VLIM as int),
        ensures
            v3(r) == mul3(v3(*self), v3(*o)),
    {
        proof {
            lemma_mul_raw_bound(self.x.raw as int, o.x.raw as int, VLIM as int, VLIM as int);
            lemma_mul_raw_bound(self.y.raw as int, o.y.raw as int, VLIM as int, VLIM as int);
            lemma_mul_raw_bound(self.z.raw as int, o.z.raw as int, VLIM as int, VLIM as int);
            assert((VLIM as int) * (VLIM as int) <= MUL_PROD_LIM as int) by (nonlinear_arith)
                requires
                    VLIM == 1152921504606846976i128,
                    MUL_PROD_LIM == 21267647932558653966460912964485513216i128,
            ;
        }
        Vec3 { x: self.x.mul(o.x), y: self.y.mul(o.y), z: self.z.mul(o.z) }
    }

    /// The fixed-point dot product.
    pub fn dot(&self, o: &Vec3<Fx>) -> (r: Fx)
        requires
            vbound(*self, VLIM as int),
            vbound(*o, VLIM as int),
        ensures
            r.raw == dot3(v3(*self), v3(*o)),
    {
        proof {
            lemma_mul_raw_bound(self.x.raw as int, o.x.raw as int, VLIM as int, VLIM as int);
            lemma_mul_raw_bound(self.y.raw as int, o.y.raw as int, VLIM as int, VLIM as int);
            lemma_mul_raw_bound(self.z.raw as int, o.z.raw as int, VLIM as int, VLIM as int);
            assert((VLIM as int) * (VLIM as int) <= MUL_PROD_LIM as int) by (nonlinear_arith)
                requires
                    VLIM == 1152921504606846976i128,
                    MUL_PROD_LIM == 21267647932558653966460912964485513216i128,
            ;
        }
        let m0 = self.x.mul(o.x);
        let m1 = self.y.mul(o.y);
        let m2 = self.z.mul(o.z);
        m0.add(m1).add(m2)
    }

    /// The squared length: the dot product of the vector with itself.
    pub fn squared_length(self) -> (r: Fx)
        requires
            vbound(self, VLIM as int),
        ensures
            r.raw == dot3(v3(self), v3(self)),
            r.raw >= 0,
    {
        proof {
            lemma_dot3_self(v3(self));
        }
        self.dot(&self)
    }

    /// The length: the rounded square root of the squared length.
    pub fn length(self) -> (r: Fx)
        requires
            vbound(self, VLIM as int),
        ensures
            r.raw == len3(v3(self)),
            is_sqrt(dot3(v3(self), v3(self)) * (SCALE as int), r.raw as int),
            0 <= r.raw <= 4611686018427387904,
    {
        proof {
            lemma_dot3_self(v3(self));
            lemma_dot3_bound(v3(self), v3(self), VLIM as int, VLIM as int);
            assert(3 * ((VLIM as int) * (VLIM as int) / (SCALE as int)) < DIV_NUM_LIM as int)
                by (nonlinear_arith)
                requires
                    VLIM == 1152921504606846976i128,
                    SCALE == 65536i128,
                    DIV_NUM_LIM == 324518553658426726783156020576256i128,
            ;
        }
        let q = self.squared_length();
        q.sqrt()
    }

    /// The unit vector in this vector's direction.
    pub fn unit(&self) -> (r: Vec3<Fx>)
        requires
            vbound(*self, VLIM as int),
            dot3(v3(*self), v3(*self)) >= 1,
        ensures
            v3(r) == unit3(v3(*self)),
            vbound(r, UNIT_LIM as int),
    {
        let l = self.length();
        proof {
            lemma_dot3_self(v3(*self));
            let q = dot3(v3(*self), v3(*self));
            lemma_mul_raw_bound(self.x.raw as int, self.x.raw as int, iabs(self.x.raw as int), iabs(self.x.raw as int));
            lemma_mul_raw_bound(self.y.raw as int, self.y.raw as int, iabs(self.y.raw as int), iabs(self.y.raw as int));
            lemma_mul_raw_bound(self.z.raw as int, self.z.raw as int, iabs(self.z.raw as int), iabs(self.z.raw as int));
            lemma_unit_comp_bound(self.x.raw as int, q, l.raw as int);
            lemma_unit_comp_bound(self.y.raw as int, q, l.raw as int);
            lemma_unit_comp_bound(self.z.raw as int, q, l.raw as int);
        }
        Vec3 { x: self.x.div(l), y: self.y.div(l), z: self.z.div(l) }
    }

    /// Normalization with the substitution for degenerate input: a vector
    /// shorter than one raw step becomes the vertical unit vector.
    pub fn unit_dir(&self) -> (r: Vec3<Fx>)
        requires
            vbound(*self, VLIM as int),
        ensures
            v3(r) == unit3(v3(*self)),
            vbound(r, UNIT_LIM as int),
    {
        let q = self.squared_length();
        if q.raw >= 1 {
            self.unit()
        } else {
            Vec3 { x: Fx::zero(), y: Fx::one(), z: Fx::zero() }
        }
    }

    /// The fixed-point cross product.
    pub fn cross(&self, o: &Vec3<Fx>) -> (r: Vec3<Fx>)
        requires
            vbound(*self, VLIM as int),
            vbound(*o, VLIM as int),
        ensures
            v3(r) == cross3(v3(*self), v3(*o)),
    {
        proof {
            lemma_mul_raw_bound(self.y.raw as int, o.z.raw as int, VLIM as int, VLIM as int);
            lemma_mul_raw_bound(self.z.raw as int, o.y.raw as int, VLIM as int, VLIM as int);
            lemma_mul_raw_bound(self.z.raw as int, o.x.raw as int, VLIM as int, VLIM as int);
            lemma_mul_raw_bound(self.x.raw as int, o.z.raw as int, VLIM as int, VLIM as int);
            lemma_mul_raw_bound(self.x.raw as int, o.y.raw as int, VLIM as int, VLIM as int);
            lemma_mul_raw_bound(self.y.raw as int, o.x.raw as int, VLIM as int, VLIM as int);
            assert((VLIM as int) * (VLIM as int) <= MUL_PROD_LIM as int) by (nonlinear_arith)
                requires
                    VLIM == 1152921504606846976i128,
                    MUL_PROD_LIM == 21267647932558653966460912964485513216i128,
            ;
        }
        Vec3 {
            x: self.y.mul(o.z).sub(self.z.mul(o.y)),
            y: self.z.mul(o.x).sub(self.x.mul(o.z)),
            z: self.x.mul(o.y).sub(self.y.mul(o.x)),
        }
    }

    /// Square-root gamma encoding of a color, componentwise.
    pub fn to_gamma(self) -> (r: Vec3<Fx>)
        requires
            vbound(self, DIV_NUM_LIM as int),
        ensures
            v3(r) == gamma3(v3(self)),
    {
        let zx = self.x.max(Fx::zero());
        let zy = self.y.max(Fx::zero());
        let zz = self.z.max(Fx::zero());
        Vec3 { x: zx.sqrt(), y: zy.sqrt(), z: zz.sqrt() }
    }

    /// Whether every component lies within the representable scene volume.
    pub fn fits(&self) -> (r: bool)
        ensures
            r == vbound(*self, FIT as int),
    {
        -FIT <= self.x.raw && self.x.raw <= FIT && -FIT <= self.y.raw && self.y.raw <= FIT
            && -FIT <= self.z.raw && self.z.raw <= FIT
    }

    /// True exactly when every component is zero: the fixed-point analogue
    /// of a length below any positive tolerance under one raw step.
    pub fn near_zero(&self) -> (r: bool)
        ensures
            r == (v3(*self) == (0int, 0int, 0int)),
    {
        self.x.raw == 0 && self.y.raw == 0 && self.z.raw == 0
    }

    /// Mirror reflection about the normal `n`.
    pub fn reflect(&self, n: &Vec3<Fx>) -> (r: Vec3<Fx>)
        requires
            vbound(*self, UNIT_LIM as int),
            vbound(*n, UNIT_LIM as int),
        ensures
            v3(r) == reflect3(v3(*self), v3(*n)),
            vbound(r, 1099511627776int),
            vbound(r, DIR_LIM as int),
    {
        let d = self.dot(n);
        proof {
            lemma_dot3_bound(v3(*self), v3(*n), UNIT_LIM as int, UNIT_LIM as int);
            assert(3 * ((UNIT_LIM as int) * (UNIT_LIM as int) / (SCALE as int))
                == 3221225472int) by (nonlinear_arith)
                requires
                    UNIT_LIM == 8388608i128,
                    SCALE == 65536i128,
            ;
            lemma_mul_raw_bound(n.x.raw as int, 2 * d.raw, UNIT_LIM as int, 6442450944int);
            lemma_mul_raw_bound(n.y.raw as int, 2 * d.raw, UNIT_LIM as int, 6442450944int);
            lemma_mul_raw_bound(n.z.raw as int, 2 * d.raw, UNIT_LIM as int, 6442450944int);
            assert((UNIT_LIM as int) * 6442450944int / (SCALE as int) == 824633720832int)
                by (nonlinear_arith)
                requires
                    UNIT_LIM == 8388608i128,
                    SCALE == 65536i128,
            ;
        }
        let t = d.add(d);
        let s = Vec3 { x: n.x.mul(t), y: n.y.mul(t), z: n.z.mul(t) };
        proof {
            assert(v3(s) == scale3(v3(*n), 2 * d.raw));
        }
        self.sub(s)
    }

    /// Refraction at a surface with normal `n` and refractive ratio `ratio`.
    /// The incidence cosine is clamped to the representable [-1, 1].
    pub fn refract(&self, n: &Vec3<Fx>, etai_over_etat: Fx) -> (r: Vec3<Fx>)
        requires
            vbound(*self, UNIT_LIM as int),
            vbound(*n, UNIT_LIM as int),
            0 < etai_over_etat.raw <= 524288,
        ensures
            v3(r) == refract3(v3(*self), v3(*n), etai_over_etat.raw as int),
            vbound(r, DIR_LIM as int),
    {
        let d = self.neg().dot(n);
        let cos = d.min(Fx::one()).max(Fx::one().neg());
        proof {
            assert(cos.raw == clamp_one(dot3(neg3(v3(*self)), v3(*n))));
            lemma_mul_raw_bound(n.x.raw as int, cos.raw as int, UNIT_LIM as int, SCALE as int);
            lemma_mul_raw_bound(n.y.raw as int, cos.raw as int, UNIT_LIM as int, SCALE as int);
            lemma_mul_raw_bound(n.z.raw as int, cos.raw as int, UNIT_LIM as int, SCALE as int);
        }
        let nc = Vec3 { x: n.x.mul(cos), y: n.y.mul(cos), z: n.z.mul(cos) };
        let base = self.add(nc);
        proof {
            assert(vbound(base, 16777216int + 8388608int));
            lemma_mul_raw_bound(base.x.raw as int, etai_over_etat.raw as int, 25165824int, 524288int);
            lemma_mul_raw_bound(base.y.raw as int, etai_over_etat.raw as int, 25165824int, 524288int);
            lemma_mul_raw_bound(base.z.raw as int, etai_over_etat.raw as int, 25165824int, 524288int);
            assert(25165824int * 524288int / (SCALE as int) == 201326592int) by (nonlinear_arith)
                requires
                    SCALE == 65536i128,
            ;
        }
        let perp = Vec3 {
            x: base.x.mul(etai_over_etat),
            y: base.y.mul(etai_over_etat),
            z: base.z.mul(etai_over_etat),
        };
        proof {
            assert(v3(perp) == scale3(add3(v3(*self), scale3(v3(*n), cos.raw as int)),
                etai_over_etat.raw as int));
            lemma_dot3_bound(v3(perp), v3(perp), 201326592int, 201326592int);
            assert(3 * (201326592int * 201326592int / (SCALE as int)) == 1855425871872int)
                by (nonlinear_arith)
                requires
                    SCALE == 65536i128,
            ;
        }
        let ps = perp.squared_length();
        let inner = Fx::one().sub(ps).abs();
        let par_len = inner.sqrt();
        proof {
            assert(0 <= par_len.raw);
            assert(par_len.raw * par_len.raw <= inner.raw * (SCALE as int));
            assert(par_len.raw <= 400000000int) by (nonlinear_arith)
                requires
                    0 <= par_len.raw,
                    par_len.raw * par_len.raw <= inner.raw * (SCALE as int),
                    inner.raw <= 1855425937408i128,
                    SCALE == 65536i128,
            ;
            lemma_mul_raw_bound(n.x.raw as int, -(par_len.raw as int), UNIT_LIM as int, 400000000int);
            lemma_mul_raw_bound(n.y.raw as int, -(par_len.raw as int), UNIT_LIM as int, 400000000int);
            lemma_mul_raw_bound(n.z.raw as int, -(par_len.raw as int), UNIT_LIM as int, 400000000int);
            assert((UNIT_LIM as int) * 400000000int / (SCALE as int) <= 51200000000int)
                by (nonlinear_arith)
                requires
                    UNIT_LIM == 8388608i128,
                    SCALE == 65536i128,
            ;
        }
        let neg_len = par_len.neg();
        let par = Vec3 { x: n.x.mul(neg_len), y: n.y.mul(neg_len), z: n.z.mul(neg_len) };
        proof {
            assert(v3(par) == scale3(v3(*n), -(par_len.raw as int)));
        }
        perp.add(par)
    }
}

/// The lower end of the sampler's acceptance window: a quarter of a unit
/// of squared length. Truncated normalization of a shorter draw would
/// stray too far from unit length.
pub const DRAW_MIN_SQ: i128 = 16384;

/// The largest component magnitude of a normalized accepted draw: one unit
/// and two raw steps.
pub const NEAR_UNIT: i128 = 65538;

/// With an accepted squared length of at least a quarter unit, a component
/// of the truncated normalization is at most one unit and two raw steps.
pub proof fn lemma_unit_comp_near_one(a: int, q: int, l: int)
    requires
        DRAW_MIN_SQ as int <= q,
        iabs(a) * iabs(a) / (SCALE as int) <= q,
        is_sqrt(q * (SCALE as int), l),
    ensures
        iabs(a) * (SCALE as int) / l <= NEAR_UNIT as int,
{
    let m = iabs(a);
    let s = SCALE as int;
    // A quarter-unit squared length forces a half-unit rounded length.
    assert(1073741824 <= q * s) by (nonlinear_arith)
        requires
            16384 <= q,
            s == 65536,
    ;
    assert(32768 <= l) by (nonlinear_arith)
        requires
            0 <= l,
            1073741824 <= q * s,
            q * s < (l + 1) * (l + 1),
    ;
    if m <= 32768 {
        assert(0 <= m * s <= 2147483648) by (nonlinear_arith)
            requires
                0 <= m <= 32768,
                s == 65536,
        ;
        lemma_div_is_ordered(m * s, 2147483648, l);
        lemma_div_is_ordered_by_denominator(2147483648, 32768, l);
        assert(2147483648int / 32768int == 65536int) by (nonlinear_arith);
    } else {
        // As for the general bound: the rounded length is at least m - 1.
        lemma_fundamental_div_mod(m * m, s);
        assert(q * s >= (m * m / s) * s) by (nonlinear_arith)
            requires
                q >= m * m / s,
                s > 0,
        ;
        assert((m * m / s) * s > m * m - s) by (nonlinear_arith)
            requires
                m * m == s * (m * m / s) + (m * m) % s,
                0 <= (m * m) % s < s,
        ;
        assert(m * m - s >= (m - 1) * (m - 1)) by (nonlinear_arith)
            requires
                m >= 32769,
                s == 65536,
        ;
        assert(l >= m - 1) by (nonlinear_arith)
            requires
                q * s < (l + 1) * (l + 1),
                q * s > (m - 1) * (m - 1) - 1,
                0 <= l,
                2 <= m,
        ;
        assert(0 <= m * s) by (nonlinear_arith)
            requires
                0 <= m,
                s == 65536,
        ;
        lemma_div_is_ordered_by_denominator(m * s, m - 1, l);
        assert(m * s <= (m - 1) * 65538) by (nonlinear_arith)
            requires
                m >= 32769,
                s == 65536,
        ;
        lemma_div_is_ordered(m * s, (m - 1) * 65538, m - 1);
        lemma_div_multiples_vanish(65538, m - 1);
        assert(m * s / l <= m * s / (m - 1));
        assert(m * s / (m - 1) <= ((m - 1) * 65538) / (m - 1));
    }
}

/// `r` is the truncated normalization of an accepted rejection-sampling
/// draw — a vector with components in [-1, 1] whose squared length lies in
/// the accepted window [1/4, 1] — and is therefore within two raw steps of
/// unit length per component.
pub open spec fn unit_sample3(r: (int, int, int)) -> bool {
    &&& tb3(r, NEAR_UNIT as int)
    &&& exists|w: (int, int, int)|
        {
            &&& tb3(w, SCALE as int)
            &&& DRAW_MIN_SQ as int <= dot3(w, w) <= SCALE as int
            &&& r == unit3(w)
        }
}

/// The vertical unit vector is its own normalization, so it is itself a
/// valid accepted draw: the rejection loop's fallback stays in the stated
/// image.
pub proof fn lemma_vertical_unit_sample()
    ensures
        unit_sample3((0int, SCALE as int, 0int)),
        unit3((0int, SCALE as int, 0int)) == (0int, SCALE as int, 0int),
{
    let s = SCALE as int;
    let w = (0int, s, 0int);
    lemma_fx_mul_zero(0);
    lemma_fx_mul_one(s);
    assert(dot3(w, w) == s);
    lemma_sqrt_small();
    assert(s * s == s * s) by (nonlinear_arith);
    assert(len3(w) == s);
    assert(iabs(0) * s / iabs(s) == 0) by (nonlinear_arith)
        requires
            s == 65536,
    ;
    assert(fx_div_raw(0, s) == 0);
    lemma_div_multiples_vanish(s, s);
    assert(fx_div_raw(s, s) == s * s / s);
    assert(unit3(w) == w);
    assert(tb3(w, s) && DRAW_MIN_SQ as int <= dot3(w, w) <= s && unit3(w) == w);
}

/// A random vector of nearly unit length: components drawn uniformly in
/// [-1, 1) until the squared length lies in [1/4, 1], then normalized, so
/// every component of the result is within two raw steps of one unit.
/// Draws shorter than half a unit are rejected: their truncated
/// normalization would stray from unit length. The number of tries is
/// capped; after the cap the vertical unit vector stands in, which is
/// itself the normalization of an accepted draw.
pub fn rand_unit_vec(rng: &mut rand::rngs::StdRng) -> (r: Vec3<Fx>)
    ensures
        vbound(r, NEAR_UNIT as int),
        vbound(r, UNIT_LIM as int),
        unit_sample3(v3(r)),
{
    let mut tries: u32 = 0;
    while tries < 64
        invariant
            tries <= 64,
        decreases 64 - tries,
    {
        let x = next_symmetric_fx(rng);
        let y = next_symmetric_fx(rng);
        let z = next_symmetric_fx(rng);
        let v = Vec3 { x, y, z };
        let lensq = v.squared_length();
        if DRAW_MIN_SQ <= lensq.raw && lensq.raw <= SCALE {
            let u = v.unit();
            proof {
                let w = v3(v);
                let q = dot3(w, w);
                let l = sqrt_floor(q * (SCALE as int));
                lemma_dot3_self(w);
                assert(q * (SCALE as int) >= 0) by (nonlinear_arith)
                    requires
                        q >= 0,
                        SCALE == 65536i128,
                ;
                lemma_sqrt_exists((q * (SCALE as int)) as nat);
                lemma_unit_comp_bound(w.0, q, l);
                lemma_unit_comp_bound(w.1, q, l);
                lemma_unit_comp_bound(w.2, q, l);
                lemma_unit_comp_near_one(w.0, q, l);
                lemma_unit_comp_near_one(w.1, q, l);
                lemma_unit_comp_near_one(w.2, q, l);
                assert(tb3(v3(u), NEAR_UNIT as int));
                assert(tb3(w, SCALE as int) && DRAW_MIN_SQ as int <= dot3(w, w) <= SCALE as int
                    && v3(u) == unit3(w));
            }
            return u;
        }
        tries = tries + 1;
    }
    let up = Vec3 { x: Fx::zero(), y: Fx::one(), z: Fx::zero() };
    proof {
        lemma_vertical_unit_sample();
    }
    up
}

/// A random point in the closed unit disk of the first two axes: components
/// drawn uniformly in [-1, 1) until the squared length is at most one. The
/// number of tries is capped; after the cap the disk's center stands in.
pub fn rand_in_unit_disk(rng: &mut rand::rngs::StdRng) -> (r: Vec3<Fx>)
    ensures
        vbound(r, SCALE as int),
        r.z.raw == 0,
        dot3(v3(r), v3(r)) <= SCALE as int,
{
    let mut tries: u32 = 0;
    while tries < 64
        invariant
            tries <= 64,
        decreases 64 - tries,
    {
        let x = next_symmetric_fx(rng);
        let y = next_symmetric_fx(rng);
        let v = Vec3 { x, y, z: Fx::zero() };
        let lensq = v.squared_length();
        if lensq.raw <= SCALE {
            return v;
        }
        tries = tries + 1;
    }
    let center = Vec3 { x: Fx::zero(), y: Fx::zero(), z: Fx::zero() };
    proof {
        lemma_fx_mul_zero(0);
    }
    center
}

impl Default for Vec3<Fx> {
    /// The zero vector.
    fn default() -> (r: Vec3<Fx>)
        ensures
            v3(r) == (0int, 0int, 0int),
    {
        Vec3 { x: Fx { raw: 0 }, y: Fx { raw: 0 }, z: Fx { raw: 0 } }
    }
}

} // verus!
