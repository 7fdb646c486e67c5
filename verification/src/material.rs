use vstd::prelude::*;
use crate::fx::{
    Fx, iabs, fx_mul_raw, fx_div_raw, sqrt_floor, is_sqrt, lemma_mul_raw_bound, lemma_fx_mul_zero,
    lemma_fx_mul_one, lemma_fx_mul_comm, lemma_fx_mul_le, lemma_fx_mul_nonneg, lemma_sqrt_small,
    lemma_sqrt_exists, lemma_sqrt_unique, SCALE, MUL_PROD_LIM,
};
use crate::vec3::{
    Vec3, Color, v3, tb3, vbound, add3, sub3, neg3, scale3, dot3, max0, clamp_one, reflect3,
    refract3, unit3, unit_sample3, rand_unit_vec, NEAR_UNIT, UNIT_LIM, DIR_LIM, VLIM,
};
use crate::ray::{Ray, ray_wf};
use crate::hittable::HitRecord;
use crate::rng::next_unit_fx;
use vstd::arithmetic::div_mod::lemma_div_is_ordered;
use vstd::arithmetic::div_mod::lemma_div_is_ordered_by_denominator;
use vstd::arithmetic::div_mod::lemma_div_multiples_vanish;

verus! {

/// Every component lies in the fixed-point interval [0, 1].
pub open spec fn color01(c: (int, int, int)) -> bool {
    &&& 0 <= c.0 <= SCALE as int
    &&& 0 <= c.1 <= SCALE as int
    &&& 0 <= c.2 <= SCALE as int
}

/// A diffuse surface: scatters into the normal's hemisphere.
#[derive(Clone, Copy, PartialEq, Eq, Structural, Debug)]
pub struct Lambertian {
    pub albedo: Color,
}

/// A reflective surface with a fuzz radius in [0, 1].
#[derive(Clone, Copy, PartialEq, Eq, Structural, Debug)]
pub struct Metal {
    pub albedo: Color,
    pub fuzz: Fx,
}

/// A refractive surface with the given index of refraction.
#[derive(Clone, Copy, PartialEq, Eq, Structural, Debug)]
pub struct Dielectric {
    pub ir: Fx,
}

/// The closed set of surface materials, dispatched by variant.
#[derive(Clone, Copy, PartialEq, Eq, Structural, Debug)]
pub enum Material {
    Lambertian(Lambertian),
    Metal(Metal),
    Dielectric(Dielectric),
}

/// The smallest and largest accepted raw index of refraction: 1/8 and 8.
pub const IR_MIN: i128 = 8192;

pub const IR_MAX: i128 = 524288;

/// The material's parameters are in range: albedo components in [0, 1],
/// fuzz in [0, 1], index of refraction between 1/8 and 8.
pub open spec fn mat_wf(m: Material) -> bool {
    match m {
        Material::Lambertian(l) => color01(v3(l.albedo)),
        Material::Metal(mt) => color01(v3(mt.albedo)) && 0 <= mt.fuzz.raw <= SCALE,
        Material::Dielectric(d) => IR_MIN <= d.ir.raw <= IR_MAX,
    }
}

/// The fixed attenuation a material applies whenever it scatters: the
/// albedo for the diffuse and reflective surfaces, white for glass.
pub open spec fn mat_attenuation3(m: Material) -> (int, int, int) {
    match m {
        Material::Lambertian(l) => v3(l.albedo),
        Material::Metal(mt) => v3(mt.albedo),
        Material::Dielectric(_) => (SCALE as int, SCALE as int, SCALE as int),
    }
}

/// The refractive ratio at the hit: the reciprocal index when the ray
/// enters the surface, the index itself when it leaves.
pub open spec fn diel_ratio3(ir: int, front_face: bool) -> int {
    if front_face {
        fx_div_raw(SCALE as int, ir)
    } else {
        ir
    }
}

/// Schlick's reflectance approximation at incidence cosine `cos` for the
/// refractive ratio `ratio`, in fixed point.
pub open spec fn schlick3(cos: int, ratio: int) -> int {
    let s = SCALE as int;
    let r0a = fx_div_raw(s - ratio, s + ratio);
    let r0 = fx_mul_raw(r0a, r0a);
    let omc = s - cos;
    let p2 = fx_mul_raw(omc, omc);
    let p4 = fx_mul_raw(p2, p2);
    let p5 = fx_mul_raw(p4, omc);
    r0 + fx_mul_raw(s - r0, p5)
}

/// The direction a dielectric scatters into, given the unit incoming
/// direction `u`, the oriented normal `n`, the raw index `ir`, the hit's
/// face flag and the uniform draw `d`: reflection on total internal
/// reflection or a winning Schlick draw, refraction otherwise.
pub open spec fn dielectric_dir3(
    u: (int, int, int),
    n: (int, int, int),
    ir: int,
    front_face: bool,
    d: int,
) -> (int, int, int) {
    let s = SCALE as int;
    let ratio = diel_ratio3(ir, front_face);
    let cos = clamp_one(dot3(neg3(u), n));
    let sin = sqrt_floor(max0(s - fx_mul_raw(cos, cos)) * s);
    if fx_mul_raw(ratio, sin) > s || schlick3(cos, ratio) > d {
        reflect3(u, n)
    } else {
        refract3(u, n, ratio)
    }
}

impl Lambertian {
    /// A diffuse material with the given albedo.
    pub fn new(albedo: Color) -> (r: Lambertian)
        requires
            color01(v3(albedo)),
        ensures
            r.albedo == albedo,
    {
        Lambertian { albedo }
    }

    /// Scatter: the new direction is the normal plus a random unit vector,
    /// with the bare normal standing in when that sum vanishes. Always
    /// scatters; the attenuation is the albedo.
    pub fn scatter(
        &self,
        _ray: &Ray,
        rec: &HitRecord,
        rng: &mut rand::rngs::StdRng,
    ) -> (r: Option<(Color, Ray)>)
        requires
            color01(v3(self.albedo)),
            vbound(rec.normal, UNIT_LIM as int),
        ensures
            r is Some,
            r matches Some(pair) ==> {
                &&& pair.0 == self.albedo
                &&& pair.1.origin == rec.p
                &&& vbound(pair.1.direction, DIR_LIM as int)
                &&& exists|u: (int, int, int)|
                    unit_sample3(u) && tb3(u, NEAR_UNIT as int) && v3(pair.1.direction) == (
                    if add3(v3(rec.normal), u) == (0int, 0int, 0int) {
                        v3(rec.normal)
                    } else {
                        add3(v3(rec.normal), u)
                    })
                &&& v3(rec.normal) != (0int, 0int, 0int) ==> v3(pair.1.direction) != (
                0int,
                0int,
                0int,
                )
            },
    {
        let u = rand_unit_vec(rng);
        let sum = rec.normal().add(u);
        let dir = if sum.near_zero() {
            rec.normal()
        } else {
            sum
        };
        proof {
            assert(unit_sample3(v3(u)) && tb3(v3(u), NEAR_UNIT as int) && v3(dir) == (
                if add3(v3(rec.normal), v3(u)) == (0int, 0int, 0int) {
                    v3(rec.normal)
                } else {
                    add3(v3(rec.normal), v3(u))
                }));
        }
        Some((self.albedo, Ray::new(rec.p(), dir)))
    }
}

impl Metal {
    /// A reflective material with the given albedo and fuzz radius.
    pub fn new(albedo: Color, fuzz: Fx) -> (r: Metal)
        requires
            color01(v3(albedo)),
            0 <= fuzz.raw <= SCALE,
        ensures
            r.albedo == albedo,
            r.fuzz == fuzz,
    {
        Metal { albedo, fuzz }
    }

    /// Scatter: mirror the unit incoming direction about the normal and
    /// perturb it by `fuzz` times a random unit vector. Absorbs (returns
    /// nothing) exactly when the perturbed direction points into the
    /// surface; with no fuzz that is decided by the mirrored direction
    /// alone, whatever was drawn.
    pub fn scatter(
        &self,
        ray: &Ray,
        rec: &HitRecord,
        rng: &mut rand::rngs::StdRng,
    ) -> (r: Option<(Color, Ray)>)
        requires
            color01(v3(self.albedo)),
            0 <= self.fuzz.raw <= SCALE,
            ray_wf(*ray),
            vbound(rec.normal, UNIT_LIM as int),
        ensures
            r matches Some(pair) ==> {
                &&& pair.0 == self.albedo
                &&& pair.1.origin == rec.p
                &&& vbound(pair.1.direction, DIR_LIM as int)
                &&& dot3(v3(pair.1.direction), v3(rec.normal)) > 0
                &&& exists|u: (int, int, int)|
                    unit_sample3(u) && tb3(u, NEAR_UNIT as int) && v3(pair.1.direction) == add3(
                        reflect3(unit3(v3(ray.direction)), v3(rec.normal)),
                        scale3(u, self.fuzz.raw as int),
                    )
            },
            (r is Some && self.fuzz.raw == 0) ==> (r matches Some(pair) && v3(pair.1.direction)
                == reflect3(unit3(v3(ray.direction)), v3(rec.normal))),
            self.fuzz.raw == 0 ==> (r is Some <==> dot3(
                reflect3(unit3(v3(ray.direction)), v3(rec.normal)),
                v3(rec.normal),
            ) > 0),
            r is None ==> exists|u: (int, int, int)|
                unit_sample3(u) && tb3(u, NEAR_UNIT as int) && dot3(
                    add3(
                        reflect3(unit3(v3(ray.direction)), v3(rec.normal)),
                        scale3(u, self.fuzz.raw as int),
                    ),
                    v3(rec.normal),
                ) <= 0,
    {
        let unit_in = ray.direction().unit_dir();
        let reflected = unit_in.reflect(&rec.normal());
        let u = rand_unit_vec(rng);
        proof {
            lemma_mul_raw_bound(u.x.raw as int, self.fuzz.raw as int, UNIT_LIM as int, SCALE as int);
            lemma_mul_raw_bound(u.y.raw as int, self.fuzz.raw as int, UNIT_LIM as int, SCALE as int);
            lemma_mul_raw_bound(u.z.raw as int, self.fuzz.raw as int, UNIT_LIM as int, SCALE as int);
            assert((UNIT_LIM as int) * (SCALE as int) <= MUL_PROD_LIM as int
                && (UNIT_LIM as int) * (SCALE as int) / (SCALE as int) == UNIT_LIM as int)
                by (nonlinear_arith)
                requires
                    UNIT_LIM == 8388608i128,
                    SCALE == 65536i128,
                    MUL_PROD_LIM == 21267647932558653966460912964485513216i128,
            ;
        }
        let fuzzed = Vec3 {
            x: u.x.mul(self.fuzz),
            y: u.y.mul(self.fuzz),
            z: u.z.mul(self.fuzz),
        };
        let dir = reflected.add(fuzzed);
        proof {
            assert(v3(fuzzed) == scale3(v3(u), self.fuzz.raw as int));
            if self.fuzz.raw == 0 {
                lemma_fx_mul_zero(u.x.raw as int);
                lemma_fx_mul_zero(u.y.raw as int);
                lemma_fx_mul_zero(u.z.raw as int);
                assert(v3(dir) == reflect3(unit3(v3(ray.direction)), v3(rec.normal)));
            }
            assert(unit_sample3(v3(u)) && tb3(v3(u), NEAR_UNIT as int) && v3(dir) == add3(
                reflect3(unit3(v3(ray.direction)), v3(rec.normal)),
                scale3(v3(u), self.fuzz.raw as int),
            ));
        }
        let scattered = Ray::new(rec.p(), dir);
        let aligned = scattered.direction().dot(&rec.normal());
        if aligned.raw > 0 {
            Some((self.albedo, scattered))
        } else {
            None
        }
    }
}

impl Dielectric {
    /// A refractive material with the given index of refraction.
    pub fn new(ir: Fx) -> (r: Dielectric)
        requires
            IR_MIN <= ir.raw <= IR_MAX,
        ensures
            r.ir == ir,
    {
        Dielectric { ir }
    }

    /// Schlick's reflectance approximation.
    fn reflectance(cosine: Fx, ref_idx: Fx) -> (r: Fx)
        requires
            -SCALE <= cosine.raw <= SCALE,
            IR_MIN <= ref_idx.raw <= IR_MAX,
        ensures
            r.raw == schlick3(cosine.raw as int, ref_idx.raw as int),
            0 <= r.raw <= 33 * SCALE,
            0 <= cosine.raw ==> r.raw <= SCALE,
    {
        let s_one = Fx::one();
        let num = s_one.sub(ref_idx);
        let den = s_one.add(ref_idx);
        let r0a = num.div(den);
        proof {
            let s = SCALE as int;
            let ir = ref_idx.raw as int;
            assert(iabs(s - ir) <= s + ir);
            assert(iabs(s - ir) * s <= (s + ir) * s) by (nonlinear_arith)
                requires
                    iabs(s - ir) <= s + ir,
                    s > 0,
            ;
            lemma_div_is_ordered(iabs(s - ir) * s, (s + ir) * s, s + ir);
            lemma_div_multiples_vanish(s, s + ir);
            assert(iabs(s - ir) * s >= 0) by (nonlinear_arith)
                requires
                    iabs(s - ir) >= 0,
                    s > 0,
            ;
            assert(iabs(s - ir) * s / (s + ir) >= 0) by (nonlinear_arith)
                requires
                    iabs(s - ir) * s >= 0,
                    s + ir > 0,
            ;
            assert(iabs(r0a.raw as int) <= s);
        }
        proof {
            lemma_mul_raw_bound(r0a.raw as int, r0a.raw as int, SCALE as int, SCALE as int);
            lemma_div_multiples_vanish(SCALE as int, SCALE as int);
            assert((SCALE as int) * (SCALE as int)
                <= MUL_PROD_LIM as int) by (nonlinear_arith)
                requires
                    SCALE == 65536i128,
                    MUL_PROD_LIM == 21267647932558653966460912964485513216i128,
            ;
        }
        let r0 = r0a.mul(r0a);
        proof {
            assert(r0.raw >= 0) by (nonlinear_arith)
                requires
                    r0.raw == fx_mul_raw(r0a.raw as int, r0a.raw as int),
                    fx_mul_raw(r0a.raw as int, r0a.raw as int) == iabs(r0a.raw as int) * iabs(
                        r0a.raw as int,
                    ) / (SCALE as int),
                    iabs(r0a.raw as int) >= 0,
                    SCALE == 65536i128,
            ;
            assert(0 <= r0.raw <= SCALE);
        }
        let omc = s_one.sub(cosine);
        proof {
            lemma_mul_raw_bound(omc.raw as int, omc.raw as int, 2 * SCALE as int, 2 * SCALE as int);
            assert((2 * SCALE as int) * (2 * SCALE as int) / (SCALE as int) == 4 * SCALE as int
                && (2 * SCALE as int) * (2 * SCALE as int) <= MUL_PROD_LIM as int)
                by (nonlinear_arith)
                requires
                    SCALE == 65536i128,
                    MUL_PROD_LIM == 21267647932558653966460912964485513216i128,
            ;
            lemma_fx_mul_nonneg(omc.raw as int, omc.raw as int);
        }
        let p2 = omc.mul(omc);
        proof {
            lemma_mul_raw_bound(p2.raw as int, p2.raw as int, 4 * SCALE as int, 4 * SCALE as int);
            assert((4 * SCALE as int) * (4 * SCALE as int) / (SCALE as int) == 16 * SCALE as int
                && (4 * SCALE as int) * (4 * SCALE as int) <= MUL_PROD_LIM as int)
                by (nonlinear_arith)
                requires
                    SCALE == 65536i128,
                    MUL_PROD_LIM == 21267647932558653966460912964485513216i128,
            ;
            lemma_fx_mul_nonneg(p2.raw as int, p2.raw as int);
        }
        let p4 = p2.mul(p2);
        proof {
            lemma_mul_raw_bound(p4.raw as int, omc.raw as int, 16 * SCALE as int, 2 * SCALE as int);
            assert((16 * SCALE as int) * (2 * SCALE as int) / (SCALE as int) == 32 * SCALE as int
                && (16 * SCALE as int) * (2 * SCALE as int) <= MUL_PROD_LIM as int)
                by (nonlinear_arith)
                requires
                    SCALE == 65536i128,
                    MUL_PROD_LIM == 21267647932558653966460912964485513216i128,
            ;
            lemma_fx_mul_nonneg(p4.raw as int, omc.raw as int);
        }
        let p5 = p4.mul(omc);
        let om_r0 = s_one.sub(r0);
        proof {
            lemma_fx_mul_le(om_r0.raw as int, p5.raw as int);
            lemma_mul_raw_bound(om_r0.raw as int, p5.raw as int, SCALE as int, 32 * SCALE as int);
        }
        let tail = om_r0.mul(p5);
        proof {
            // For a nonnegative incidence cosine the whole approximation
            // stays in [0, 1]: each power keeps a factor in [0, 1].
            if cosine.raw >= 0 {
                lemma_fx_mul_le(omc.raw as int, omc.raw as int);
                lemma_fx_mul_le(p2.raw as int, p2.raw as int);
                lemma_fx_mul_le(p4.raw as int, omc.raw as int);
                lemma_fx_mul_comm(om_r0.raw as int, p5.raw as int);
                lemma_fx_mul_le(p5.raw as int, om_r0.raw as int);
            }
        }
        r0.add(tail)
    }

    /// Scatter: pick reflection on total internal reflection or a winning
    /// Schlick draw, refraction otherwise. Always scatters; glass absorbs
    /// nothing, so the attenuation is white.
    pub fn scatter(
        &self,
        ray: &Ray,
        rec: &HitRecord,
        rng: &mut rand::rngs::StdRng,
    ) -> (r: Option<(Color, Ray)>)
        requires
            IR_MIN <= self.ir.raw <= IR_MAX,
            ray_wf(*ray),
            vbound(rec.normal, UNIT_LIM as int),
        ensures
            r is Some,
            r matches Some(pair) ==> {
                &&& v3(pair.0) == (SCALE as int, SCALE as int, SCALE as int)
                &&& pair.1.origin == rec.p
                &&& vbound(pair.1.direction, DIR_LIM as int)
                &&& exists|d: int|
                    0 <= d < SCALE as int && v3(pair.1.direction) == dielectric_dir3(
                        unit3(v3(ray.direction)),
                        v3(rec.normal),
                        self.ir.raw as int,
                        rec.front_face,
                        d,
                    )
            },
    {
        let s_one = Fx::one();
        let etai_over_etat = if rec.front_face() {
            let q = s_one.div(self.ir);
            proof {
                let s = SCALE as int;
                let ir = self.ir.raw as int;
                lemma_div_is_ordered_by_denominator(s * s, IR_MIN as int, ir);
                lemma_div_is_ordered_by_denominator(s * s, ir, IR_MAX as int);
                assert(s * s / (IR_MIN as int) == IR_MAX as int) by (nonlinear_arith)
                    requires
                        s == 65536,
                        IR_MIN == 8192i128,
                        IR_MAX == 524288i128,
                ;
                assert(s * s / (IR_MAX as int) == IR_MIN as int) by (nonlinear_arith)
                    requires
                        s == 65536,
                        IR_MIN == 8192i128,
                        IR_MAX == 524288i128,
                ;
            }
            q
        } else {
            self.ir
        };
        let unit_direction = ray.direction().unit_dir();
        let d0 = unit_direction.neg().dot(&rec.normal());
        let cos_theta = d0.min(s_one).max(s_one.neg());
        proof {
            assert(cos_theta.raw == clamp_one(d0.raw as int));
        }
        proof {
            lemma_mul_raw_bound(cos_theta.raw as int, cos_theta.raw as int, SCALE as int, SCALE as int);
            lemma_div_multiples_vanish(SCALE as int, SCALE as int);
            assert((SCALE as int) * (SCALE as int) <= MUL_PROD_LIM as int) by (nonlinear_arith)
                requires
                    SCALE == 65536i128,
                    MUL_PROD_LIM == 21267647932558653966460912964485513216i128,
            ;
        }
        let c2 = cos_theta.mul(cos_theta);
        let inner = s_one.sub(c2).max(Fx::zero());
        let sin_theta = inner.sqrt();
        proof {
            assert(sin_theta.raw <= 2 * SCALE) by (nonlinear_arith)
                requires
                    0 <= sin_theta.raw,
                    sin_theta.raw * sin_theta.raw <= inner.raw * SCALE,
                    0 <= inner.raw <= 2 * SCALE,
                    SCALE == 65536i128,
            ;
            lemma_mul_raw_bound(etai_over_etat.raw as int, sin_theta.raw as int, IR_MAX as int, 2
                * SCALE as int);
            assert((IR_MAX as int) * (2 * SCALE as int) <= MUL_PROD_LIM as int)
                by (nonlinear_arith)
                requires
                    IR_MAX == 524288i128,
                    SCALE == 65536i128,
                    MUL_PROD_LIM == 21267647932558653966460912964485513216i128,
            ;
        }
        let refr = etai_over_etat.mul(sin_theta);
        let cannot_refract = refr.raw > SCALE;
        let refl = Dielectric::reflectance(cos_theta, etai_over_etat);
        let draw = next_unit_fx(rng);
        let direction = if cannot_refract || refl.raw > draw.raw {
            unit_direction.reflect(&rec.normal())
        } else {
            unit_direction.refract(&rec.normal(), etai_over_etat)
        };
        proof {
            assert(0 <= draw.raw < SCALE as int && v3(direction) == dielectric_dir3(
                unit3(v3(ray.direction)),
                v3(rec.normal),
                self.ir.raw as int,
                rec.front_face,
                draw.raw as int,
            ));
        }
        let white = Vec3 { x: s_one, y: s_one, z: s_one };
        Some((white, Ray::new(rec.p(), direction)))
    }
}

impl Material {
    /// Scatter the incoming ray at the hit, by the variant's rule. A
    /// returned pair carries an attenuation in [0, 1] per component and a
    /// ray from the hit point with a bounded direction; diffuse and
    /// refractive materials always scatter.
    pub fn scatter(
        &self,
        ray: &Ray,
        rec: &HitRecord,
        rng: &mut rand::rngs::StdRng,
    ) -> (r: Option<(Color, Ray)>)
        requires
            mat_wf(*self),
            ray_wf(*ray),
            vbound(rec.normal, UNIT_LIM as int),
        ensures
            !(*self is Metal) ==> r is Some,
            r matches Some(pair) ==> {
                &&& color01(v3(pair.0))
                &&& v3(pair.0) == mat_attenuation3(*self)
                &&& pair.1.origin == rec.p
                &&& vbound(pair.1.direction, DIR_LIM as int)
            },
    {
        match self {
            Material::Lambertian(l) => l.scatter(ray, rec, rng),
            Material::Metal(m) => m.scatter(ray, rec, rng),
            Material::Dielectric(d) => d.scatter(ray, rec, rng),
        }
    }
}

/// With a zero fuzz radius and the vertical unit normal, the mirrored
/// direction satisfies the mirror law exactly: its alignment with the
/// normal is the opposite of the incoming direction's.
pub proof fn lemma_metal_mirror_dot(v: (int, int, int))
    ensures
        dot3(reflect3(v, (0int, SCALE as int, 0int)), (0int, SCALE as int, 0int)) == -dot3(
            v,
            (0int, SCALE as int, 0int),
        ),
{
    let n = (0int, SCALE as int, 0int);
    lemma_fx_mul_zero(v.0);
    lemma_fx_mul_zero(v.2);
    lemma_fx_mul_one(v.1);
    assert(dot3(v, n) == v.1);
    let t = 2 * v.1;
    lemma_fx_mul_zero(t);
    lemma_fx_mul_one(t);
    assert(scale3(n, t) == (0int, t, 0int));
    let refl = reflect3(v, n);
    assert(refl == (v.0, v.1 - t, v.2));
    assert(v.1 - t == -v.1);
    lemma_fx_mul_zero(refl.0);
    lemma_fx_mul_zero(refl.2);
    lemma_fx_mul_one(-v.1);
    assert(dot3(refl, n) == -v.1);
}

/// A dielectric with index one passes a head-on ray straight through: when
/// the incoming unit direction is exactly opposite an exactly-unit normal,
/// the scattered direction equals the incoming direction, whatever the draw.
pub proof fn lemma_dielectric_identity_passes(n: (int, int, int), front_face: bool, d: int)
    requires
        dot3(n, n) == SCALE as int,
        0 <= d < SCALE as int,
    ensures
        dielectric_dir3(neg3(n), n, SCALE as int, front_face, d) == neg3(n),
{
    let s = SCALE as int;
    let u = neg3(n);
    // The ratio is one either way.
    lemma_div_multiples_vanish(s, s);
    assert(s * s == s * s) by (nonlinear_arith);
    assert(fx_div_raw(s, s) == s * s / s);
    assert(diel_ratio3(s, front_face) == s);
    // The incidence cosine is exactly one.
    assert(neg3(u) == n);
    assert(clamp_one(dot3(n, n)) == s);
    // The sine is exactly zero, so no total internal reflection.
    lemma_fx_mul_one(s);
    assert(fx_mul_raw(s, s) == s);
    assert(max0(s - fx_mul_raw(s, s)) == 0);
    lemma_sqrt_small();
    assert(sqrt_floor(0 * s) == 0);
    lemma_fx_mul_zero(s);
    assert(fx_mul_raw(s, 0) == 0);
    // Schlick's reflectance is exactly zero, so the draw never reflects.
    assert(s - s == 0);
    assert(iabs(0) * s / iabs(s + s) == 0) by (nonlinear_arith)
        requires
            s == 65536,
    ;
    assert(fx_div_raw(0, s + s) == 0);
    lemma_fx_mul_zero(0);
    assert(fx_mul_raw(0, 0) == 0);
    assert(fx_mul_raw(s - 0, 0) == 0) by {
        lemma_fx_mul_zero(s);
    }
    assert(schlick3(s, s) == 0);
    assert(!(fx_mul_raw(s, sqrt_floor(0 * s)) > s || schlick3(s, s) > d));
    // The refracted direction reassembles the incoming one exactly.
    assert(scale3(n, s) == n) by {
        lemma_fx_mul_one(n.0);
        lemma_fx_mul_one(n.1);
        lemma_fx_mul_one(n.2);
    }
    assert(add3(u, scale3(n, s)) == (0int, 0int, 0int));
    assert(scale3((0int, 0int, 0int), s) == (0int, 0int, 0int)) by {
        lemma_fx_mul_one(0);
    }
    let perp = scale3(add3(u, scale3(n, clamp_one(dot3(neg3(u), n)))), s);
    assert(perp == (0int, 0int, 0int));
    assert(dot3(perp, perp) == 0) by {
        lemma_fx_mul_zero(0);
    }
    assert(iabs(s - 0) * s == s * s) by (nonlinear_arith)
        requires
            s == 65536,
    ;
    assert(sqrt_floor(iabs(s - dot3(perp, perp)) * s) == s);
    assert(scale3(n, -s) == neg3(n)) by {
        lemma_fx_mul_one(n.0);
        lemma_fx_mul_one(n.1);
        lemma_fx_mul_one(n.2);
    }
    assert(add3(perp, scale3(n, -s)) == neg3(n));
    assert(refract3(u, n, s) == neg3(n));
}

} // verus!
