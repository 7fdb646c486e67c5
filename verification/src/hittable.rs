use vstd::prelude::*;
use crate::fx::{
    Fx, iabs, fx_mul_raw, fx_div_raw, sqrt_floor, is_sqrt, lemma_mul_raw_bound, lemma_fx_div_mono,
    lemma_sqrt_exists, SCALE,
};
use crate::vec3::{
    Vec3, Position, Direction, v3, vbound, sub3, neg3, dot3, unit3, lemma_dot3_bound,
    lemma_dot3_self, lemma_dot3_comm, lemma_dot3_neg, UNIT_LIM, DIR_LIM, VLIM, FIT,
};
use crate::ray::{Ray, ray_wf, at3};
use crate::material::{Material, mat_wf};

verus! {

/// A half-open range [min, max) of acceptable intersection parameters.
#[derive(Clone, Copy, PartialEq, Eq, Structural, Debug)]
pub struct Interval {
    pub min: Fx,
    pub max: Fx,
}

/// Both bounds lie within the representable parameter range.
pub open spec fn itv_wf(i: Interval) -> bool {
    &&& iabs(i.min.raw as int) <= FIT as int
    &&& iabs(i.max.raw as int) <= FIT as int
}

/// `t` lies in the half-open range [lo, hi).
pub open spec fn itv_contains3(lo: int, hi: int, t: int) -> bool {
    lo <= t && t < hi
}

impl Interval {
    /// The range [min, max).
    pub fn new(min: Fx, max: Fx) -> (r: Interval)
        ensures
            r.min == min,
            r.max == max,
    {
        Interval { min, max }
    }

    /// Whether `t` lies in the range.
    pub fn contains(&self, t: Fx) -> (r: bool)
        ensures
            r == itv_contains3(self.min.raw as int, self.max.raw as int, t.raw as int),
    {
        self.min.raw <= t.raw && t.raw < self.max.raw
    }
}

/// Where and how a ray struck geometry: the hit point, the oriented
/// surface normal, the ray parameter, whether the geometric normal already
/// faced the ray, and the surface's material.
#[derive(Clone, Copy, PartialEq, Eq, Structural, Debug)]
pub struct HitRecord {
    pub p: Position,
    pub normal: Direction,
    pub t: Fx,
    pub front_face: bool,
    pub material: Material,
}

impl HitRecord {
    /// A record with the given fields.
    pub fn new(p: Position, normal: Direction, t: Fx, front_face: bool, material: Material) -> (r:
        HitRecord)
        ensures
            r.p == p,
            r.normal == normal,
            r.t == t,
            r.front_face == front_face,
            r.material == material,
    {
        HitRecord { p, normal, t, front_face, material }
    }

    /// The hit point.
    pub fn p(&self) -> (r: Position)
        ensures
            r == self.p,
    {
        self.p
    }

    /// The oriented surface normal.
    pub fn normal(&self) -> (r: Direction)
        ensures
            r == self.normal,
    {
        self.normal
    }

    /// The ray parameter of the hit.
    pub fn t(&self) -> (r: Fx)
        ensures
            r == self.t,
    {
        self.t
    }

    /// Whether the geometric normal already faced the ray.
    pub fn front_face(&self) -> (r: bool)
        ensures
            r == self.front_face,
    {
        self.front_face
    }

    /// The material at the hit.
    pub fn material(&self) -> (r: Material)
        ensures
            r == self.material,
    {
        self.material
    }

    /// Orient the normal against the incoming ray: keep the outward normal
    /// where it opposes the ray's direction, flip it otherwise, and record
    /// which was the case.
    pub fn set_face_normal(&mut self, ray: &Ray, outward_normal: Direction)
        requires
            vbound(ray.direction, VLIM as int),
            vbound(outward_normal, VLIM as int),
        ensures
            final(self).front_face == (dot3(v3(ray.direction), v3(outward_normal)) < 0),
            v3(final(self).normal) == if final(self).front_face {
                v3(outward_normal)
            } else {
                neg3(v3(outward_normal))
            },
            final(self).p == old(self).p,
            final(self).t == old(self).t,
            final(self).material == old(self).material,
    {
        let d = ray.direction().dot(&outward_normal);
        self.front_face = d.raw < 0;
        self.normal = if self.front_face {
            outward_normal
        } else {
            outward_normal.neg()
        };
    }
}

/// A sphere: center, nonnegative radius, and its surface material.
#[derive(Clone, Copy, PartialEq, Eq, Structural, Debug)]
pub struct Sphere {
    pub center: Position,
    pub radius: Fx,
    pub material: Material,
}

/// The sphere's center lies in the scene volume, its radius is a
/// nonnegative in-range length, and its material's parameters are in range.
pub open spec fn sphere_wf(s: Sphere) -> bool {
    &&& vbound(s.center, FIT as int)
    &&& 0 <= s.radius.raw <= FIT
    &&& mat_wf(s.material)
}

/// Quadratic coefficient `a`: the squared length of the ray's direction.
pub open spec fn sph_a(ray: Ray) -> int {
    dot3(v3(ray.direction), v3(ray.direction))
}

/// The vector from the sphere's center to the ray's origin.
pub open spec fn sph_oc(s: Sphere, ray: Ray) -> (int, int, int) {
    sub3(v3(ray.origin), v3(s.center))
}

/// Half the quadratic's linear coefficient.
pub open spec fn sph_half_b(s: Sphere, ray: Ray) -> int {
    dot3(sph_oc(s, ray), v3(ray.direction))
}

/// The quadratic's constant coefficient.
pub open spec fn sph_c(s: Sphere, ray: Ray) -> int {
    dot3(sph_oc(s, ray), sph_oc(s, ray)) - fx_mul_raw(s.radius.raw as int, s.radius.raw as int)
}

/// The quadratic's discriminant, in fixed point.
pub open spec fn sph_disc(s: Sphere, ray: Ray) -> int {
    fx_mul_raw(sph_half_b(s, ray), sph_half_b(s, ray)) - fx_mul_raw(sph_a(ray), sph_c(s, ray))
}

/// The rounded square root of the discriminant.
pub open spec fn sph_sqrtd(s: Sphere, ray: Ray) -> int {
    sqrt_floor(sph_disc(s, ray) * (SCALE as int))
}

/// The nearer root of the quadratic.
pub open spec fn sph_root_near(s: Sphere, ray: Ray) -> int {
    fx_div_raw(-sph_half_b(s, ray) - sph_sqrtd(s, ray), sph_a(ray))
}

/// The farther root of the quadratic.
pub open spec fn sph_root_far(s: Sphere, ray: Ray) -> int {
    fx_div_raw(-sph_half_b(s, ray) + sph_sqrtd(s, ray), sph_a(ray))
}

/// The parameter at which the ray first strikes the sphere inside
/// [lo, hi): the nearer root when it lies in the range, else the farther
/// root when it does, else nothing. A degenerate direction or a negative
/// discriminant never strikes.
pub open spec fn sph_hit_t(s: Sphere, ray: Ray, lo: int, hi: int) -> Option<int> {
    if sph_a(ray) <= 0 || sph_disc(s, ray) < 0 {
        None
    } else if itv_contains3(lo, hi, sph_root_near(s, ray)) {
        Some(sph_root_near(s, ray))
    } else if itv_contains3(lo, hi, sph_root_far(s, ray)) {
        Some(sph_root_far(s, ray))
    } else {
        None
    }
}

/// The outward normal of the sphere at the point the ray reaches at `t`.
pub open spec fn sph_outward(s: Sphere, ray: Ray, t: int) -> (int, int, int) {
    unit3(sub3(at3(v3(ray.origin), v3(ray.direction), t), v3(s.center)))
}

/// The record a sphere hit at parameter `rec.t` carries: the point on the
/// ray, the sphere's material, and the normal oriented against the ray.
pub open spec fn is_hit_record_for(s: Sphere, ray: Ray, rec: HitRecord) -> bool {
    let t = rec.t.raw as int;
    let ow = sph_outward(s, ray, t);
    &&& v3(rec.p) == at3(v3(ray.origin), v3(ray.direction), t)
    &&& rec.material == s.material
    &&& rec.front_face == (dot3(v3(ray.direction), ow) < 0)
    &&& v3(rec.normal) == if rec.front_face {
        ow
    } else {
        neg3(ow)
    }
    &&& dot3(v3(rec.normal), v3(ray.direction)) <= 0
    &&& vbound(rec.normal, UNIT_LIM as int)
    &&& vbound(rec.p, VLIM as int)
    &&& iabs(t) <= FIT as int
}

/// With a positive leading coefficient the nearer root does not exceed the
/// farther one.
pub proof fn lemma_sph_roots_ordered(s: Sphere, ray: Ray)
    requires
        sph_a(ray) > 0,
        sph_disc(s, ray) >= 0,
    ensures
        0 <= sph_sqrtd(s, ray),
        sph_root_near(s, ray) <= sph_root_far(s, ray),
{
    assert(sph_disc(s, ray) * (SCALE as int) >= 0) by (nonlinear_arith)
        requires
            sph_disc(s, ray) >= 0,
            SCALE == 65536i128,
    ;
    lemma_sqrt_exists((sph_disc(s, ray) * (SCALE as int)) as nat);
    assert(0 <= sph_sqrtd(s, ray));
    lemma_fx_div_mono(
        -sph_half_b(s, ray) - sph_sqrtd(s, ray),
        -sph_half_b(s, ray) + sph_sqrtd(s, ray),
        sph_a(ray),
    );
}

/// Tightening the upper bound of the query range keeps exactly the hits
/// that fall below the new bound: the closest-hit loop's narrowed queries
/// agree with queries over the original range.
pub proof fn lemma_sph_hit_narrow(s: Sphere, ray: Ray, lo: int, hi: int, hip: int)
    requires
        hip <= hi,
    ensures
        sph_hit_t(s, ray, lo, hip) == match sph_hit_t(s, ray, lo, hi) {
            Some(t) => if t < hip {
                Some(t)
            } else {
                None::<int>
            },
            None => None::<int>,
        },
{
    if sph_a(ray) <= 0 || sph_disc(s, ray) < 0 {
    } else {
        lemma_sph_roots_ordered(s, ray);
    }
}

impl Sphere {
    /// A sphere at `center` with the radius clamped to nonnegative.
    pub fn new(center: Position, radius: Fx, material: Material) -> (s: Sphere)
        requires
            vbound(center, FIT as int),
            radius.raw <= FIT,
            mat_wf(material),
        ensures
            s.center == center,
            s.material == material,
            s.radius.raw == crate::vec3::max0(radius.raw as int),
            sphere_wf(s),
    {
        Sphere { center, radius: radius.max(Fx::zero()), material }
    }

    /// The nearest intersection of the ray with the sphere inside the
    /// range, if any: exactly the parameter `sph_hit_t` picks, carried in
    /// a record whose normal is oriented against the ray.
    pub fn hit(&self, ray: &Ray, interval: Interval) -> (res: Option<HitRecord>)
        requires
            sphere_wf(*self),
            ray_wf(*ray),
            itv_wf(interval),
        ensures
            res matches Some(rec) ==> {
                &&& sph_hit_t(*self, *ray, interval.min.raw as int, interval.max.raw as int)
                    == Some(rec.t.raw as int)
                &&& itv_contains3(interval.min.raw as int, interval.max.raw as int, rec.t.raw as int)
                &&& is_hit_record_for(*self, *ray, rec)
            },
            res is None ==> sph_hit_t(*self, *ray, interval.min.raw as int, interval.max.raw as int)
                is None,
    {
        let oc = ray.origin().sub(self.center);
        let a = ray.direction().dot(&ray.direction());
        proof {
            lemma_dot3_self(v3(ray.direction));
            lemma_dot3_bound(v3(ray.direction), v3(ray.direction), DIR_LIM as int, DIR_LIM as int);
            assert(3 * ((DIR_LIM as int) * (DIR_LIM as int) / (SCALE as int))
                == 14167099448608935641088int) by (nonlinear_arith)
                requires
                    DIR_LIM == 17592186044416i128,
                    SCALE == 65536i128,
            ;
        }
        if a.raw <= 0 {
            return None;
        }
        let half_b = oc.dot(&ray.direction());
        proof {
            lemma_dot3_bound(v3(oc), v3(ray.direction), 2147483648int, DIR_LIM as int);
            assert(3 * (2147483648int * (DIR_LIM as int) / (SCALE as int))
                == 1729382256910270464int) by (nonlinear_arith)
                requires
                    DIR_LIM == 17592186044416i128,
                    SCALE == 65536i128,
            ;
            lemma_dot3_self(v3(oc));
            lemma_dot3_bound(v3(oc), v3(oc), 2147483648int, 2147483648int);
            assert(3 * (2147483648int * 2147483648int / (SCALE as int)) == 211106232532992int)
                by (nonlinear_arith)
                requires
                    SCALE == 65536i128,
            ;
            lemma_mul_raw_bound(self.radius.raw as int, self.radius.raw as int, FIT as int, FIT as int);
            assert((FIT as int) * (FIT as int) / (SCALE as int) == 17592186044416int)
                by (nonlinear_arith)
                requires
                    FIT == 1073741824i128,
                    SCALE == 65536i128,
            ;
        }
        let rsq = self.radius.mul(self.radius);
        let c = oc.squared_length().sub(rsq);
        proof {
            assert(iabs(c.raw as int) <= 228698418577408int);
            lemma_mul_raw_bound(half_b.raw as int, half_b.raw as int, 1729382256910270464int,
                1729382256910270464int);
            assert(1729382256910270464int * 1729382256910270464int
                <= 21267647932558653966460912964485513216int) by (nonlinear_arith);
            assert(1729382256910270464int * 1729382256910270464int / (SCALE as int)
                <= 45635421608216258453881315393536int) by (nonlinear_arith)
                requires
                    SCALE == 65536i128,
            ;
            lemma_mul_raw_bound(a.raw as int, c.raw as int, 14167099448608935641088int,
                228698418577408int);
            assert(14167099448608935641088int * 228698418577408int
                <= 21267647932558653966460912964485513216int) by (nonlinear_arith);
            assert(14167099448608935641088int * 228698418577408int / (SCALE as int)
                <= 49438373408900946658371425009664int) by (nonlinear_arith)
                requires
                    SCALE == 65536i128,
            ;
        }
        let hb2 = half_b.mul(half_b);
        let ac = a.mul(c);
        let disc = hb2.sub(ac);
        proof {
            assert(disc.raw == sph_disc(*self, *ray));
        }
        if disc.raw < 0 {
            return None;
        }
        let sqrtd = disc.sqrt();
        proof {
            assert(sqrtd.raw == sph_sqrtd(*self, *ray));
        }
        let neg_hb = half_b.neg();
        let mut root = neg_hb.sub(sqrtd).div(a);
        proof {
            assert(root.raw == sph_root_near(*self, *ray));
        }
        if !interval.contains(root) {
            root = neg_hb.add(sqrtd).div(a);
            proof {
                assert(root.raw == sph_root_far(*self, *ray));
            }
            if !interval.contains(root) {
                return None;
            }
        }
        let p = ray.at(root);
        let op = p.sub(self.center);
        let outward = op.unit_dir();
        let mut rec = HitRecord::new(p, outward, root, false, self.material);
        rec.set_face_normal(ray, outward);
        proof {
            lemma_dot3_comm(v3(ray.direction), v3(outward));
            lemma_dot3_neg(v3(outward), v3(ray.direction));
        }
        Some(rec)
    }
}

/// An ordered collection of scene objects, hit-tested as one.
pub struct HittableList {
    pub objects: Vec<Sphere>,
}

/// Every object in the list is well formed.
pub open spec fn list_wf(l: HittableList) -> bool {
    forall|k: int| 0 <= k < l.objects@.len() ==> sphere_wf(#[trigger] l.objects@[k])
}

impl HittableList {
    /// An empty scene.
    pub fn new() -> (r: HittableList)
        ensures
            r.objects@.len() == 0,
            list_wf(r),
    {
        HittableList { objects: Vec::new() }
    }

    /// Append an object to the scene.
    pub fn add(&mut self, object: Sphere)
        requires
            sphere_wf(object),
            list_wf(*old(self)),
        ensures
            final(self).objects@ == old(self).objects@.push(object),
            list_wf(*final(self)),
    {
        self.objects.push(object);
        proof {
            assert forall|k: int| 0 <= k < self.objects@.len() implies sphere_wf(
                #[trigger] self.objects@[k],
            ) by {
                if k < old(self).objects@.len() {
                    assert(self.objects@[k] == old(self).objects@[k]);
                }
            }
        }
    }

    /// The globally nearest hit across all objects inside the range: the
    /// minimum of the parameters the objects would report individually
    /// over the original range, reached in one pass with a shrinking
    /// upper bound. A tie in the parameter goes to the earliest member,
    /// since later members are tested against a half-open narrowed range.
    pub fn hit(&self, ray: &Ray, interval: Interval) -> (res: Option<HitRecord>)
        requires
            list_wf(*self),
            ray_wf(*ray),
            itv_wf(interval),
        ensures
            res matches Some(rec) ==> {
                &&& exists|k: int|
                    {
                        &&& 0 <= k < self.objects@.len()
                        &&& sph_hit_t(
                            #[trigger] self.objects@[k],
                            *ray,
                            interval.min.raw as int,
                            interval.max.raw as int,
                        ) == Some(rec.t.raw as int)
                        &&& is_hit_record_for(self.objects@[k], *ray, rec)
                        &&& forall|j: int|
                            0 <= j < k ==> match sph_hit_t(
                                #[trigger] self.objects@[j],
                                *ray,
                                interval.min.raw as int,
                                interval.max.raw as int,
                            ) {
                                Some(tj) => tj > rec.t.raw as int,
                                None => true,
                            }
                    }
                &&& forall|j: int|
                    0 <= j < self.objects@.len() ==> match sph_hit_t(
                        #[trigger] self.objects@[j],
                        *ray,
                        interval.min.raw as int,
                        interval.max.raw as int,
                    ) {
                        Some(tj) => tj >= rec.t.raw as int,
                        None => true,
                    }
                &&& itv_contains3(interval.min.raw as int, interval.max.raw as int, rec.t.raw as int)
            },
            res is None ==> forall|j: int|
                0 <= j < self.objects@.len() ==> sph_hit_t(
                    #[trigger] self.objects@[j],
                    *ray,
                    interval.min.raw as int,
                    interval.max.raw as int,
                ) is None,
    {
        let ghost lo = interval.min.raw as int;
        let ghost hi = interval.max.raw as int;
        let mut closest: Fx = interval.max;
        let mut res: Option<HitRecord> = None;
        let ghost mut kw: int = 0;
        let n = self.objects.len();
        let mut i: usize = 0;
        while i < n
            invariant
                n == self.objects@.len(),
                i <= n,
                list_wf(*self),
                ray_wf(*ray),
                itv_wf(interval),
                lo == interval.min.raw as int,
                hi == interval.max.raw as int,
                iabs(closest.raw as int) <= FIT as int,
                closest.raw <= interval.max.raw,
                match res {
                    Some(rec) => {
                        &&& closest.raw == rec.t.raw
                        &&& itv_contains3(lo, hi, rec.t.raw as int)
                        &&& 0 <= kw < i
                        &&& sph_hit_t(self.objects@[kw], *ray, lo, hi) == Some(rec.t.raw as int)
                        &&& is_hit_record_for(self.objects@[kw], *ray, rec)
                        &&& forall|j: int|
                            0 <= j < kw ==> match sph_hit_t(
                                #[trigger] self.objects@[j],
                                *ray,
                                lo,
                                hi,
                            ) {
                                Some(tj) => tj > rec.t.raw as int,
                                None => true,
                            }
                        &&& forall|j: int|
                            0 <= j < i ==> match sph_hit_t(
                                #[trigger] self.objects@[j],
                                *ray,
                                lo,
                                hi,
                            ) {
                                Some(tj) => tj >= rec.t.raw as int,
                                None => true,
                            }
                    },
                    None => {
                        &&& closest.raw == interval.max.raw
                        &&& forall|j: int|
                            0 <= j < i ==> sph_hit_t(#[trigger] self.objects@[j], *ray, lo, hi)
                                is None
                    },
                },
            decreases n - i,
        {
            let sp = self.objects[i];
            let narrowed = Interval { min: interval.min, max: closest };
            proof {
                lemma_sph_hit_narrow(sp, *ray, lo, hi, closest.raw as int);
            }
            let h = sp.hit(ray, narrowed);
            match h {
                Some(rec2) => {
                    proof {
                        kw = i as int;
                    }
                    closest = rec2.t();
                    res = Some(rec2);
                },
                None => {},
            }
            i = i + 1;
        }
        res
    }
}

} // verus!
