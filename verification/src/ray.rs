use vstd::prelude::*;
use crate::fx::{
    Fx, iabs, fx_mul_raw, lemma_mul_raw_bound, lemma_fx_mul_one, lemma_fx_mul_le, SCALE,
};
use crate::vec3::{
    Vec3, Position, Direction, Color, v3, vbound, add3, mul3, scale3, unit3, FIT, DIR_LIM, VLIM,
    UNIT_LIM,
};
use crate::hittable::{HittableList, Interval, sph_hit_t, is_hit_record_for, list_wf};
use crate::material::{Material, mat_wf, mat_attenuation3, color01};

verus! {

/// The lower end of the hit query range: a small positive offset that
/// suppresses self-intersection of a scattered ray with its own surface.
/// The range's far end is the representable scene bound `FIT`, not an
/// unbounded distance: an intersection farther than that along a ray
/// counts as a miss.
pub const SHADOW_EPS: i128 = 66;

/// Clamp to the fixed-point interval [0, 1].
pub open spec fn clamp01(x: int) -> int {
    if x < 0 {
        0
    } else if x > SCALE as int {
        SCALE as int
    } else {
        x
    }
}

/// The sky gradient for a ray direction: a linear blend from white to a
/// light blue, keyed on the vertical component of the unit direction
/// remapped from [-1, 1] to [0, 1] and clamped to that range.
pub open spec fn background3(d: (int, int, int)) -> (int, int, int) {
    let u = unit3(d);
    let a = clamp01(fx_mul_raw(u.1 + SCALE as int, 32768));
    add3(
        scale3((SCALE as int, SCALE as int, SCALE as int), SCALE as int - a),
        scale3((32768int, 45875int, SCALE as int), a),
    )
}

/// No object of the scene is hit by the ray over the standard query range.
pub open spec fn scene_miss(l: HittableList, r: Ray) -> bool {
    forall|j: int|
        0 <= j < l.objects@.len() ==> sph_hit_t(
            #[trigger] l.objects@[j],
            r,
            SHADOW_EPS as int,
            FIT as int,
        ) is None
}

/// Object `k` is the nearest the ray strikes over the standard query
/// range, at parameter `t`: it reports `t`, no object reports less, and
/// every earlier member reports strictly more (ties go to the earliest).
pub open spec fn nearest_hit3(world: HittableList, r: Ray, k: int, t: int) -> bool {
    &&& 0 <= k < world.objects@.len()
    &&& sph_hit_t(world.objects@[k], r, SHADOW_EPS as int, FIT as int) == Some(t)
    &&& forall|j: int|
        0 <= j < world.objects@.len() ==> match sph_hit_t(
            #[trigger] world.objects@[j],
            r,
            SHADOW_EPS as int,
            FIT as int,
        ) {
            Some(tj) => tj >= t,
            None => true,
        }
    &&& forall|j: int|
        0 <= j < k ==> match sph_hit_t(
            #[trigger] world.objects@[j],
            r,
            SHADOW_EPS as int,
            FIT as int,
        ) {
            Some(tj) => tj > t,
            None => true,
        }
}

/// A color one evaluation may gather for the ray in this scene: the exact
/// sky gradient when the ray misses everything; otherwise black (an
/// absorbed or exhausted branch) or the nearest-hit object's attenuation
/// times a color with components in [0, 1].
pub open spec fn is_traced_color(world: HittableList, r: Ray, c: (int, int, int)) -> bool {
    if scene_miss(world, r) {
        c == background3(v3(r.direction))
    } else {
        c == (0int, 0int, 0int) || exists|k: int, t: int, rc: (int, int, int)|
            #![trigger nearest_hit3(world, r, k, t), mul3(mat_attenuation3(world.objects@[k].material), rc)]
            {
                &&& nearest_hit3(world, r, k, t)
                &&& color01(rc)
                &&& c == mul3(mat_attenuation3(world.objects@[k].material), rc)
            }
    }
}

/// A half-line: an origin and an unnormalized direction.
#[derive(Clone, Copy, PartialEq, Eq, Structural, Debug)]
pub struct Ray {
    pub origin: Position,
    pub direction: Direction,
}

/// The origin lies in the representable scene volume and the direction's
/// components are within the direction bound.
pub open spec fn ray_wf(r: Ray) -> bool {
    &&& vbound(r.origin, FIT as int)
    &&& vbound(r.direction, DIR_LIM as int)
}

/// The point reached from origin `o` along direction `d` after parameter `t`.
pub open spec fn at3(o: (int, int, int), d: (int, int, int), t: int) -> (int, int, int) {
    add3(o, scale3(d, t))
}

impl Ray {
    /// The ray with the given origin and direction.
    pub fn new(origin: Position, direction: Direction) -> (r: Ray)
        ensures
            r.origin == origin,
            r.direction == direction,
    {
        Ray { origin, direction }
    }

    /// The point at parameter `t` along the ray.
    pub fn at(&self, t: Fx) -> (p: Position)
        requires
            ray_wf(*self),
            iabs(t.raw as int) <= FIT as int,
        ensures
            v3(p) == at3(v3(self.origin), v3(self.direction), t.raw as int),
            vbound(p, 576460752303423488int),
            vbound(p, VLIM as int),
    {
        proof {
            lemma_mul_raw_bound(self.direction.x.raw as int, t.raw as int, DIR_LIM as int, FIT as int);
            lemma_mul_raw_bound(self.direction.y.raw as int, t.raw as int, DIR_LIM as int, FIT as int);
            lemma_mul_raw_bound(self.direction.z.raw as int, t.raw as int, DIR_LIM as int, FIT as int);
            assert((DIR_LIM as int) * (FIT as int) / 65536 == 288230376151711744int) by (nonlinear_arith)
                requires
                    DIR_LIM == 17592186044416i128,
                    FIT == 1073741824i128,
            ;
        }
        self.origin.add(self.direction.scale(t))
    }

    /// The ray's origin.
    pub fn origin(&self) -> (r: Position)
        ensures
            r == self.origin,
    {
        self.origin
    }

    /// The ray's direction.
    pub fn direction(&self) -> (r: Direction)
        ensures
            r == self.direction,
    {
        self.direction
    }

    /// The sky gradient this ray sees when it hits nothing.
    fn background(&self) -> (c: Color)
        requires
            vbound(self.direction, VLIM as int),
        ensures
            v3(c) == background3(v3(self.direction)),
            color01(v3(c)),
    {
        let u = self.direction.unit_dir();
        proof {
            lemma_mul_raw_bound(u.y.raw + SCALE, 32768, UNIT_LIM as int + SCALE as int, 32768int);
            assert((UNIT_LIM as int + SCALE as int) * 32768int / (SCALE as int) == 4227072int)
                by (nonlinear_arith)
                requires
                    UNIT_LIM == 8388608i128,
                    SCALE == 65536i128,
            ;
        }
        let a0 = u.y.add(Fx::one()).mul(Fx::from_raw(32768));
        let a = a0.max(Fx::zero()).min(Fx::one());
        proof {
            assert(a.raw == clamp01(fx_mul_raw(u.y.raw + SCALE as int, 32768)));
        }
        let one_minus = Fx::one().sub(a);
        let white = Vec3 { x: Fx::one(), y: Fx::one(), z: Fx::one() };
        let sky = Vec3 { x: Fx::from_raw(32768), y: Fx::from_raw(45875), z: Fx::one() };
        let lerp_white = white.scale(one_minus);
        let lerp_sky = sky.scale(a);
        proof {
            lemma_fx_mul_one(one_minus.raw as int);
            lemma_fx_mul_one(a.raw as int);
            lemma_fx_mul_le(32768, a.raw as int);
            lemma_fx_mul_le(45875, a.raw as int);
        }
        lerp_white.add(lerp_sky)
    }

    /// The color this ray gathers from the scene with `depth` bounces left:
    /// black once the depth is exhausted or a scatter is absorbed, the
    /// hit material's attenuation times the scattered ray's color on a hit,
    /// and the sky gradient on a miss. A scattered ray whose origin leaves
    /// the representable scene volume is treated as absorbed. Every
    /// component of the result lies in [0, 1].
    pub fn color(&self, world: &HittableList, depth: i32, rng: &mut rand::rngs::StdRng) -> (c:
        Color)
        requires
            ray_wf(*self),
            list_wf(*world),
        ensures
            depth <= 0 ==> v3(c) == (0int, 0int, 0int),
            depth > 0 ==> is_traced_color(*world, *self, v3(c)),
            color01(v3(c)),
        decreases depth,
    {
        if depth <= 0 {
            return Vec3 { x: Fx::zero(), y: Fx::zero(), z: Fx::zero() };
        }
        let interval = Interval::new(Fx::from_raw(SHADOW_EPS), Fx::from_raw(FIT));
        match world.hit(self, interval) {
            Some(rec) => {
                let ghost k0 = choose|k: int|
                    {
                        &&& 0 <= k < world.objects@.len()
                        &&& sph_hit_t(
                            #[trigger] world.objects@[k],
                            *self,
                            SHADOW_EPS as int,
                            FIT as int,
                        ) == Some(rec.t.raw as int)
                        &&& is_hit_record_for(world.objects@[k], *self, rec)
                        &&& forall|j: int|
                            0 <= j < k ==> match sph_hit_t(
                                #[trigger] world.objects@[j],
                                *self,
                                SHADOW_EPS as int,
                                FIT as int,
                            ) {
                                Some(tj) => tj > rec.t.raw as int,
                                None => true,
                            }
                    };
                proof {
                    assert(is_hit_record_for(world.objects@[k0], *self, rec));
                    assert(mat_wf(rec.material));
                    assert(!scene_miss(*world, *self));
                    assert(nearest_hit3(*world, *self, k0, rec.t.raw as int));
                }
                match rec.material().scatter(self, &rec, rng) {
                    Some(pair) => {
                        let attenuation = pair.0;
                        let scattered = pair.1;
                        // A scattered origin outside the representable
                        // scene volume ends the branch as if absorbed.
                        if scattered.origin().fits() {
                            let rc = scattered.color(world, depth - 1, rng);
                            proof {
                                lemma_fx_mul_le(attenuation.x.raw as int, rc.x.raw as int);
                                lemma_fx_mul_le(attenuation.y.raw as int, rc.y.raw as int);
                                lemma_fx_mul_le(attenuation.z.raw as int, rc.z.raw as int);
                            }
                            let tinted = attenuation.mul(&rc);
                            proof {
                                assert(nearest_hit3(*world, *self, k0, rec.t.raw as int)
                                    && color01(v3(rc)) && v3(tinted) == mul3(
                                    mat_attenuation3(world.objects@[k0].material),
                                    v3(rc),
                                ));
                            }
                            tinted
                        } else {
                            Vec3 { x: Fx::zero(), y: Fx::zero(), z: Fx::zero() }
                        }
                    },
                    None => Vec3 { x: Fx::zero(), y: Fx::zero(), z: Fx::zero() },
                }
            },
            None => self.background(),
        }
    }
}

} // verus!
