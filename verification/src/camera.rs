use vstd::prelude::*;
use crate::fx::{
    Fx, iabs, fx_mul_raw, fx_div_raw, sqrt_floor, lemma_mul_raw_bound, lemma_fx_mul_nonneg,
    lemma_fx_mul_zero, lemma_sqrt_exists, SCALE, MUL_PROD_LIM,
};
use crate::vec3::{
    Vec3, Position, Direction, Color, v3, vbound, add3, sub3, neg3, scale3, divs3, cross3, dot3,
    unit3, max0, rand_in_unit_disk, lemma_cross3_bound, UNIT_LIM, FIT,
};
use crate::ray::{Ray, ray_wf, is_traced_color};
use crate::hittable::{HittableList, list_wf};
use crate::material::color01;
use crate::rng::{rng_from_seed, next_unit_fx};
use vstd::arithmetic::div_mod::lemma_div_is_ordered;
use vstd::arithmetic::div_mod::lemma_div_is_ordered_by_denominator;
use vstd::arithmetic::div_mod::lemma_div_multiples_vanish;

verus! {

/// One half-degree in radians, in raw fixed-point steps.
pub const RAD_PER_DEG_HALF: i128 = 571;

/// Bound on the components of a pixel stepping vector (2^46).
pub const DELTA_LIM: i128 = 70368744177664;

/// Bound on the components of the upper-left pixel's location (2^48).
pub const P00_LIM: i128 = 281474976710656;

/// Bound on the components of the defocus disk basis vectors (2^25).
pub const DISK_LIM: i128 = 33554432;

/// Bound on the components of the camera's center (2^29).
pub const CENTER_LIM: i128 = 536870912;

/// Largest accepted field-of-view or defocus angle: 120 degrees.
pub const ANGLE_LIM: i128 = 7864320;

/// The tangent of half the given angle in degrees, by the small-angle
/// series tan x = x + x^3/3 + 2 x^5/15 on the half-angle in radians. The
/// truncated series under-approximates the tangent, noticeably so toward
/// the 120-degree angle cap.
pub open spec fn tan_half_deg3(angle: int) -> int {
    let t = fx_mul_raw(angle, RAD_PER_DEG_HALF as int);
    let t2 = fx_mul_raw(t, t);
    let t3 = fx_mul_raw(t2, t);
    let t5 = fx_mul_raw(fx_mul_raw(t2, t2), t);
    t + fx_div_raw(t3, 3 * SCALE as int) + fx_div_raw(t5 + t5, 15 * SCALE as int)
}

/// The camera basis vector pointing from the target back to the eye.
pub open spec fn cam_w_basis3(lookfrom: (int, int, int), lookat: (int, int, int)) -> (
    int,
    int,
    int,
) {
    unit3(sub3(lookfrom, lookat))
}

/// The camera basis vector pointing right.
pub open spec fn cam_u_basis3(
    vup: (int, int, int),
    lookfrom: (int, int, int),
    lookat: (int, int, int),
) -> (int, int, int) {
    unit3(cross3(vup, cam_w_basis3(lookfrom, lookat)))
}

/// The camera basis vector pointing up.
pub open spec fn cam_v_basis3(
    vup: (int, int, int),
    lookfrom: (int, int, int),
    lookat: (int, int, int),
) -> (int, int, int) {
    unit3(cross3(cam_w_basis3(lookfrom, lookat), cam_u_basis3(vup, lookfrom, lookat)))
}

/// The viewport's world-space height: twice the half-angle tangent of the
/// field of view, scaled by the focus distance.
pub open spec fn cam_viewport_h3(vfov: int, focus_dist: int) -> int {
    fx_mul_raw(2 * tan_half_deg3(vfov), focus_dist)
}

/// The viewport's world-space width: its height times the pixel aspect,
/// with `ch` the derived image height.
pub open spec fn cam_viewport_w3(vfov: int, focus_dist: int, w: int, ch: int) -> int {
    fx_mul_raw(
        cam_viewport_h3(vfov, focus_dist),
        fx_div_raw(w * (SCALE as int), ch * (SCALE as int)),
    )
}

/// The location of the upper-left pixel's sample center, for image width
/// `w` and derived height `ch`: the camera center pushed to the viewport's
/// upper-left corner, advanced half a pixel step on both axes.
pub open spec fn cam_pixel003(
    vup: (int, int, int),
    lookfrom: (int, int, int),
    lookat: (int, int, int),
    vfov: int,
    focus_dist: int,
    w: int,
    ch: int,
) -> (int, int, int) {
    let s = SCALE as int;
    let wb = cam_w_basis3(lookfrom, lookat);
    let vpu = scale3(cam_u_basis3(vup, lookfrom, lookat), cam_viewport_w3(vfov, focus_dist, w, ch));
    let vpv = scale3(neg3(cam_v_basis3(vup, lookfrom, lookat)), cam_viewport_h3(vfov, focus_dist));
    let du = divs3(vpu, w * s);
    let dv = divs3(vpv, ch * s);
    let ul = sub3(
        sub3(sub3(lookfrom, scale3(wb, focus_dist)), divs3(vpu, 2 * s)),
        divs3(vpv, 2 * s),
    );
    add3(ul, scale3(add3(du, dv), 32768))
}

/// The derived image height: the width over the aspect ratio, at least one.
pub open spec fn cam_height3(w: int, ar: int) -> int {
    let q = w * (SCALE as int) / ar;
    if q < 1 {
        1
    } else {
        q
    }
}

/// The point a pixel sample aims at: the upper-left pixel location plus the
/// jittered pixel offsets along the two stepping vectors.
pub open spec fn cam_sample3(c: Camera, i: int, j: int, u: int, v: int) -> (int, int, int) {
    add3(
        add3(v3(c.pixel00_loc), scale3(v3(c.pixel_delta_u), i * (SCALE as int) + u)),
        scale3(v3(c.pixel_delta_v), j * (SCALE as int) + v),
    )
}

/// The sum of a sequence of color triples, from the back.
pub open spec fn sum3(s: Seq<(int, int, int)>) -> (int, int, int)
    decreases s.len(),
{
    if s.len() == 0 {
        (0int, 0int, 0int)
    } else {
        add3(sum3(s.drop_last()), s.last())
    }
}

/// The sum of a sequence of color triples, from the front.
pub open spec fn sum3_front(s: Seq<(int, int, int)>) -> (int, int, int)
    decreases s.len(),
{
    if s.len() == 0 {
        (0int, 0int, 0int)
    } else {
        add3(s.first(), sum3_front(s.drop_first()))
    }
}

/// Pulling the first element out of a back-to-front sum.
proof fn lemma_sum3_first_extract(s: Seq<(int, int, int)>)
    requires
        s.len() >= 1,
    ensures
        sum3(s) == add3(s.first(), sum3(s.drop_first())),
    decreases s.len(),
{
    if s.len() == 1 {
        assert(s.drop_last() =~= Seq::<(int, int, int)>::empty());
        assert(s.drop_first() =~= Seq::<(int, int, int)>::empty());
    } else {
        let dl = s.drop_last();
        lemma_sum3_first_extract(dl);
        assert(dl.drop_first() =~= s.drop_first().drop_last());
        assert(s.drop_first().last() == s.last());
        assert(dl.first() == s.first());
    }
}

/// An accumulated total of per-sample colors does not depend on the
/// direction of traversal: summing from the back equals summing from the
/// front, so a pixel's accumulation divided by the sample count is the
/// arithmetic mean of the same per-sample colors computed independently.
pub proof fn lemma_sum3_agree(s: Seq<(int, int, int)>)
    ensures
        sum3(s) == sum3_front(s),
    decreases s.len(),
{
    if s.len() == 0 {
    } else {
        lemma_sum3_first_extract(s);
        lemma_sum3_agree(s.drop_first());
    }
}

/// `r` is a primary ray of camera `c` for pixel (i, j), for some jitters.
pub open spec fn is_some_primary_ray(c: Camera, i: int, j: int, r: Ray) -> bool {
    exists|u: int, v: int, px: int, py: int| is_primary_ray(c, i, j, r, u, v, px, py)
}

/// The samples of one pixel each came from one of the pixel's own primary
/// rays: the sequences pair a sample color with the ray it was traced
/// along, every color is in range, and every sample is a color the
/// evaluator can gather for its ray — the exact sky gradient on a miss,
/// else black or the nearest-hit object's attenuation times an in-range
/// color.
pub open spec fn is_pixel_trace(
    c: Camera,
    world: HittableList,
    i: int,
    j: int,
    samples: Seq<(int, int, int)>,
    rays: Seq<Ray>,
) -> bool {
    &&& samples.len() == c.sample_size
    &&& rays.len() == c.sample_size
    &&& forall|k: int| 0 <= k < samples.len() ==> color01(#[trigger] samples[k])
    &&& forall|k: int|
        0 <= k < rays.len() ==> is_some_primary_ray(c, i, j, #[trigger] rays[k])
    &&& forall|k: int|
        0 <= k < rays.len() ==> is_traced_color(world, #[trigger] rays[k], samples[k])
}

/// `px` is a rendering of pixel (i, j): the arithmetic mean — the
/// accumulated sum divided by the sample count — of sample colors traced
/// along the pixel's own primary rays into this scene.
pub open spec fn is_rendered_pixel(
    c: Camera,
    world: HittableList,
    i: int,
    j: int,
    px: Color,
) -> bool {
    exists|samples: Seq<(int, int, int)>, rays: Seq<Ray>|
        #[trigger] is_pixel_trace(c, world, i, j, samples, rays) && v3(px) == divs3(
            sum3(samples),
            (c.sample_size as int) * (SCALE as int),
        )
}

/// The camera: image geometry, viewport mapping, sampling counts and the
/// defocus disk, all derived once at construction and immutable afterward.
#[derive(Clone, Copy, PartialEq, Eq, Structural, Debug)]
pub struct Camera {
    pub img_width: i32,
    pub img_height: i32,
    pub center: Position,
    pub pixel00_loc: Position,
    pub pixel_delta_u: Position,
    pub pixel_delta_v: Position,
    pub sample_size: i32,
    pub max_depth: i32,
    pub defocus_disk_u: Direction,
    pub defocus_disk_v: Direction,
    pub defocus_angle: Fx,
}

/// All camera fields lie within the bounds the ray generator needs.
pub open spec fn cam_wf(c: Camera) -> bool {
    &&& 1 <= c.img_width <= 4096
    &&& 1 <= c.img_height <= 4096
    &&& 1 <= c.sample_size <= 65536
    &&& 1 <= c.max_depth <= 50
    &&& vbound(c.center, CENTER_LIM as int)
    &&& vbound(c.pixel00_loc, P00_LIM as int)
    &&& vbound(c.pixel_delta_u, DELTA_LIM as int)
    &&& vbound(c.pixel_delta_v, DELTA_LIM as int)
    &&& vbound(c.defocus_disk_u, DISK_LIM as int)
    &&& vbound(c.defocus_disk_v, DISK_LIM as int)
    &&& iabs(c.defocus_angle.raw as int) <= ANGLE_LIM as int
}

/// The tangent of half the angle, for the viewport height and the defocus
/// disk radius.
fn tan_half_deg(angle: Fx) -> (r: Fx)
    requires
        0 <= angle.raw <= ANGLE_LIM,
    ensures
        r.raw == tan_half_deg3(angle.raw as int),
        0 <= r.raw <= 262144,
{
    proof {
        lemma_mul_raw_bound(angle.raw as int, RAD_PER_DEG_HALF as int, ANGLE_LIM as int, 571int);
        lemma_fx_mul_nonneg(angle.raw as int, RAD_PER_DEG_HALF as int);
        assert((ANGLE_LIM as int) * 571int / (SCALE as int) == 68520int) by (nonlinear_arith)
            requires
                ANGLE_LIM == 7864320i128,
                SCALE == 65536i128,
        ;
    }
    let t = angle.mul(Fx::from_raw(RAD_PER_DEG_HALF));
    proof {
        lemma_mul_raw_bound(t.raw as int, t.raw as int, 68520int, 68520int);
        lemma_fx_mul_nonneg(t.raw as int, t.raw as int);
        assert(68520int * 68520int / (SCALE as int) <= 71653int) by (nonlinear_arith)
            requires
                SCALE == 65536i128,
        ;
    }
    let t2 = t.mul(t);
    proof {
        lemma_mul_raw_bound(t2.raw as int, t.raw as int, 71653int, 68520int);
        lemma_fx_mul_nonneg(t2.raw as int, t.raw as int);
        assert(71653int * 68520int / (SCALE as int) <= 74920int) by (nonlinear_arith)
            requires
                SCALE == 65536i128,
        ;
    }
    let t3 = t2.mul(t);
    proof {
        lemma_mul_raw_bound(t2.raw as int, t2.raw as int, 71653int, 71653int);
        lemma_fx_mul_nonneg(t2.raw as int, t2.raw as int);
        assert(71653int * 71653int / (SCALE as int) <= 78350int) by (nonlinear_arith)
            requires
                SCALE == 65536i128,
        ;
    }
    let t4 = t2.mul(t2);
    proof {
        lemma_mul_raw_bound(t4.raw as int, t.raw as int, 78350int, 68520int);
        lemma_fx_mul_nonneg(t4.raw as int, t.raw as int);
        assert(78350int * 68520int / (SCALE as int) <= 81920int) by (nonlinear_arith)
            requires
                SCALE == 65536i128,
        ;
    }
    let t5 = t4.mul(t);
    let term2 = t3.div(Fx::from_int(3));
    proof {
        assert(iabs(term2.raw as int) <= 24974int) by (nonlinear_arith)
            requires
                iabs(term2.raw as int) == iabs(t3.raw as int) * (SCALE as int) / (3 * SCALE as int),
                iabs(t3.raw as int) <= 74920int,
                SCALE == 65536i128,
        ;
        assert(term2.raw >= 0) by (nonlinear_arith)
            requires
                term2.raw == fx_div_raw(t3.raw as int, 3 * SCALE as int),
                fx_div_raw(t3.raw as int, 3 * SCALE as int) == iabs(t3.raw as int) * (SCALE as int)
                    / iabs(3 * SCALE as int),
                t3.raw >= 0,
                SCALE == 65536i128,
        ;
    }
    let term3 = t5.add(t5).div(Fx::from_int(15));
    proof {
        assert(iabs(term3.raw as int) <= 10923int) by (nonlinear_arith)
            requires
                iabs(term3.raw as int) == iabs(2 * t5.raw as int) * (SCALE as int) / (15
                    * SCALE as int),
                iabs(t5.raw as int) <= 81920int,
                t5.raw >= 0,
                SCALE == 65536i128,
        ;
        assert(term3.raw >= 0) by (nonlinear_arith)
            requires
                term3.raw == fx_div_raw(2 * t5.raw as int, 15 * SCALE as int),
                fx_div_raw(2 * t5.raw as int, 15 * SCALE as int) == iabs(2 * t5.raw as int) * (
                SCALE as int) / iabs(15 * SCALE as int),
                t5.raw >= 0,
                SCALE == 65536i128,
        ;
    }
    t.add(term2).add(term3)
}

/// The three orthonormal-by-construction camera basis vectors: backward,
/// right, and up.
fn camera_basis(lookfrom: Position, lookat: Position, vup: Direction) -> (r: (
    Vec3<Fx>,
    Vec3<Fx>,
    Vec3<Fx>,
))
    requires
        vbound(lookfrom, CENTER_LIM as int),
        vbound(lookat, CENTER_LIM as int),
        vbound(vup, FIT as int),
    ensures
        v3(r.0) == cam_w_basis3(v3(lookfrom), v3(lookat)),
        v3(r.1) == cam_u_basis3(v3(vup), v3(lookfrom), v3(lookat)),
        v3(r.2) == cam_v_basis3(v3(vup), v3(lookfrom), v3(lookat)),
        vbound(r.0, UNIT_LIM as int),
        vbound(r.1, UNIT_LIM as int),
        vbound(r.2, UNIT_LIM as int),
{
    let w_basis = lookfrom.sub(lookat).unit_dir();
    let cross_uw = vup.cross(&w_basis);
    proof {
        lemma_cross3_bound(v3(vup), v3(w_basis), FIT as int, UNIT_LIM as int);
        assert(2 * ((FIT as int) * (UNIT_LIM as int) / (SCALE as int)) == 274877906944int)
            by (nonlinear_arith)
            requires
                FIT == 1073741824i128,
                UNIT_LIM == 8388608i128,
                SCALE == 65536i128,
        ;
    }
    let u_basis = cross_uw.unit_dir();
    let cross_wu = w_basis.cross(&u_basis);
    proof {
        lemma_cross3_bound(v3(w_basis), v3(u_basis), UNIT_LIM as int, UNIT_LIM as int);
        assert(2 * ((UNIT_LIM as int) * (UNIT_LIM as int) / (SCALE as int)) == 2147483648int)
            by (nonlinear_arith)
            requires
                UNIT_LIM == 8388608i128,
                SCALE == 65536i128,
        ;
    }
    let v_basis = cross_wu.unit_dir();
    (w_basis, u_basis, v_basis)
}

/// The viewport vectors and the pixel stepping vectors they induce.
fn pixel_deltas(
    u_basis: Direction,
    v_basis: Direction,
    viewport_width: Fx,
    viewport_height: Fx,
    img_width: i32,
    img_height: i32,
) -> (r: (Vec3<Fx>, Vec3<Fx>, Vec3<Fx>, Vec3<Fx>))
    requires
        vbound(u_basis, UNIT_LIM as int),
        vbound(v_basis, UNIT_LIM as int),
        iabs(viewport_width.raw as int) <= 549755813888,
        iabs(viewport_height.raw as int) <= 134217728,
        1 <= img_width <= 4096,
        1 <= img_height <= 4096,
    ensures
        v3(r.0) == scale3(v3(u_basis), viewport_width.raw as int),
        v3(r.1) == scale3(neg3(v3(v_basis)), viewport_height.raw as int),
        v3(r.2) == divs3(v3(r.0), (img_width as int) * (SCALE as int)),
        v3(r.3) == divs3(v3(r.1), (img_height as int) * (SCALE as int)),
        vbound(r.0, 70368744177664int),
        vbound(r.1, 17179869184int),
        vbound(r.2, DELTA_LIM as int),
        vbound(r.3, DELTA_LIM as int),
{
    proof {
        lemma_mul_raw_bound(u_basis.x.raw as int, viewport_width.raw as int, UNIT_LIM as int,
            549755813888int);
        lemma_mul_raw_bound(u_basis.y.raw as int, viewport_width.raw as int, UNIT_LIM as int,
            549755813888int);
        lemma_mul_raw_bound(u_basis.z.raw as int, viewport_width.raw as int, UNIT_LIM as int,
            549755813888int);
        assert((UNIT_LIM as int) * 549755813888int / (SCALE as int) == 70368744177664int)
            by (nonlinear_arith)
            requires
                UNIT_LIM == 8388608i128,
                SCALE == 65536i128,
        ;
        lemma_mul_raw_bound(-(v_basis.x.raw as int), viewport_height.raw as int, UNIT_LIM as int,
            134217728int);
        lemma_mul_raw_bound(-(v_basis.y.raw as int), viewport_height.raw as int, UNIT_LIM as int,
            134217728int);
        lemma_mul_raw_bound(-(v_basis.z.raw as int), viewport_height.raw as int, UNIT_LIM as int,
            134217728int);
        assert((UNIT_LIM as int) * 134217728int / (SCALE as int) == 17179869184int)
            by (nonlinear_arith)
            requires
                UNIT_LIM == 8388608i128,
                SCALE == 65536i128,
        ;
    }
    let viewport_u = u_basis.scale(viewport_width);
    let viewport_v = v_basis.neg().scale(viewport_height);
    proof {
        lemma_fx_div_keeps(viewport_u.x.raw as int, (img_width as int) * (SCALE as int));
        lemma_fx_div_keeps(viewport_u.y.raw as int, (img_width as int) * (SCALE as int));
        lemma_fx_div_keeps(viewport_u.z.raw as int, (img_width as int) * (SCALE as int));
        lemma_fx_div_keeps(viewport_v.x.raw as int, (img_height as int) * (SCALE as int));
        lemma_fx_div_keeps(viewport_v.y.raw as int, (img_height as int) * (SCALE as int));
        lemma_fx_div_keeps(viewport_v.z.raw as int, (img_height as int) * (SCALE as int));
    }
    let pixel_delta_u = viewport_u.div(Fx::from_int(img_width));
    let pixel_delta_v = viewport_v.div(Fx::from_int(img_height));
    (viewport_u, viewport_v, pixel_delta_u, pixel_delta_v)
}

/// The defocus disk basis: the right and up camera basis vectors scaled by
/// the aperture's half-angle tangent.
fn defocus_disk(u_basis: Direction, v_basis: Direction, defocus_angle: Fx) -> (r: (
    Vec3<Fx>,
    Vec3<Fx>,
))
    requires
        vbound(u_basis, UNIT_LIM as int),
        vbound(v_basis, UNIT_LIM as int),
        0 <= defocus_angle.raw <= ANGLE_LIM,
    ensures
        v3(r.0) == scale3(v3(u_basis), tan_half_deg3(defocus_angle.raw as int)),
        v3(r.1) == scale3(v3(v_basis), tan_half_deg3(defocus_angle.raw as int)),
        vbound(r.0, DISK_LIM as int),
        vbound(r.1, DISK_LIM as int),
{
    let defocus_radius = tan_half_deg(defocus_angle);
    proof {
        lemma_mul_raw_bound(u_basis.x.raw as int, defocus_radius.raw as int, UNIT_LIM as int,
            262144int);
        lemma_mul_raw_bound(u_basis.y.raw as int, defocus_radius.raw as int, UNIT_LIM as int,
            262144int);
        lemma_mul_raw_bound(u_basis.z.raw as int, defocus_radius.raw as int, UNIT_LIM as int,
            262144int);
        lemma_mul_raw_bound(v_basis.x.raw as int, defocus_radius.raw as int, UNIT_LIM as int,
            262144int);
        lemma_mul_raw_bound(v_basis.y.raw as int, defocus_radius.raw as int, UNIT_LIM as int,
            262144int);
        lemma_mul_raw_bound(v_basis.z.raw as int, defocus_radius.raw as int, UNIT_LIM as int,
            262144int);
        assert((UNIT_LIM as int) * 262144int / (SCALE as int) == DISK_LIM as int)
            by (nonlinear_arith)
            requires
                UNIT_LIM == 8388608i128,
                SCALE == 65536i128,
                DISK_LIM == 33554432i128,
        ;
    }
    (u_basis.scale(defocus_radius), v_basis.scale(defocus_radius))
}

/// The derived image height and the viewport's world-space dimensions.
fn viewport_dims(aspect_ratio: Fx, img_width: i32, vfov: Fx, focus_dist: Fx) -> (r: (i32, Fx, Fx))
    requires
        1 <= img_width <= 4096,
        0 < vfov.raw <= ANGLE_LIM,
        1 <= focus_dist.raw <= 16777216,
        1 <= aspect_ratio.raw <= 68719476736,
        cam_height3(img_width as int, aspect_ratio.raw as int) <= 4096,
    ensures
        r.0 as int == cam_height3(img_width as int, aspect_ratio.raw as int),
        1 <= r.0 <= 4096,
        r.1.raw == cam_viewport_h3(vfov.raw as int, focus_dist.raw as int),
        iabs(r.1.raw as int) <= 134217728,
        r.2.raw == cam_viewport_w3(
            vfov.raw as int,
            focus_dist.raw as int,
            img_width as int,
            r.0 as int,
        ),
        iabs(r.2.raw as int) <= 549755813888,
{
    let hw: u128 = ((img_width as u128) * 65536) / (aspect_ratio.raw as u128);
    proof {
        assert((img_width as int) * 65536 / (aspect_ratio.raw as int) >= 0) by (nonlinear_arith)
            requires
                1 <= img_width as int,
                1 <= aspect_ratio.raw as int,
        ;
        // The caller's bound on the derived height caps the quotient.
        assert(hw as int >= 1 ==> hw as int <= 4096);
    }
    let img_height: i32 = if hw < 1 {
        1
    } else {
        hw as i32
    };
    let h = tan_half_deg(vfov);
    proof {
        lemma_mul_raw_bound(2 * h.raw as int, focus_dist.raw as int, 524288int, 16777216int);
        assert(524288int * 16777216int / (SCALE as int) == 134217728int) by (nonlinear_arith)
            requires
                SCALE == 65536i128,
        ;
    }
    let viewport_height = h.add(h).mul(focus_dist);
    let ratio = Fx::from_int(img_width).div(Fx::from_int(img_height));
    proof {
        assert(iabs(ratio.raw as int) <= 268435456int) by (nonlinear_arith)
            requires
                iabs(ratio.raw as int) == iabs((img_width as int) * (SCALE as int)) * (
                SCALE as int) / iabs((img_height as int) * (SCALE as int)),
                1 <= img_width as int <= 4096,
                1 <= img_height as int <= 4096,
                SCALE == 65536i128,
        ;
        lemma_mul_raw_bound(viewport_height.raw as int, ratio.raw as int, 134217728int,
            268435456int);
        assert(134217728int * 268435456int / (SCALE as int) == 549755813888int)
            by (nonlinear_arith)
            requires
                SCALE == 65536i128,
        ;
        assert(134217728int * 268435456int <= MUL_PROD_LIM as int) by (nonlinear_arith)
            requires
                MUL_PROD_LIM == 21267647932558653966460912964485513216i128,
        ;
    }
    let viewport_width = viewport_height.mul(ratio);
    (img_height, viewport_height, viewport_width)
}

/// The location of the upper-left pixel's sample center: the viewport's
/// upper-left corner, advanced half a pixel step on both axes.
fn viewport_anchor(
    center: Position,
    w_basis: Direction,
    viewport_u: Position,
    viewport_v: Position,
    pixel_delta_u: Position,
    pixel_delta_v: Position,
    focus_dist: Fx,
) -> (p: Position)
    requires
        vbound(center, CENTER_LIM as int),
        vbound(w_basis, UNIT_LIM as int),
        vbound(viewport_u, 70368744177664int),
        vbound(viewport_v, 17179869184int),
        vbound(pixel_delta_u, DELTA_LIM as int),
        vbound(pixel_delta_v, DELTA_LIM as int),
        1 <= focus_dist.raw <= 16777216,
    ensures
        vbound(p, P00_LIM as int),
        v3(p) == add3(
            sub3(
                sub3(
                    sub3(v3(center), scale3(v3(w_basis), focus_dist.raw as int)),
                    divs3(v3(viewport_u), 2 * SCALE as int),
                ),
                divs3(v3(viewport_v), 2 * SCALE as int),
            ),
            scale3(add3(v3(pixel_delta_u), v3(pixel_delta_v)), 32768),
        ),
{
    proof {
        lemma_fx_div_keeps(viewport_u.x.raw as int, 2 * SCALE as int);
        lemma_fx_div_keeps(viewport_u.y.raw as int, 2 * SCALE as int);
        lemma_fx_div_keeps(viewport_u.z.raw as int, 2 * SCALE as int);
        lemma_fx_div_keeps(viewport_v.x.raw as int, 2 * SCALE as int);
        lemma_fx_div_keeps(viewport_v.y.raw as int, 2 * SCALE as int);
        lemma_fx_div_keeps(viewport_v.z.raw as int, 2 * SCALE as int);
        lemma_mul_raw_bound(w_basis.x.raw as int, focus_dist.raw as int, UNIT_LIM as int,
            16777216int);
        lemma_mul_raw_bound(w_basis.y.raw as int, focus_dist.raw as int, UNIT_LIM as int,
            16777216int);
        lemma_mul_raw_bound(w_basis.z.raw as int, focus_dist.raw as int, UNIT_LIM as int,
            16777216int);
        assert((UNIT_LIM as int) * 16777216int / (SCALE as int) == 2147483648int)
            by (nonlinear_arith)
            requires
                UNIT_LIM == 8388608i128,
                SCALE == 65536i128,
        ;
    }
    let half_u = viewport_u.div(Fx::from_int(2));
    let half_v = viewport_v.div(Fx::from_int(2));
    let viewport_upper_left = center.sub(w_basis.scale(focus_dist)).sub(half_u).sub(half_v);
    let step = pixel_delta_u.add(pixel_delta_v);
    proof {
        lemma_mul_raw_bound(step.x.raw as int, 32768int, 2 * DELTA_LIM as int, 32768int);
        lemma_mul_raw_bound(step.y.raw as int, 32768int, 2 * DELTA_LIM as int, 32768int);
        lemma_mul_raw_bound(step.z.raw as int, 32768int, 2 * DELTA_LIM as int, 32768int);
        assert((2 * DELTA_LIM as int) * 32768int / (SCALE as int) == DELTA_LIM as int)
            by (nonlinear_arith)
            requires
                DELTA_LIM == 70368744177664i128,
                SCALE == 65536i128,
        ;
    }
    viewport_upper_left.add(step.scale(Fx::from_raw(32768)))
}

impl Camera {
    /// Derive the full camera from its human-facing parameters: image
    /// geometry from the width and aspect ratio, the viewport from the
    /// field of view, focus distance and orientation, and the defocus disk
    /// from the aperture angle. The recursion depth is fixed at fifty.
    #[verifier::rlimit(100)]
    #[verifier::spinoff_prover]
    pub fn new(
        aspect_ratio: Fx,
        img_width: i32,
        sample_size: i32,
        vfov: Fx,
        lookfrom: Position,
        lookat: Position,
        vup: Direction,
        defocus_angle: Fx,
        focus_dist: Fx,
    ) -> (r: Camera)
        requires
            vbound(lookfrom, CENTER_LIM as int),
            vbound(lookat, CENTER_LIM as int),
            vbound(vup, FIT as int),
            1 <= img_width <= 4096,
            1 <= sample_size <= 65536,
            0 < vfov.raw <= ANGLE_LIM,
            0 <= defocus_angle.raw <= ANGLE_LIM,
            1 <= focus_dist.raw <= 16777216,
            1 <= aspect_ratio.raw <= 68719476736,
            cam_height3(img_width as int, aspect_ratio.raw as int) <= 4096,
        ensures
            cam_wf(r),
            r.img_width == img_width,
            r.img_height as int == cam_height3(img_width as int, aspect_ratio.raw as int),
            r.center == lookfrom,
            r.sample_size == sample_size,
            r.max_depth == 50,
            r.defocus_angle == defocus_angle,
            v3(r.pixel_delta_u) == divs3(
                scale3(
                    cam_u_basis3(v3(vup), v3(lookfrom), v3(lookat)),
                    cam_viewport_w3(
                        vfov.raw as int,
                        focus_dist.raw as int,
                        img_width as int,
                        cam_height3(img_width as int, aspect_ratio.raw as int),
                    ),
                ),
                (img_width as int) * (SCALE as int),
            ),
            v3(r.pixel_delta_v) == divs3(
                scale3(
                    neg3(cam_v_basis3(v3(vup), v3(lookfrom), v3(lookat))),
                    cam_viewport_h3(vfov.raw as int, focus_dist.raw as int),
                ),
                (cam_height3(img_width as int, aspect_ratio.raw as int)) * (SCALE as int),
            ),
            v3(r.defocus_disk_u) == scale3(
                cam_u_basis3(v3(vup), v3(lookfrom), v3(lookat)),
                tan_half_deg3(defocus_angle.raw as int),
            ),
            v3(r.defocus_disk_v) == scale3(
                cam_v_basis3(v3(vup), v3(lookfrom), v3(lookat)),
                tan_half_deg3(defocus_angle.raw as int),
            ),
            v3(r.pixel00_loc) == cam_pixel003(
                v3(vup),
                v3(lookfrom),
                v3(lookat),
                vfov.raw as int,
                focus_dist.raw as int,
                img_width as int,
                cam_height3(img_width as int, aspect_ratio.raw as int),
            ),
    {
        let dims = viewport_dims(aspect_ratio, img_width, vfov, focus_dist);
        let img_height = dims.0;
        let viewport_height = dims.1;
        let viewport_width = dims.2;
        let center = lookfrom;
        let bases = camera_basis(lookfrom, lookat, vup);
        let w_basis = bases.0;
        let u_basis = bases.1;
        let v_basis = bases.2;
        let parts = pixel_deltas(u_basis, v_basis, viewport_width, viewport_height, img_width,
            img_height);
        let pixel_delta_u = parts.2;
        let pixel_delta_v = parts.3;
        let pixel00_loc = viewport_anchor(center, w_basis, parts.0, parts.1, pixel_delta_u,
            pixel_delta_v, focus_dist);
        proof {
            assert(v3(pixel00_loc) == cam_pixel003(
                v3(vup),
                v3(lookfrom),
                v3(lookat),
                vfov.raw as int,
                focus_dist.raw as int,
                img_width as int,
                img_height as int,
            ));
        }
        let disks = defocus_disk(u_basis, v_basis, defocus_angle);
        Camera {
            img_width,
            img_height,
            center,
            pixel00_loc,
            pixel_delta_u,
            pixel_delta_v,
            sample_size,
            max_depth: 50,
            defocus_disk_u: disks.0,
            defocus_disk_v: disks.1,
            defocus_angle,
        }
    }
}

/// `r` is a primary ray of camera `c` for pixel (i, j): its target point is
/// the pixel center jittered by `u` and `v`, and its origin is the center,
/// jittered across the defocus disk by `px` and `py` when the aperture is
/// open.
pub open spec fn is_primary_ray(
    c: Camera,
    i: int,
    j: int,
    r: Ray,
    u: int,
    v: int,
    px: int,
    py: int,
) -> bool {
    &&& -32768 <= u < 32768
    &&& -32768 <= v < 32768
    &&& iabs(px) <= SCALE as int
    &&& iabs(py) <= SCALE as int
    &&& fx_mul_raw(px, px) + fx_mul_raw(py, py) <= SCALE as int
    &&& v3(r.origin) == (if c.defocus_angle.raw > 0 {
        add3(
            add3(v3(c.center), scale3(v3(c.defocus_disk_u), px)),
            scale3(v3(c.defocus_disk_v), py),
        )
    } else {
        v3(c.center)
    })
    &&& v3(r.direction) == unit3(sub3(cam_sample3(c, i, j, u, v), v3(r.origin)))
}

impl Camera {
    /// The jittered target point of one sample for pixel (i, j), with the
    /// two jitter draws.
    fn pixel_sample(&self, i: i32, j: i32, rng: &mut rand::rngs::StdRng) -> (r: (
        Position,
        Ghost<(int, int)>,
    ))
        requires
            cam_wf(*self),
            0 <= i < self.img_width,
            0 <= j < self.img_height,
        ensures
            -32768 <= r.1@.0 < 32768,
            -32768 <= r.1@.1 < 32768,
            v3(r.0) == cam_sample3(*self, i as int, j as int, r.1@.0, r.1@.1),
            vbound(r.0, 576812596024312064int),
    {
        let du_j = next_unit_fx(rng).sub(Fx::from_raw(32768));
        let dv_j = next_unit_fx(rng).sub(Fx::from_raw(32768));
        let fi = Fx::from_int(i).add(du_j);
        let fj = Fx::from_int(j).add(dv_j);
        proof {
            lemma_mul_raw_bound(self.pixel_delta_u.x.raw as int, fi.raw as int, DELTA_LIM as int,
                268468224int);
            lemma_mul_raw_bound(self.pixel_delta_u.y.raw as int, fi.raw as int, DELTA_LIM as int,
                268468224int);
            lemma_mul_raw_bound(self.pixel_delta_u.z.raw as int, fi.raw as int, DELTA_LIM as int,
                268468224int);
            lemma_mul_raw_bound(self.pixel_delta_v.x.raw as int, fj.raw as int, DELTA_LIM as int,
                268468224int);
            lemma_mul_raw_bound(self.pixel_delta_v.y.raw as int, fj.raw as int, DELTA_LIM as int,
                268468224int);
            lemma_mul_raw_bound(self.pixel_delta_v.z.raw as int, fj.raw as int, DELTA_LIM as int,
                268468224int);
            assert((DELTA_LIM as int) * 268468224int / (SCALE as int) <= 288265560523800576int
                && (DELTA_LIM as int) * 268468224int <= MUL_PROD_LIM as int) by (nonlinear_arith)
                requires
                    DELTA_LIM == 70368744177664i128,
                    SCALE == 65536i128,
                    MUL_PROD_LIM == 21267647932558653966460912964485513216i128,
            ;
        }
        let sample = self.pixel00_loc.add(self.pixel_delta_u.scale(fi)).add(
            self.pixel_delta_v.scale(fj),
        );
        (sample, Ghost((du_j.raw as int, dv_j.raw as int)))
    }

    /// The origin of one sample ray: the camera center, jittered across the
    /// defocus disk when the aperture is open.
    fn sample_origin(&self, rng: &mut rand::rngs::StdRng) -> (r: (Position, Ghost<(int, int)>))
        requires
            cam_wf(*self),
        ensures
            self.defocus_angle.raw <= 0 ==> r.0 == self.center,
            iabs(r.1@.0) <= SCALE as int,
            iabs(r.1@.1) <= SCALE as int,
            fx_mul_raw(r.1@.0, r.1@.0) + fx_mul_raw(r.1@.1, r.1@.1) <= SCALE as int,
            v3(r.0) == (if self.defocus_angle.raw > 0 {
                add3(
                    add3(v3(self.center), scale3(v3(self.defocus_disk_u), r.1@.0)),
                    scale3(v3(self.defocus_disk_v), r.1@.1),
                )
            } else {
                v3(self.center)
            }),
            vbound(r.0, FIT as int),
    {
        if self.defocus_angle.raw > 0 {
            let p = rand_in_unit_disk(rng);
            proof {
                lemma_mul_raw_bound(self.defocus_disk_u.x.raw as int, p.x.raw as int,
                    DISK_LIM as int, SCALE as int);
                lemma_mul_raw_bound(self.defocus_disk_u.y.raw as int, p.x.raw as int,
                    DISK_LIM as int, SCALE as int);
                lemma_mul_raw_bound(self.defocus_disk_u.z.raw as int, p.x.raw as int,
                    DISK_LIM as int, SCALE as int);
                lemma_mul_raw_bound(self.defocus_disk_v.x.raw as int, p.y.raw as int,
                    DISK_LIM as int, SCALE as int);
                lemma_mul_raw_bound(self.defocus_disk_v.y.raw as int, p.y.raw as int,
                    DISK_LIM as int, SCALE as int);
                lemma_mul_raw_bound(self.defocus_disk_v.z.raw as int, p.y.raw as int,
                    DISK_LIM as int, SCALE as int);
                assert((DISK_LIM as int) * (SCALE as int) / (SCALE as int) == DISK_LIM as int)
                    by (nonlinear_arith)
                    requires
                        DISK_LIM == 33554432i128,
                        SCALE == 65536i128,
                ;
            }
            let o = self.center.add(self.defocus_disk_u.scale(p.x)).add(
                self.defocus_disk_v.scale(p.y),
            );
            proof {
                // The drawn point lies in the closed unit disk, and its
                // vanishing third component contributes nothing.
                lemma_fx_mul_zero(0);
                assert(dot3(v3(p), v3(p)) == fx_mul_raw(p.x.raw as int, p.x.raw as int)
                    + fx_mul_raw(p.y.raw as int, p.y.raw as int));
            }
            (o, Ghost((p.x.raw as int, p.y.raw as int)))
        } else {
            proof {
                lemma_fx_mul_zero(0);
            }
            (self.center, Ghost((0int, 0int)))
        }
    }

    /// A jittered primary ray for pixel (i, j): the target point is the
    /// pixel center offset by uniform noise in [-1/2, 1/2) on both pixel
    /// axes, and the origin is the camera center, jittered within the
    /// defocus disk when the aperture is open.
    #[verifier::rlimit(100)]
    pub fn get_ray(&self, i: i32, j: i32, rng: &mut rand::rngs::StdRng) -> (r: Ray)
        requires
            cam_wf(*self),
            0 <= i < self.img_width,
            0 <= j < self.img_height,
        ensures
            self.defocus_angle.raw <= 0 ==> r.origin == self.center,
            ray_wf(r),
            vbound(r.direction, UNIT_LIM as int),
            is_some_primary_ray(*self, i as int, j as int, r),
    {
        let sp = self.pixel_sample(i, j, rng);
        let sample = sp.0;
        let op = self.sample_origin(rng);
        let origin = op.0;
        let dirv = sample.sub(origin);
        let direction = dirv.unit_dir();
        let res = Ray::new(origin, direction);
        proof {
            assert(is_primary_ray(*self, i as int, j as int, res, sp.1@.0, sp.1@.1, op.1@.0,
                op.1@.1));
        }
        res
    }

    /// The averaged color of one pixel: `sample_size` jittered primary rays
    /// are traced and their colors accumulated, and the total is divided by
    /// the sample count, so the result is the arithmetic mean of the
    /// pixel's own per-sample colors. Every component lies in [0, 1].
    pub fn render_pixel(
        &self,
        world: &HittableList,
        i: i32,
        j: i32,
        rng: &mut rand::rngs::StdRng,
    ) -> (c: Color)
        requires
            cam_wf(*self),
            list_wf(*world),
            0 <= i < self.img_width,
            0 <= j < self.img_height,
        ensures
            is_rendered_pixel(*self, *world, i as int, j as int, c),
            color01(v3(c)),
    {
        let mut acc = Vec3 { x: Fx::zero(), y: Fx::zero(), z: Fx::zero() };
        let ghost mut samples: Seq<(int, int, int)> = Seq::empty();
        let ghost mut rays: Seq<Ray> = Seq::empty();
        let mut s: i32 = 0;
        while s < self.sample_size
            invariant
                cam_wf(*self),
                list_wf(*world),
                0 <= i < self.img_width,
                0 <= j < self.img_height,
                0 <= s <= self.sample_size,
                samples.len() == s,
                rays.len() == s,
                forall|k: int| 0 <= k < samples.len() ==> color01(#[trigger] samples[k]),
                forall|k: int|
                    0 <= k < rays.len() ==> is_some_primary_ray(
                        *self,
                        i as int,
                        j as int,
                        #[trigger] rays[k],
                    ),
                forall|k: int|
                    0 <= k < rays.len() ==> is_traced_color(*world, #[trigger] rays[k], samples[k]),
                v3(acc) == sum3(samples),
                0 <= acc.x.raw <= (s as int) * (SCALE as int),
                0 <= acc.y.raw <= (s as int) * (SCALE as int),
                0 <= acc.z.raw <= (s as int) * (SCALE as int),
            decreases self.sample_size - s,
        {
            let ray = self.get_ray(i, j, rng);
            let col = ray.color(world, self.max_depth, rng);
            acc = acc.add(col);
            proof {
                let before = samples;
                let before_rays = rays;
                samples = samples.push(v3(col));
                rays = rays.push(ray);
                assert(samples.drop_last() =~= before);
                assert(sum3(samples) == add3(sum3(before), v3(col)));
                assert forall|k: int| 0 <= k < rays.len() implies is_some_primary_ray(
                    *self,
                    i as int,
                    j as int,
                    #[trigger] rays[k],
                ) by {
                    if k < before_rays.len() {
                        assert(rays[k] == before_rays[k]);
                    } else {
                        assert(rays[k] == ray);
                    }
                }
                assert forall|k: int| 0 <= k < rays.len() implies is_traced_color(
                    *world,
                    #[trigger] rays[k],
                    samples[k],
                ) by {
                    if k < before_rays.len() {
                        assert(rays[k] == before_rays[k] && samples[k] == before[k]);
                    } else {
                        assert(rays[k] == ray && samples[k] == v3(col));
                    }
                }
                assert((s as int) * (SCALE as int) + SCALE as int == ((s + 1) as int) * (
                SCALE as int)) by (nonlinear_arith);
            }
            s = s + 1;
        }
        proof {
            assert(is_pixel_trace(*self, *world, i as int, j as int, samples, rays));
        }
        proof {
            assert((self.sample_size as int) * (SCALE as int) <= 4294967296int)
                by (nonlinear_arith)
                requires
                    1 <= self.sample_size as int <= 65536,
                    SCALE == 65536i128,
            ;
        }
        let res = acc.div(Fx::from_int(self.sample_size));
        proof {
            lemma_fx_div01(acc.x.raw as int, self.sample_size as int);
            lemma_fx_div01(acc.y.raw as int, self.sample_size as int);
            lemma_fx_div01(acc.z.raw as int, self.sample_size as int);
            assert(is_pixel_trace(*self, *world, i as int, j as int, samples, rays) && v3(res)
                == divs3(sum3(samples), (self.sample_size as int) * (SCALE as int)));
        }
        res
    }

    /// Render the whole image sequentially: one pixel per index in row-major
    /// order — index p holds pixel (p % width, p / width) — each with its
    /// own generator derived from the master seed and the pixel index, so
    /// the result is deterministic per seed and each pixel is independent
    /// of every other.
    pub fn render(&self, world: &HittableList, seed: u64) -> (img: Vec<Color>)
        requires
            cam_wf(*self),
            list_wf(*world),
        ensures
            img@.len() == self.img_width * self.img_height,
            forall|p: int| 0 <= p < img@.len() ==> color01(v3(#[trigger] img@[p])),
            forall|p: int|
                0 <= p < img@.len() ==> is_rendered_pixel(
                    *self,
                    *world,
                    p % (self.img_width as int),
                    p / (self.img_width as int),
                    #[trigger] img@[p],
                ),
    {
        let w = self.img_width as usize;
        let h = self.img_height as usize;
        proof {
            assert((w as int) * (h as int) <= 16777216int) by (nonlinear_arith)
                requires
                    1 <= w as int <= 4096,
                    1 <= h as int <= 4096,
            ;
        }
        let total = w * h;
        let mut img: Vec<Color> = Vec::new();
        let mut idx: usize = 0;
        while idx < total
            invariant
                cam_wf(*self),
                list_wf(*world),
                w == self.img_width as usize,
                h == self.img_height as usize,
                total == w * h,
                w * h <= 16777216,
                img@.len() == idx,
                idx <= total,
                forall|p: int| 0 <= p < img@.len() ==> color01(v3(#[trigger] img@[p])),
                forall|p: int|
                    0 <= p < img@.len() ==> is_rendered_pixel(
                        *self,
                        *world,
                        p % (w as int),
                        p / (w as int),
                        #[trigger] img@[p],
                    ),
            decreases total - idx,
        {
            let i = idx % w;
            let j = idx / w;
            proof {
                assert((idx as int) % (w as int) < w as int) by (nonlinear_arith)
                    requires
                        1 <= w as int,
                        0 <= idx as int,
                ;
                assert((idx as int) / (w as int) < h as int) by (nonlinear_arith)
                    requires
                        1 <= w as int,
                        0 <= idx as int,
                        (idx as int) < (w as int) * (h as int),
                ;
                assert((idx as int) / (w as int) >= 0) by (nonlinear_arith)
                    requires
                        1 <= w as int,
                        0 <= idx as int,
                ;
            }
            let mut rng = rng_from_seed(seed ^ (idx as u64));
            let c = self.render_pixel(world, i as i32, j as i32, &mut rng);
            img.push(c);
            idx = idx + 1;
        }
        img
    }
}

/// One quantized output channel: gamma-encode, clamp just below one, and
/// widen to the 256-step byte range.
pub open spec fn encode1(x: int) -> int {
    let g = sqrt_floor(max0(x) * (SCALE as int));
    let cl = if g > 65470 {
        65470int
    } else {
        g
    };
    cl / 256
}

/// Gamma-encode and quantize a pixel color to three byte-range channels,
/// the form the image serializer consumes.
pub fn encode_color(color: Color) -> (r: (u32, u32, u32))
    requires
        color01(v3(color)),
    ensures
        r.0 == encode1(v3(color).0),
        r.1 == encode1(v3(color).1),
        r.2 == encode1(v3(color).2),
        r.0 <= 255,
        r.1 <= 255,
        r.2 <= 255,
{
    let g = color.to_gamma();
    proof {
        lemma_gamma_bounded(v3(color).0);
        lemma_gamma_bounded(v3(color).1);
        lemma_gamma_bounded(v3(color).2);
    }
    let cx = g.x.min(Fx::from_raw(65470));
    let cy = g.y.min(Fx::from_raw(65470));
    let cz = g.z.min(Fx::from_raw(65470));
    let rx = ((cx.raw as u128) / 256) as u32;
    let ry = ((cy.raw as u128) / 256) as u32;
    let rz = ((cz.raw as u128) / 256) as u32;
    (rx, ry, rz)
}

/// The gamma encoding of an in-range channel stays in range and is never
/// negative.
proof fn lemma_gamma_bounded(x: int)
    requires
        x <= SCALE as int,
    ensures
        0 <= sqrt_floor(max0(x) * (SCALE as int)),
        sqrt_floor(max0(x) * (SCALE as int)) <= SCALE as int,
{
    let s = SCALE as int;
    assert(0 <= max0(x) * s <= s * s) by (nonlinear_arith)
        requires
            0 <= max0(x) <= s,
            s == 65536,
    ;
    lemma_sqrt_exists((max0(x) * s) as nat);
    let g = sqrt_floor(max0(x) * s);
    assert(g <= s) by (nonlinear_arith)
        requires
            0 <= g,
            g * g <= max0(x) * s,
            max0(x) * s <= s * s,
            s == 65536,
    ;
}

/// Dividing an accumulation of at most `n` unit colors by `n` lands in the
/// unit interval.
proof fn lemma_fx_div01(x: int, n: int)
    requires
        1 <= n,
        0 <= x <= n * (SCALE as int),
    ensures
        0 <= fx_div_raw(x, n * (SCALE as int)),
        fx_div_raw(x, n * (SCALE as int)) <= SCALE as int,
{
    let s = SCALE as int;
    let d = n * s;
    assert(0 < d) by (nonlinear_arith)
        requires
            1 <= n,
            s == 65536,
            d == n * s,
    ;
    assert(x * s <= d * s) by (nonlinear_arith)
        requires
            x <= d,
            s > 0,
    ;
    assert(0 <= x * s) by (nonlinear_arith)
        requires
            0 <= x,
            s > 0,
    ;
    lemma_div_is_ordered(x * s, d * s, d);
    lemma_div_multiples_vanish(s, d);
    assert(x * s / d >= 0) by (nonlinear_arith)
        requires
            0 <= x * s,
            0 < d,
    ;
}

/// Division by a scalar of at least one whole unit does not grow a raw
/// magnitude.
proof fn lemma_fx_div_keeps(n: int, d: int)
    requires
        SCALE as int <= d,
    ensures
        iabs(n) * (SCALE as int) / iabs(d) <= iabs(n),
        0 <= iabs(n) * (SCALE as int) / iabs(d),
{
    let s = SCALE as int;
    assert(iabs(n) * s >= 0) by (nonlinear_arith)
        requires
            iabs(n) >= 0,
            s == 65536,
    ;
    lemma_div_is_ordered_by_denominator(iabs(n) * s, s, iabs(d));
    assert(iabs(n) * s == s * iabs(n)) by (nonlinear_arith);
    lemma_div_multiples_vanish(iabs(n), s);
    assert(iabs(n) * s / iabs(d) >= 0) by (nonlinear_arith)
        requires
            iabs(n) * s >= 0,
            iabs(d) >= 65536,
    ;
}

} // verus!
