use raytrace::camera::{encode_color, Camera};
use raytrace::fx::Fx;
use raytrace::hittable::{HitRecord, HittableList, Interval, Sphere};
use raytrace::material::{Dielectric, Lambertian, Material, Metal};
use raytrace::ray::Ray;
use rand::rngs::StdRng;
use rand::SeedableRng;
use raytrace::vec3::{rand_in_unit_disk, rand_unit_vec, Position, Vec3};

const ONE: i128 = 65536;

fn fxi(v: i32) -> Fx {
    Fx::from_int(v)
}

fn fxr(raw: i128) -> Fx {
    Fx::from_raw(raw)
}

fn v(x: i128, y: i128, z: i128) -> Vec3<Fx> {
    Vec3::new(fxr(x), fxr(y), fxr(z))
}

fn gray() -> Material {
    Material::Lambertian(Lambertian::new(v(ONE / 2, ONE / 2, ONE / 2)))
}

#[test]
fn fx_mul_is_exact_on_integers() {
    assert_eq!(fxi(6).mul(fxi(7)), fxi(42));
    assert_eq!(fxi(-6).mul(fxi(7)), fxi(-42));
    assert_eq!(fxr(32768).mul(fxr(32768)), fxr(16384));
}

#[test]
fn fx_div_truncates_toward_zero() {
    assert_eq!(fxr(1).div(fxi(2)), fxr(0));
    assert_eq!(fxi(7).div(fxi(2)), fxr(3 * ONE + ONE / 2));
    assert_eq!(fxi(-7).div(fxi(2)), fxr(-(3 * ONE + ONE / 2)));
}

#[test]
fn fx_sqrt_is_exact_on_squares() {
    assert_eq!(fxi(9).sqrt(), fxi(3));
    assert_eq!(fxi(0).sqrt(), fxi(0));
    assert_eq!(fxr(16384).sqrt(), fxr(32768));
}

#[test]
fn vec3_accessors_and_products() {
    let a = v(ONE, 2 * ONE, 3 * ONE);
    let b = v(4 * ONE, 5 * ONE, 6 * ONE);
    assert_eq!(a.x(), fxi(1));
    assert_eq!(a.y(), fxi(2));
    assert_eq!(a.z(), fxi(3));
    assert_eq!(a.all(), (fxi(1), fxi(2), fxi(3)));
    assert_eq!(a.dot(&b), fxi(32));
    assert_eq!(a.mul(&b), v(4 * ONE, 10 * ONE, 18 * ONE));
    assert_eq!(a.cross(&b), v(-3 * ONE, 6 * ONE, -3 * ONE));
    assert_eq!(a.add(b), v(5 * ONE, 7 * ONE, 9 * ONE));
    assert_eq!(b.sub(a), v(3 * ONE, 3 * ONE, 3 * ONE));
    assert_eq!(a.neg(), v(-ONE, -2 * ONE, -3 * ONE));
    assert_eq!(a.scale(fxi(2)), v(2 * ONE, 4 * ONE, 6 * ONE));
    assert_eq!(a.div(fxi(2)), v(ONE / 2, ONE, 3 * ONE / 2));
}

#[test]
fn vec3_length_and_unit() {
    let a = v(3 * ONE, 4 * ONE, 0);
    assert_eq!(a.squared_length(), fxi(25));
    assert_eq!(a.length(), fxi(5));
    let u = a.unit();
    assert_eq!(u, v(3 * ONE / 5, 4 * ONE / 5, 0));
}

#[test]
fn vec3_near_zero_and_gamma() {
    assert!(v(0, 0, 0).near_zero());
    assert!(!v(1, 0, 0).near_zero());
    assert_eq!(fxi(1).max(Fx::zero()), fxi(1));
    let g = v(ONE / 4, ONE, 0).to_gamma();
    assert_eq!(g, v(ONE / 2, ONE, 0));
}

#[test]
fn vec3_reflect_mirrors_about_the_normal() {
    let incoming = v(ONE, -ONE, 0);
    let n = v(0, ONE, 0);
    assert_eq!(incoming.reflect(&n), v(ONE, ONE, 0));
}

#[test]
fn random_unit_vectors_are_bounded() {
    let mut rng = StdRng::seed_from_u64(7);
    for _ in 0..32 {
        let u = rand_unit_vec(&mut rng);
        // Every component is within two raw steps of one unit.
        assert!(u.x.raw.abs() <= 65538);
        assert!(u.y.raw.abs() <= 65538);
        assert!(u.z.raw.abs() <= 65538);
        let d = rand_in_unit_disk(&mut rng);
        assert_eq!(d.z.raw, 0);
        assert!(d.squared_length().raw <= ONE);
    }
}

#[test]
fn interval_is_half_open() {
    let i = Interval::new(fxi(1), fxi(2));
    assert!(i.contains(fxi(1)));
    assert!(!i.contains(fxi(2)));
    assert!(!i.contains(fxi(0)));
}

#[test]
fn sphere_hit_finds_the_near_root() {
    let s = Sphere::new(v(0, 0, -5 * ONE), fxi(1), gray());
    let ray = Ray::new(v(0, 0, 0), v(0, 0, -ONE));
    let rec = s.hit(&ray, Interval::new(fxr(66), fxi(16384))).unwrap();
    assert_eq!(rec.t(), fxi(4));
    assert_eq!(rec.p(), v(0, 0, -4 * ONE));
    assert_eq!(rec.normal(), v(0, 0, ONE));
    assert!(rec.front_face());
    // The hit point lies on the sphere: |p - center| equals the radius.
    let op = rec.p().sub(v(0, 0, -5 * ONE));
    assert_eq!(op.squared_length(), fxi(1));
}

#[test]
fn sphere_hit_normal_faces_the_ray_from_inside() {
    let s = Sphere::new(v(0, 0, 0), fxi(2), gray());
    let ray = Ray::new(v(0, 0, 0), v(0, 0, -ONE));
    let rec = s.hit(&ray, Interval::new(fxr(66), fxi(16384))).unwrap();
    assert_eq!(rec.t(), fxi(2));
    assert!(!rec.front_face());
    // The geometric normal pointed along -z; it is flipped to face the ray.
    assert_eq!(rec.normal(), v(0, 0, ONE));
    assert!(rec.normal().dot(&ray.direction()).raw <= 0);
}

#[test]
fn sphere_hit_misses_outside_the_interval() {
    let s = Sphere::new(v(0, 0, -5 * ONE), fxi(1), gray());
    let ray = Ray::new(v(0, 0, 0), v(0, 0, -ONE));
    assert!(s.hit(&ray, Interval::new(fxr(66), fxi(3))).is_none());
    let away = Ray::new(v(0, 0, 0), v(0, 0, ONE));
    assert!(away.direction().dot(&away.direction()).raw > 0);
    assert!(s.hit(&away, Interval::new(fxr(66), fxi(16384))).is_none());
}

#[test]
fn list_hit_returns_the_globally_nearest() {
    let mut world = HittableList::new();
    let far_albedo = v(ONE, 0, 0);
    let near_albedo = v(0, ONE, 0);
    world.add(Sphere::new(
        v(0, 0, -5 * ONE),
        fxi(1),
        Material::Lambertian(Lambertian::new(far_albedo)),
    ));
    world.add(Sphere::new(
        v(0, 0, -3 * ONE),
        fxi(1),
        Material::Lambertian(Lambertian::new(near_albedo)),
    ));
    let ray = Ray::new(v(0, 0, 0), v(0, 0, -ONE));
    let rec = world.hit(&ray, Interval::new(fxr(66), fxi(16384))).unwrap();
    assert_eq!(rec.t(), fxi(2));
    match rec.material() {
        Material::Lambertian(l) => assert_eq!(l.albedo, near_albedo),
        _ => panic!("wrong material"),
    }
}

#[test]
fn list_hit_breaks_ties_toward_the_earliest_member() {
    let mut world = HittableList::new();
    let first_albedo = v(ONE, 0, 0);
    let second_albedo = v(0, ONE, 0);
    world.add(Sphere::new(
        v(0, 0, -3 * ONE),
        fxi(1),
        Material::Lambertian(Lambertian::new(first_albedo)),
    ));
    world.add(Sphere::new(
        v(0, 0, -3 * ONE),
        fxi(1),
        Material::Lambertian(Lambertian::new(second_albedo)),
    ));
    let ray = Ray::new(v(0, 0, 0), v(0, 0, -ONE));
    let rec = world.hit(&ray, Interval::new(fxr(66), fxi(16384))).unwrap();
    assert_eq!(rec.t(), fxi(2));
    match rec.material() {
        Material::Lambertian(l) => assert_eq!(l.albedo, first_albedo),
        _ => panic!("wrong material"),
    }
}

#[test]
fn color_at_zero_depth_is_black() {
    let mut world = HittableList::new();
    world.add(Sphere::new(v(0, 0, -3 * ONE), fxi(1), gray()));
    let ray = Ray::new(v(0, 0, 0), v(0, 0, -ONE));
    let mut rng = StdRng::seed_from_u64(1);
    assert_eq!(ray.color(&world, 0, &mut rng), v(0, 0, 0));
}

#[test]
fn color_on_miss_is_the_exact_background_gradient() {
    let world = HittableList::new();
    let mut rng = StdRng::seed_from_u64(1);
    let up = Ray::new(v(0, 0, 0), v(0, ONE, 0));
    assert_eq!(up.color(&world, 5, &mut rng), v(32768, 45875, ONE));
    let down = Ray::new(v(0, 0, 0), v(0, -ONE, 0));
    assert_eq!(down.color(&world, 5, &mut rng), v(ONE, ONE, ONE));
}

#[test]
fn color_after_one_bounce_is_attenuated() {
    let mut world = HittableList::new();
    world.add(Sphere::new(v(0, -1000 * ONE, 0), fxi(1000), gray()));
    let ray = Ray::new(v(0, 2 * ONE, 0), v(0, -ONE, 0));
    let mut rng = StdRng::seed_from_u64(3);
    // With a single unit of depth the bounce is cut off at black.
    assert_eq!(ray.color(&world, 1, &mut rng), v(0, 0, 0));
    // With two units the scattered ray reaches the sky, tinted by the albedo.
    let c = ray.color(&world, 2, &mut rng);
    assert!(c.x.raw <= ONE / 2 && c.y.raw <= ONE / 2 && c.z.raw <= ONE / 2);
    assert!(c.x.raw >= 0 && c.y.raw >= 0 && c.z.raw >= 0);
}

#[test]
fn dielectric_with_unit_index_passes_head_on_rays_through() {
    let mat = Dielectric::new(fxi(1));
    let ray = Ray::new(v(0, 2 * ONE, 0), v(0, -ONE, 0));
    let rec = HitRecord::new(
        v(0, 0, 0),
        v(0, ONE, 0),
        fxi(2),
        true,
        Material::Dielectric(mat),
    );
    let mut rng = StdRng::seed_from_u64(11);
    for _ in 0..16 {
        let (attenuation, scattered) = mat.scatter(&ray, &rec, &mut rng).unwrap();
        assert_eq!(attenuation, v(ONE, ONE, ONE));
        assert_eq!(scattered.direction(), v(0, -ONE, 0));
        assert_eq!(scattered.origin(), v(0, 0, 0));
    }
}

#[test]
fn metal_with_zero_fuzz_mirrors_exactly() {
    let mat = Metal::new(v(ONE, ONE, ONE), Fx::zero());
    let ray = Ray::new(v(-ONE, ONE, 0), v(ONE, -ONE, 0));
    let rec = HitRecord::new(v(0, 0, 0), v(0, ONE, 0), fxi(1), true, Material::Metal(mat));
    let mut rng = StdRng::seed_from_u64(5);
    let (_, scattered) = mat.scatter(&ray, &rec, &mut rng).unwrap();
    // The unit incoming direction is (1,-1,0)/sqrt(2), truncated.
    assert_eq!(scattered.direction(), v(46341, 46341, 0));
    // The mirror law holds exactly about the vertical unit normal.
    let unit_in = ray.direction().unit();
    let n = v(0, ONE, 0);
    assert_eq!(
        scattered.direction().dot(&n).raw,
        -unit_in.dot(&n).raw
    );
}

#[test]
fn metal_absorbs_rays_reflected_into_the_surface() {
    let mat = Metal::new(v(ONE, ONE, ONE), Fx::zero());
    let ray = Ray::new(v(0, -ONE, 0), v(0, ONE, 0));
    let rec = HitRecord::new(v(0, 0, 0), v(0, ONE, 0), fxi(1), true, Material::Metal(mat));
    let mut rng = StdRng::seed_from_u64(5);
    assert!(mat.scatter(&ray, &rec, &mut rng).is_none());
}

#[test]
fn lambertian_always_scatters_from_the_hit_point() {
    let mat = Lambertian::new(v(ONE / 2, ONE / 4, ONE / 8));
    let ray = Ray::new(v(0, 2 * ONE, 0), v(0, -ONE, 0));
    let rec = HitRecord::new(
        v(ONE, 0, 0),
        v(0, ONE, 0),
        fxi(2),
        true,
        Material::Lambertian(mat),
    );
    let mut rng = StdRng::seed_from_u64(9);
    for _ in 0..16 {
        let (attenuation, scattered) = mat.scatter(&ray, &rec, &mut rng).unwrap();
        assert_eq!(attenuation, v(ONE / 2, ONE / 4, ONE / 8));
        assert_eq!(scattered.origin(), v(ONE, 0, 0));
        assert!(!scattered.direction().near_zero());
    }
}

fn demo_camera(lookfrom: Position, lookat: Position, defocus_angle: Fx) -> Camera {
    Camera::new(
        fxi(1),
        2,
        1,
        fxi(90),
        lookfrom,
        lookat,
        v(0, 0, ONE),
        defocus_angle,
        fxi(1),
    )
}

#[test]
fn camera_derives_image_height_from_aspect_ratio() {
    let cam = Camera::new(
        fxi(2),
        200,
        4,
        fxi(20),
        v(0, 0, 0),
        v(0, 0, -ONE),
        v(0, ONE, 0),
        Fx::zero(),
        fxi(10),
    );
    assert_eq!(cam.img_width, 200);
    assert_eq!(cam.img_height, 100);
    assert_eq!(cam.sample_size, 4);
    assert_eq!(cam.max_depth, 50);
}

#[test]
fn camera_accepts_portrait_aspect_ratios() {
    let cam = Camera::new(
        fxr(32768),
        100,
        1,
        fxi(20),
        v(0, 0, 0),
        v(0, 0, -ONE),
        v(0, ONE, 0),
        Fx::zero(),
        fxi(10),
    );
    assert_eq!(cam.img_width, 100);
    assert_eq!(cam.img_height, 200);
}

#[test]
fn camera_without_aperture_shoots_from_the_center() {
    let cam = demo_camera(v(0, 2 * ONE, 0), v(0, 0, 0), Fx::zero());
    let mut rng = StdRng::seed_from_u64(13);
    for _ in 0..8 {
        let ray = cam.get_ray(0, 1, &mut rng);
        assert_eq!(ray.origin(), v(0, 2 * ONE, 0));
    }
}

#[test]
fn camera_with_aperture_jitters_the_origin_within_the_disk() {
    let cam = demo_camera(v(0, 2 * ONE, 0), v(0, 0, 0), fxi(20));
    let mut rng = StdRng::seed_from_u64(13);
    for _ in 0..8 {
        let ray = cam.get_ray(0, 0, &mut rng);
        let off = ray.origin().sub(v(0, 2 * ONE, 0));
        assert!(off.x.raw.abs() <= 33554432);
        assert!(off.y.raw.abs() <= 33554432);
        assert!(off.z.raw.abs() <= 33554432);
    }
}

#[test]
fn ground_scene_renders_tinted_ground_and_exact_sky() {
    let mut world = HittableList::new();
    world.add(Sphere::new(v(0, -1000 * ONE, 0), fxi(1000), gray()));
    // Looking straight down at the sphere's top: every channel is held
    // below the albedo by the first bounce.
    let down = demo_camera(v(0, 2 * ONE, 0), v(0, 0, 0), Fx::zero());
    let img = down.render(&world, 42);
    assert_eq!(img.len(), 4);
    for pixel in img.iter() {
        assert!(pixel.x.raw <= ONE / 2);
        assert!(pixel.y.raw <= ONE / 2);
        assert!(pixel.z.raw <= ONE / 2);
        assert!(pixel.x.raw >= 0 && pixel.y.raw >= 0 && pixel.z.raw >= 0);
    }
    // Looking straight up: every ray misses, and the gradient's blue
    // channel is exactly one whatever the blend weight.
    let up = demo_camera(v(0, 2 * ONE, 0), v(0, 4 * ONE, 0), Fx::zero());
    let sky = up.render(&world, 42);
    assert_eq!(sky.len(), 4);
    for pixel in sky.iter() {
        assert_eq!(pixel.z.raw, ONE);
        assert!(pixel.x.raw >= 32768 && pixel.x.raw <= ONE);
        assert!(pixel.y.raw >= 45875 && pixel.y.raw <= ONE);
    }
}

#[test]
fn pixel_average_equals_the_mean_of_its_samples() {
    // Over an empty scene every sample's blue channel is exactly one, so
    // the four-sample accumulation divided by four is exactly one as well.
    let world = HittableList::new();
    let cam = Camera::new(
        fxi(1),
        2,
        4,
        fxi(90),
        v(0, 2 * ONE, 0),
        v(0, 4 * ONE, 0),
        v(0, 0, ONE),
        Fx::zero(),
        fxi(1),
    );
    let mut rng = StdRng::seed_from_u64(99);
    let pixel = cam.render_pixel(&world, 0, 0, &mut rng);
    assert_eq!(pixel.z.raw, ONE);
    assert!(pixel.x.raw >= 32768 && pixel.x.raw <= ONE);
}

#[test]
fn encode_color_gamma_encodes_and_quantizes() {
    assert_eq!(encode_color(v(ONE, ONE, ONE)), (255, 255, 255));
    assert_eq!(encode_color(v(0, 0, 0)), (0, 0, 0));
    assert_eq!(encode_color(v(ONE / 4, ONE / 4, ONE / 4)), (128, 128, 128));
}

#[test]
fn sphere_radius_is_clamped_to_nonnegative() {
    let s = Sphere::new(v(0, 0, 0), fxi(-3), gray());
    assert_eq!(s.radius, Fx::zero());
}
