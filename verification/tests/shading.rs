use raytrace::fixed::{ONE, TWO, HALF, FX_MAX};
use raytrace::vec::Vec3;
use raytrace::ray::Ray;
use raytrace::hitable::{Hitable, Sphere};
use raytrace::material::{Material, scatter, reflect, refract, schlick, random_in_unit_sphere};
use raytrace::vec::random_in_unit_disk;
use raytrace::camera::Camera;
use raytrace::trace::T_HIT_MIN;

#[test]
fn reflect_across_ground_plane() {
    let v = Vec3::new(ONE, -ONE, 0);
    let n = Vec3::new(0, ONE, 0);
    assert_eq!(reflect(&v, &n), Vec3::new(ONE, ONE, 0));
}

#[test]
fn schlick_head_on_is_r0() {
    // at cosine 1 and index 1.5 only the base reflectance remains: 0.04
    assert_eq!(schlick(ONE, ONE + HALF), 40_000);
    // at grazing incidence the reflectance climbs to 1
    assert_eq!(schlick(0, ONE + HALF), ONE);
}

#[test]
fn refract_straight_through() {
    // index ratio 1 and head-on incidence leave the direction unchanged
    let (refracted, ok) = refract(&Vec3::new(0, -ONE, 0), &Vec3::new(0, ONE, 0), ONE);
    assert!(ok);
    assert_eq!(refracted, Vec3::new(0, -ONE, 0));
}

#[test]
fn refract_total_internal_reflection() {
    // 45-degree incidence against an index ratio of 2 cannot refract
    let (refracted, ok) = refract(&Vec3::new(ONE, ONE, 0), &Vec3::new(0, -ONE, 0), TWO);
    assert!(!ok);
    assert_eq!(refracted, Vec3::new(0, 0, 0));
}

#[test]
fn refract_keeps_near_unit_length() {
    // a 3-4-5 unit direction entering a denser medium: the refracted
    // direction's squared length stays within six hundred millionths of one
    let v = Vec3::new(600_000, -800_000, 0);
    let n = Vec3::new(0, ONE, 0);
    let (refracted, ok) = refract(&v, &n, 666_666);
    assert!(ok);
    assert!((refracted.squared_length() - ONE).abs() <= 600);
}

#[test]
fn random_points_stay_in_their_regions() {
    let mut rng = rand::thread_rng();
    for _ in 0..50 {
        let p = random_in_unit_sphere(&mut rng);
        assert!(p.squared_length() < ONE);
        let d = random_in_unit_disk(&mut rng);
        assert!(d.squared_length() < ONE);
        assert_eq!(d.z(), 0);
    }
}

fn head_on_hit() -> (Ray, raytrace::hitable::HitRecord) {
    let ray = Ray::new(Vec3::new(0, 0, 0), Vec3::new(0, 0, ONE));
    let sphere = Sphere {
        center: Vec3::new(0, 0, 3 * ONE),
        radius: ONE,
        material: Material::Lambertian { albedo: Vec3::new(HALF, HALF, HALF) },
    };
    let rec = sphere.hit(&ray, T_HIT_MIN, FX_MAX).expect("head-on hit");
    (ray, rec)
}

#[test]
fn lambertian_scatters_from_the_hit_point() {
    let mut rng = rand::thread_rng();
    let (ray, rec) = head_on_hit();
    let material = Material::Lambertian { albedo: Vec3::new(HALF, 300_000, 100_000) };
    for _ in 0..20 {
        let (attenuation, scattered, did_scatter) = scatter(&material, &ray, &rec, &mut rng);
        assert!(did_scatter);
        assert_eq!(attenuation, Vec3::new(HALF, 300_000, 100_000));
        assert_eq!(scattered.origin, rec.p);
        // the direction is the normal nudged by the random point in the ball
        let nudge = scattered.direction.sub(&rec.normal);
        assert!(nudge.squared_length() < ONE);
    }
}

#[test]
fn metal_with_zero_fuzz_is_a_mirror() {
    let mut rng = rand::thread_rng();
    let (ray, mut rec) = head_on_hit();
    rec.material = Material::Metal { albedo: Vec3::new(ONE, ONE, ONE), fuzz: 0 };
    let (attenuation, scattered, did_scatter) = scatter(&rec.material, &ray, &rec, &mut rng);
    assert!(did_scatter);
    assert_eq!(attenuation, Vec3::new(ONE, ONE, ONE));
    assert_eq!(scattered.origin, Vec3::new(0, 0, 2 * ONE));
    assert_eq!(scattered.direction, Vec3::new(0, 0, -ONE));
}

#[test]
fn metal_absorbs_a_ray_reflected_inward() {
    let mut rng = rand::thread_rng();
    let (_, mut rec) = head_on_hit();
    rec.normal = Vec3::new(0, ONE, 0);
    rec.material = Material::Metal { albedo: Vec3::new(ONE, ONE, ONE), fuzz: 0 };
    // a ray leaving along the normal reflects to point into the surface
    let ray = Ray::new(Vec3::new(0, 0, 0), Vec3::new(0, ONE, 0));
    let (_, scattered, did_scatter) = scatter(&rec.material, &ray, &rec, &mut rng);
    assert!(!did_scatter);
    assert_eq!(scattered.direction, Vec3::new(0, -ONE, 0));
}

#[test]
fn dielectric_reflects_under_total_internal_reflection() {
    let mut rng = rand::thread_rng();
    let (_, mut rec) = head_on_hit();
    rec.normal = Vec3::new(0, ONE, 0);
    rec.material = Material::Dielectric { refractive_idx: TWO };
    // exiting at 45 degrees with index 2: refraction is impossible, so the
    // reflectance is forced to 1 and every draw reflects
    let ray = Ray::new(Vec3::new(0, 0, 0), Vec3::new(ONE, ONE, 0));
    for _ in 0..20 {
        let (attenuation, scattered, did_scatter) = scatter(&rec.material, &ray, &rec, &mut rng);
        assert!(did_scatter);
        assert_eq!(attenuation, Vec3::new(ONE, ONE, ONE));
        assert_eq!(scattered.origin, rec.p);
        assert_eq!(scattered.direction, Vec3::new(ONE, -ONE, 0));
    }
}

#[test]
fn pinhole_camera_center_ray() {
    let mut rng = rand::thread_rng();
    let cam = Camera::new(
        Vec3::new(0, 0, 0),
        Vec3::new(0, 0, -ONE),
        Vec3::new(0, ONE, 0),
        ONE,  // a 90-degree vertical field of view
        TWO,  // 2:1 aspect ratio
        0,    // pinhole: no aperture
        ONE,
    );
    assert_eq!(cam.lower_left_corner, Vec3::new(-2 * ONE, -ONE, -ONE));
    assert_eq!(cam.horizontal, Vec3::new(4 * ONE, 0, 0));
    assert_eq!(cam.vertical, Vec3::new(0, 2 * ONE, 0));
    let center = cam.get_ray(HALF, HALF, &mut rng);
    assert_eq!(center.origin, Vec3::new(0, 0, 0));
    assert_eq!(center.direction, Vec3::new(0, 0, -ONE));
    let corner = cam.get_ray(0, 0, &mut rng);
    assert_eq!(corner.direction, cam.lower_left_corner);
}

#[test]
fn lens_offsets_stay_within_the_aperture() {
    let mut rng = rand::thread_rng();
    let cam = Camera::new(
        Vec3::new(0, 0, 0),
        Vec3::new(0, 0, -ONE),
        Vec3::new(0, ONE, 0),
        ONE,
        TWO,
        200_000,  // aperture 0.2, so the lens radius is 0.1
        ONE,
    );
    for _ in 0..50 {
        let ray = cam.get_ray(HALF, HALF, &mut rng);
        assert!(ray.origin.squared_length() <= 10_000);
        assert_eq!(ray.origin.z(), 0);
    }
}
