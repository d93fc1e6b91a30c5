use raytrace::fixed::{ONE, HALF};
use raytrace::vec::Vec3;
use raytrace::ray::Ray;
use raytrace::hitable::{HitableList, Sphere};
use raytrace::material::Material;
use raytrace::trace::{color, MAX_DEPTH};

fn empty_scene() -> HitableList<Sphere> {
    HitableList { list: vec![] }
}

#[test]
fn miss_returns_white_end_of_gradient() {
    let mut rng = rand::thread_rng();
    // a straight-down unit direction puts the blend weight at zero: pure white
    let ray = Ray::new(Vec3::new(0, 0, 0), Vec3::new(0, -ONE, 0));
    let c = color(&ray, &empty_scene(), 0, &mut rng);
    assert_eq!(c, Vec3::new(ONE, ONE, ONE));
}

#[test]
fn miss_returns_blue_end_of_gradient() {
    let mut rng = rand::thread_rng();
    // a straight-up unit direction puts the blend weight at one: pure sky blue
    let ray = Ray::new(Vec3::new(0, 0, 0), Vec3::new(0, ONE, 0));
    let c = color(&ray, &empty_scene(), 0, &mut rng);
    assert_eq!(c, Vec3::new(HALF, 700_000, ONE));
}

#[test]
fn miss_returns_midpoint_of_gradient() {
    let mut rng = rand::thread_rng();
    // a horizontal unit direction blends the two endpoints evenly
    let ray = Ray::new(Vec3::new(0, 0, 0), Vec3::new(ONE, 0, 0));
    let c = color(&ray, &empty_scene(), 0, &mut rng);
    assert_eq!(c, Vec3::new(750_000, 850_000, ONE));
}

#[test]
fn exhausted_depth_returns_black() {
    let mut rng = rand::thread_rng();
    let world = HitableList {
        list: vec![
            Sphere {
                center: Vec3::new(0, 0, 3 * ONE),
                radius: ONE,
                material: Material::Lambertian { albedo: Vec3::new(HALF, HALF, HALF) },
            },
        ],
    };
    let ray = Ray::new(Vec3::new(0, 0, 0), Vec3::new(0, 0, ONE));
    let c = color(&ray, &world, MAX_DEPTH, &mut rng);
    assert_eq!(c, Vec3::new(0, 0, 0));
}

#[test]
fn mirrored_box_bounces_to_black() {
    let mut rng = rand::thread_rng();
    // two perfect mirrors facing each other: the ray ping-pongs between them
    // until the depth budget runs out, and the path contributes exactly black
    let mirror = Material::Metal { albedo: Vec3::new(900_000, 900_000, 900_000), fuzz: 0 };
    let world = HitableList {
        list: vec![
            Sphere { center: Vec3::new(0, 0, 4 * ONE), radius: ONE, material: mirror },
            Sphere { center: Vec3::new(0, 0, -4 * ONE), radius: ONE, material: mirror },
        ],
    };
    let ray = Ray::new(Vec3::new(0, 0, 0), Vec3::new(0, 0, ONE));
    let c = color(&ray, &world, 0, &mut rng);
    assert_eq!(c, Vec3::new(0, 0, 0));
}

#[test]
fn one_mirror_bounce_attenuates_the_background() {
    let mut rng = rand::thread_rng();
    // a head-on hit on a perfect mirror reflects straight back; the reflected
    // ray leaves the sphere exactly, misses, and gathers the horizon color,
    // scaled by the albedo
    let world = HitableList {
        list: vec![
            Sphere {
                center: Vec3::new(0, 0, 3 * ONE),
                radius: ONE,
                material: Material::Metal { albedo: Vec3::new(900_000, 900_000, 900_000), fuzz: 0 },
            },
        ],
    };
    let ray = Ray::new(Vec3::new(0, 0, 0), Vec3::new(0, 0, ONE));
    let c = color(&ray, &world, 0, &mut rng);
    assert_eq!(c, Vec3::new(675_000, 765_000, 900_000));
}
