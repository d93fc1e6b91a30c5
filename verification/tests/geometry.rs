use raytrace::fixed::{ONE, HALF, FX_MAX};
use raytrace::vec::Vec3;
use raytrace::ray::Ray;
use raytrace::hitable::{Hitable, HitableList, HitRecord, Sphere};
use raytrace::material::Material;
use raytrace::trace::T_HIT_MIN;

fn gray() -> Material {
    Material::Lambertian { albedo: Vec3::new(ONE / 2, ONE / 2, ONE / 2) }
}

fn z_ray() -> Ray {
    Ray::new(Vec3::new(0, 0, 0), Vec3::new(0, 0, ONE))
}

#[test]
fn sphere_ahead_returns_nearer_root() {
    // a sphere of radius 1 centered 3 ahead along the ray: roots at 2 and 4
    let s = Sphere { center: Vec3::new(0, 0, 3 * ONE), radius: ONE, material: gray() };
    let rec = s.hit(&z_ray(), 0, FX_MAX).expect("two real roots ahead must hit");
    assert_eq!(rec.t, 2 * ONE);
    assert_eq!(rec.p, Vec3::new(0, 0, 2 * ONE));
    assert_eq!(rec.normal, Vec3::new(0, 0, -ONE));
    assert!(!rec.on_edge);
    // excluding the nearer root hands back the farther one
    let far = s.hit(&z_ray(), 3 * ONE, FX_MAX).expect("farther root still in window");
    assert_eq!(far.t, 4 * ONE);
}

#[test]
fn sphere_behind_misses() {
    let s = Sphere { center: Vec3::new(0, 0, -3 * ONE), radius: ONE, material: gray() };
    assert!(s.hit(&z_ray(), T_HIT_MIN, FX_MAX).is_none());
}

#[test]
fn sphere_off_axis_misses() {
    let s = Sphere { center: Vec3::new(10 * ONE, 0, 3 * ONE), radius: ONE, material: gray() };
    assert!(s.hit(&z_ray(), T_HIT_MIN, FX_MAX).is_none());
}

#[test]
fn tangent_hit_is_flagged_on_edge() {
    // the ray grazes this sphere: the discriminant is exactly zero
    let s = Sphere { center: Vec3::new(ONE, 0, 3 * ONE), radius: ONE, material: gray() };
    let rec = s.hit(&z_ray(), T_HIT_MIN, FX_MAX).expect("a zero discriminant still hits");
    assert!(rec.on_edge);
    assert_eq!(rec.t, 3 * ONE);
}

#[test]
fn small_positive_discriminant_is_not_flagged() {
    // radius tuned so the discriminant is 0.001, above the 0.0005 threshold
    let s = Sphere { center: Vec3::new(ONE, 0, 3 * ONE), radius: 1_000_125, material: gray() };
    let rec = s.hit(&z_ray(), T_HIT_MIN, FX_MAX).expect("positive discriminant hits");
    assert!(!rec.on_edge);
    assert_eq!(rec.t, 2_984_189);
}

#[test]
fn hit_point_round_trips_through_the_ray() {
    let r = Ray::new(Vec3::new(ONE, -ONE, HALF), Vec3::new(300_000, 400_000, 500_000));
    let s = Sphere { center: Vec3::new(ONE + 900_000, -ONE + 1_200_000, HALF + 1_500_000),
        radius: ONE, material: gray() };
    let rec = s.hit(&r, 0, FX_MAX).expect("sphere straddles the ray");
    assert_eq!(rec.p, r.point_at_parameter(rec.t));
}


#[test]
fn closest_hit_wins_regardless_of_order() {
    let near = Sphere { center: Vec3::new(0, 0, 3 * ONE), radius: 2 * ONE, material: gray() };
    let far = Sphere { center: Vec3::new(0, 0, 6 * ONE), radius: 2 * ONE, material: gray() };
    let far_first = HitableList { list: vec![far, near] };
    let near_first = HitableList { list: vec![near, far] };
    let a = far_first.hit(&z_ray(), T_HIT_MIN, FX_MAX).expect("overlapping spheres hit");
    let b = near_first.hit(&z_ray(), T_HIT_MIN, FX_MAX).expect("overlapping spheres hit");
    assert_eq!(a.t, ONE);
    assert_eq!(b.t, ONE);
    assert_eq!(a, b);
}

#[test]
fn empty_list_misses() {
    let world: HitableList<Sphere> = HitableList { list: vec![] };
    assert!(world.hit(&z_ray(), T_HIT_MIN, FX_MAX).is_none());
}

#[test]
fn list_narrows_window_as_it_scans() {
    // the first member accepted shrinks the window, so an equally near
    // second member cannot displace it
    let a = Sphere { center: Vec3::new(0, 0, 3 * ONE), radius: ONE, material: gray() };
    let b = Sphere {
        center: Vec3::new(0, 0, 3 * ONE),
        radius: ONE,
        material: Material::Dielectric { refractive_idx: ONE + HALF },
    };
    let world = HitableList { list: vec![a, b] };
    let rec = world.hit(&z_ray(), T_HIT_MIN, FX_MAX).expect("both members hit");
    assert_eq!(rec.t, 2 * ONE);
    assert_eq!(rec.material, gray());
}

#[test]
fn hit_record_new_is_empty() {
    let rec = HitRecord::new();
    assert_eq!(rec.t, 0);
    assert_eq!(rec.p, Vec3::new(0, 0, 0));
    assert_eq!(rec.normal, Vec3::new(0, 0, 0));
    assert!(!rec.on_edge);
    assert_eq!(rec.material, Material::Lambertian { albedo: Vec3::new(0, 0, 0) });
}

#[test]
fn point_at_parameter_is_exact() {
    let r = Ray::new(Vec3::new(ONE, 2 * ONE, 3 * ONE), Vec3::new(HALF, -HALF, ONE));
    assert_eq!(r.point_at_parameter(2 * ONE), Vec3::new(2 * ONE, ONE, 5 * ONE));
    assert_eq!(r.point_at_parameter(0), Vec3::new(ONE, 2 * ONE, 3 * ONE));
}
