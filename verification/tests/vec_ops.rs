use raytrace::fixed::{ONE, TWO, HALF, FX_MAX, fx_add, fx_sub, fx_mul, fx_div, fx_sqrt};
use raytrace::vec::{Vec3, dot, cross};

#[test]
fn fixed_point_basics() {
    assert_eq!(fx_add(ONE, ONE), TWO);
    assert_eq!(fx_mul(TWO, HALF), ONE);
    assert_eq!(fx_mul(ONE, ONE), ONE);
    // a millionth squared truncates to zero
    assert_eq!(fx_mul(1, 1), 0);
    assert_eq!(fx_div(ONE, TWO), HALF);
    assert_eq!(fx_div(-ONE, TWO), -HALF);
    assert_eq!(fx_sqrt(4 * ONE), 2 * ONE);
    assert_eq!(fx_sqrt(ONE), ONE);
    assert_eq!(fx_sqrt(-5), 0);
}

#[test]
fn fixed_point_saturation() {
    assert_eq!(fx_add(FX_MAX, FX_MAX), FX_MAX);
    assert_eq!(fx_sub(-FX_MAX, FX_MAX), -FX_MAX);
    assert_eq!(fx_mul(FX_MAX, TWO), FX_MAX);
    assert_eq!(fx_mul(-FX_MAX, TWO), -FX_MAX);
    assert_eq!(fx_div(ONE, 0), FX_MAX);
    assert_eq!(fx_div(-ONE, 0), -FX_MAX);
    assert_eq!(fx_div(0, 0), 0);
    // the square root of the largest scalar
    assert_eq!(fx_sqrt(FX_MAX), 3_037_000_499_976);
}

#[test]
fn accessors() {
    let v = Vec3::new(1, 2, 3);
    assert_eq!(v.x(), 1);
    assert_eq!(v.y(), 2);
    assert_eq!(v.z(), 3);
    assert_eq!(v.r(), 1);
    assert_eq!(v.g(), 2);
    assert_eq!(v.b(), 3);
}

#[test]
fn componentwise_ops() {
    let a = Vec3::new(ONE, 2 * ONE, 3 * ONE);
    let b = Vec3::new(4 * ONE, 5 * ONE, 6 * ONE);
    assert_eq!(a.add(&b), Vec3::new(5 * ONE, 7 * ONE, 9 * ONE));
    assert_eq!(b.sub(&a), Vec3::new(3 * ONE, 3 * ONE, 3 * ONE));
    assert_eq!(a.mul(&b), Vec3::new(4 * ONE, 10 * ONE, 18 * ONE));
    assert_eq!(a.scale(TWO), Vec3::new(2 * ONE, 4 * ONE, 6 * ONE));
    assert_eq!(a.div_scalar(TWO), Vec3::new(HALF, ONE, ONE + HALF));
    assert_eq!(a.neg(), Vec3::new(-ONE, -2 * ONE, -3 * ONE));
}

#[test]
fn dot_and_cross() {
    let a = Vec3::new(ONE, 2 * ONE, 3 * ONE);
    let b = Vec3::new(4 * ONE, 5 * ONE, 6 * ONE);
    assert_eq!(dot(&a, &b), 32 * ONE);
    assert_eq!(cross(&a, &b), Vec3::new(-3 * ONE, 6 * ONE, -3 * ONE));
    let x = Vec3::new(ONE, 0, 0);
    let y = Vec3::new(0, ONE, 0);
    assert_eq!(cross(&x, &y), Vec3::new(0, 0, ONE));
}

#[test]
fn length_and_squared_length() {
    let v = Vec3::new(3 * ONE, 4 * ONE, 0);
    assert_eq!(v.squared_length(), 25 * ONE);
    assert_eq!(v.length(), 5 * ONE);
}

#[test]
fn unit_vector_length_exact() {
    let v = Vec3::new(3 * ONE, 4 * ONE, 0);
    let u = v.unit_vector();
    assert_eq!(u, Vec3::new(600_000, 800_000, 0));
    assert_eq!(u.length(), ONE);
}

#[test]
fn unit_vector_length_within_tolerance() {
    // a direction whose normalization cannot be exact
    let v = Vec3::new(ONE, ONE, ONE);
    let u = v.unit_vector();
    assert_eq!(u, Vec3::new(577_350, 577_350, 577_350));
    assert!((u.length() - ONE).abs() <= 10);
    assert!((u.squared_length() - ONE).abs() <= 10);
    // a lopsided one
    let v2 = Vec3::new(7 * ONE, -2 * ONE, 11 * ONE + 123_456);
    let u2 = v2.unit_vector();
    assert!((u2.length() - ONE).abs() <= 10);
}

#[test]
fn random_draws_vary() {
    let mut rng = rand::thread_rng();
    let first = Vec3::random(&mut rng);
    let mut saw_different = false;
    for _ in 0..20 {
        if Vec3::random(&mut rng) != first {
            saw_different = true;
        }
    }
    assert!(saw_different);
}

#[test]
fn random_components_in_range() {
    let mut rng = rand::thread_rng();
    for _ in 0..50 {
        let v = Vec3::random(&mut rng);
        assert!(0 <= v.x() && v.x() < ONE);
        assert!(0 <= v.y() && v.y() < ONE);
        assert!(0 <= v.z() && v.z() < ONE);
        let w = Vec3::random_range(&mut rng, -3 * ONE, 7 * ONE);
        assert!(-3 * ONE <= w.x() && w.x() < 7 * ONE);
        assert!(-3 * ONE <= w.y() && w.y() < 7 * ONE);
        assert!(-3 * ONE <= w.z() && w.z() < 7 * ONE);
    }
}
