//! The color integrator: recursive path tracing with a hard depth cutoff.

use vstd::prelude::*;
use crate::fixed::{ONE, HALF, FX_MAX, fx_mul, fx_add, fx_sub, spec_mul, spec_add, spec_sub,
    spec_div, spec_tdiv, sqrt_floor, lemma_tdiv_close, lemma_tdiv_exact, lemma_sqrt_floor};
use crate::vec::{Vec3, Vec3V, v3_add, v3_mul, v3_scale, v3_unit, v3_dot, v3_len, v3_sqlen,
    lemma_sq_term, lemma_coord_le_len, lemma_unit_term};
use crate::ray::{Ray, RayV};
use crate::hitable::{Hitable, HitRecordV};
use crate::material::{MaterialV, scatter, lambertian_scatter_ok, metal_scatter_ok,
    dielectric_scatter_ok};

verus! {

/// Rays are only accepted this far (`0.001`) past their origin, which avoids
/// immediate re-intersection with the surface they leave.
pub const T_HIT_MIN: i64 = 1_000;

/// The recursion budget: paths longer than this contribute black.
pub const MAX_DEPTH: u32 = 50;

/// The background gradient a missed ray returns: white blended toward sky
/// blue by the unit direction's height.
pub open spec fn background_spec(r: RayV) -> Vec3V {
    let unit_direction = v3_unit(r.direction);
    let t = spec_mul(HALF as int, spec_add(unit_direction.y, ONE as int));
    v3_add(
        v3_scale(Vec3V { x: ONE as int, y: ONE as int, z: ONE as int }, spec_sub(ONE as int, t)),
        v3_scale(Vec3V { x: HALF as int, y: 700_000, z: ONE as int }, t),
    )
}

/// Background-range law: for a ray whose direction the model can normalize
/// (length at least one, coordinates far from saturation), the background
/// gradient's red and green channels lie within two millionths of `[0, 1]`,
/// and its blue channel is exactly one.
pub proof fn lemma_background_in_range(r: RayV)
    requires
        v3_len(r.direction) >= ONE,
        -1_000_000_000_000 <= r.direction.x <= 1_000_000_000_000,
        -1_000_000_000_000 <= r.direction.y <= 1_000_000_000_000,
        -1_000_000_000_000 <= r.direction.z <= 1_000_000_000_000,
    ensures
        -2 <= background_spec(r).x <= ONE + 2,
        -2 <= background_spec(r).y <= ONE + 2,
        background_spec(r).z == ONE,
{
    let e = 1_000_000int;
    let a = r.direction;

    // the direction's length brackets its vertical coordinate
    lemma_sq_term(a.x);
    lemma_sq_term(a.y);
    lemma_sq_term(a.z);
    let s = v3_sqlen(a);
    let l = v3_len(a);
    assert(s == spec_mul(a.x, a.x) + spec_mul(a.y, a.y) + spec_mul(a.z, a.z));
    assert(s >= 1);
    lemma_sqrt_floor((s * e) as nat);
    assert(l == sqrt_floor((s * e) as nat));
    assert(l * l <= s * e < (l + 1) * (l + 1));
    assert(l >= e);
    assert(a.y * a.y < s * e + e) by (nonlinear_arith)
        requires
            spec_mul(a.y, a.y) * e <= a.y * a.y,
            a.y * a.y < spec_mul(a.y, a.y) * e + e,
            spec_mul(a.y, a.y) <= s,
            e == 1_000_000,
    {
    }
    lemma_coord_le_len(a.y, l);
    lemma_unit_term(a.y, l);
    let uy = spec_div(a.y, l);
    assert(v3_unit(a).y == uy);
    assert(-(e + 3) <= uy <= e + 3);

    // the blend weight sits within two units of [0, 1]
    let y1 = spec_add(uy, ONE as int);
    assert(y1 == uy + e);
    let t = spec_mul(HALF as int, y1);
    lemma_tdiv_close((HALF as int) * y1, e);
    let tq = spec_tdiv((HALF as int) * y1, e);
    assert(-2 <= tq <= e + 2) by (nonlinear_arith)
        requires
            500_000 * y1 - e < tq * e < 500_000 * y1 + e,
            -3 <= y1 <= 2 * e + 3,
            e == 1_000_000,
    {
        assert(tq <= -3 ==> tq * e <= -3 * e);
        assert(tq >= e + 3 ==> tq * e >= (e + 3) * e);
    }
    assert(t == tq);

    // the white term is exact, and so is the blue channel's scale
    let s1 = spec_sub(ONE as int, t);
    assert(s1 == e - t);
    lemma_tdiv_exact(s1, e);
    assert((ONE as int) * s1 == s1 * e) by (nonlinear_arith)
        requires
            e == 1_000_000,
    {
    }
    assert(spec_mul(ONE as int, s1) == s1);
    lemma_tdiv_exact(t, e);
    assert((ONE as int) * t == t * e) by (nonlinear_arith)
        requires
            e == 1_000_000,
    {
    }
    assert(spec_mul(ONE as int, t) == t);

    // the red and green blue-terms track half and seven tenths of the weight
    lemma_tdiv_close((HALF as int) * t, e);
    let mx = spec_tdiv((HALF as int) * t, e);
    assert(-2 <= mx <= 500_002) by (nonlinear_arith)
        requires
            500_000 * t - e < mx * e < 500_000 * t + e,
            -2 <= t <= e + 2,
            e == 1_000_000,
    {
        assert(mx <= -3 ==> mx * e <= -3 * e);
        assert(mx >= 500_003 ==> mx * e >= 500_003 * e);
    }
    assert(spec_mul(HALF as int, t) == mx);
    lemma_tdiv_close(700_000 * t, e);
    let my = spec_tdiv(700_000 * t, e);
    assert(-2 <= my <= 700_002) by (nonlinear_arith)
        requires
            700_000 * t - e < my * e < 700_000 * t + e,
            -2 <= t <= e + 2,
            e == 1_000_000,
    {
        assert(my <= -3 ==> my * e <= -3 * e);
        assert(my >= 700_003 ==> my * e >= 700_003 * e);
    }
    assert(spec_mul(700_000int, t) == my);

    // assemble the three channels
    let bg = background_spec(r);
    assert(bg.z == spec_add(s1, t));
    assert(bg.z == ONE);
    assert(bg.x == spec_add(s1, mx));
    assert(bg.x == s1 + mx);
    assert(-2 <= s1 + mx <= e + 2) by (nonlinear_arith)
        requires
            s1 == e - t,
            500_000 * t - e < mx * e < 500_000 * t + e,
            -2 <= t <= e + 2,
            e == 1_000_000,
    {
        assert((s1 + mx) * e == s1 * e + mx * e);
        assert(s1 + mx <= -3 ==> (s1 + mx) * e <= -3 * e);
        assert(s1 + mx >= e + 3 ==> (s1 + mx) * e >= (e + 3) * e);
    }
    assert(bg.y == spec_add(s1, my));
    assert(bg.y == s1 + my);
    assert(-2 <= s1 + my <= e + 2) by (nonlinear_arith)
        requires
            s1 == e - t,
            700_000 * t - e < my * e < 700_000 * t + e,
            -2 <= t <= e + 2,
            e == 1_000_000,
    {
        assert((s1 + my) * e == s1 * e + my * e);
        assert(s1 + my <= -3 ==> (s1 + my) * e <= -3 * e);
        assert(s1 + my >= e + 3 ==> (s1 + my) * e >= (e + 3) * e);
    }
}

/// A diffuse result: for some unit-ball sample the ray bounced with, the
/// color is the albedo times a color the bounce admits one level deeper.
pub open spec fn lambertian_outcome<T: Hitable>(
    world: &T,
    rec: HitRecordV,
    depth: int,
    albedo: Vec3V,
    c: Vec3V,
) -> bool
    decreases MAX_DEPTH as int - depth, 0int,
    when depth < MAX_DEPTH as int
{
    exists|sc: RayV, cont: Vec3V|
        #![trigger lambertian_scatter_ok(rec, sc), v3_mul(albedo, cont)]
        lambertian_scatter_ok(rec, sc) && color_outcome(world, sc, depth + 1, cont) && c
            == v3_mul(albedo, cont)
}

/// A mirror result: for some unit-ball sample the reflection was fuzzed with,
/// either the bounce points into the surface and the color is black, or the
/// color is the albedo times a color the bounce admits one level deeper.
pub open spec fn metal_outcome<T: Hitable>(
    world: &T,
    r: RayV,
    rec: HitRecordV,
    depth: int,
    albedo: Vec3V,
    fuzz: int,
    c: Vec3V,
) -> bool
    decreases MAX_DEPTH as int - depth, 0int,
    when depth < MAX_DEPTH as int
{
    exists|sc: RayV|
        #[trigger] metal_scatter_ok(r, rec, fuzz, sc) && if v3_dot(sc.direction, rec.normal)
            > 0 {
            exists|cont: Vec3V|
                color_outcome(world, sc, depth + 1, cont) && c == #[trigger] v3_mul(albedo, cont)
        } else {
            c == (Vec3V { x: 0, y: 0, z: 0 })
        }
}

/// A glass result: for some uniform draw that chose between reflection and
/// refraction, the color is white times a color the bounce admits one level
/// deeper.
pub open spec fn dielectric_outcome<T: Hitable>(
    world: &T,
    r: RayV,
    rec: HitRecordV,
    depth: int,
    refractive_idx: int,
    c: Vec3V,
) -> bool
    decreases MAX_DEPTH as int - depth, 0int,
    when depth < MAX_DEPTH as int
{
    exists|sc: RayV, cont: Vec3V|
        #![trigger dielectric_scatter_ok(r, rec, refractive_idx, sc), v3_mul(
            Vec3V { x: ONE as int, y: ONE as int, z: ONE as int },
            cont,
        )]
        dielectric_scatter_ok(r, rec, refractive_idx, sc) && color_outcome(
            world,
            sc,
            depth + 1,
            cont,
        ) && c == v3_mul(Vec3V { x: ONE as int, y: ONE as int, z: ONE as int }, cont)
}

/// A witnessed diffuse bounce admits its color.
proof fn lemma_lambertian_outcome_intro<T: Hitable>(
    world: &T,
    rec: HitRecordV,
    depth: int,
    albedo: Vec3V,
    sc: RayV,
    cont: Vec3V,
    c: Vec3V,
)
    requires
        depth < MAX_DEPTH as int,
        lambertian_scatter_ok(rec, sc),
        color_outcome(world, sc, depth + 1, cont),
        c == v3_mul(albedo, cont),
    ensures
        lambertian_outcome(world, rec, depth, albedo, c),
{
}

/// A witnessed mirror bounce admits its color: the attenuated continuation
/// when it leaves the surface, black when it points inward.
proof fn lemma_metal_outcome_intro<T: Hitable>(
    world: &T,
    r: RayV,
    rec: HitRecordV,
    depth: int,
    albedo: Vec3V,
    fuzz: int,
    sc: RayV,
    cont: Vec3V,
    c: Vec3V,
)
    requires
        depth < MAX_DEPTH as int,
        metal_scatter_ok(r, rec, fuzz, sc),
        v3_dot(sc.direction, rec.normal) > 0 ==> color_outcome(world, sc, depth + 1, cont) && c
            == v3_mul(albedo, cont),
        v3_dot(sc.direction, rec.normal) <= 0 ==> c == (Vec3V { x: 0, y: 0, z: 0 }),
    ensures
        metal_outcome(world, r, rec, depth, albedo, fuzz, c),
{
    if v3_dot(sc.direction, rec.normal) > 0 {
        assert(color_outcome(world, sc, depth + 1, cont) && c == v3_mul(albedo, cont));
    }
}

/// A witnessed glass bounce admits its color.
proof fn lemma_dielectric_outcome_intro<T: Hitable>(
    world: &T,
    r: RayV,
    rec: HitRecordV,
    depth: int,
    refractive_idx: int,
    sc: RayV,
    cont: Vec3V,
    c: Vec3V,
)
    requires
        depth < MAX_DEPTH as int,
        dielectric_scatter_ok(r, rec, refractive_idx, sc),
        color_outcome(world, sc, depth + 1, cont),
        c == v3_mul(Vec3V { x: ONE as int, y: ONE as int, z: ONE as int }, cont),
    ensures
        dielectric_outcome(world, r, rec, depth, refractive_idx, c),
{
}

/// The colors a ray may gather at a given depth, as a relation over every
/// possible random outcome: the background on a miss; black once the depth
/// budget is exhausted; otherwise whatever the struck material's outcome
/// relation admits — black for an absorbed bounce, and the attenuation times
/// an admissible continuation color for a scattered one.
pub open spec fn color_outcome<T: Hitable>(world: &T, r: RayV, depth: int, c: Vec3V) -> bool
    decreases MAX_DEPTH as int - depth, 1int,
{
    match world.hit_spec(r, T_HIT_MIN as int, FX_MAX as int) {
        None => c == background_spec(r),
        Some(rec) => {
            if depth >= MAX_DEPTH {
                c == (Vec3V { x: 0, y: 0, z: 0 })
            } else {
                match rec.material {
                    MaterialV::Lambertian { albedo } => lambertian_outcome(
                        world,
                        rec,
                        depth,
                        albedo,
                        c,
                    ),
                    MaterialV::Metal { albedo, fuzz } => metal_outcome(
                        world,
                        r,
                        rec,
                        depth,
                        albedo,
                        fuzz,
                        c,
                    ),
                    MaterialV::Dielectric { refractive_idx } => dielectric_outcome(
                        world,
                        r,
                        rec,
                        depth,
                        refractive_idx,
                        c,
                    ),
                }
            }
        },
    }
}

/// The radiance a ray gathers from the scene: the background on a miss, black
/// for an absorbed or depth-exhausted path, and otherwise the scatter
/// attenuation times the continuation ray's color. The depth bound makes the
/// recursion terminate on every path; whatever the random draws did, the
/// result is one the [`color_outcome`] relation admits.
pub fn color<T: Hitable>(
    ray_in: &Ray,
    world: &T,
    depth: u32,
    rng: &mut rand::rngs::ThreadRng,
) -> (c: Vec3)
    ensures
        color_outcome(world, ray_in@, depth as int, c@),
        world.hit_spec(ray_in@, T_HIT_MIN as int, FX_MAX as int) is None ==> c@
            == background_spec(ray_in@),
        world.hit_spec(ray_in@, T_HIT_MIN as int, FX_MAX as int) is Some && depth >= MAX_DEPTH
            ==> c@ == (Vec3V { x: 0, y: 0, z: 0 }),
    decreases MAX_DEPTH as int - depth as int,
{
    if let Some(hit_record) = world.hit(ray_in, T_HIT_MIN, FX_MAX) {
        if depth < MAX_DEPTH {
            let (attenuation, scattered_ray, should_scatter) = scatter(
                &hit_record.material,
                ray_in,
                &hit_record,
                rng,
            );
            if should_scatter {
                let continuation = color(&scattered_ray, world, depth + 1, rng);
                let gathered = attenuation.mul(&continuation);
                proof {
                    let rec = hit_record@;
                    match rec.material {
                        MaterialV::Lambertian { albedo } => {
                            assert(lambertian_scatter_ok(rec, scattered_ray@));
                            assert(lambertian_scatter_ok(rec, scattered_ray@) && color_outcome(
                                world,
                                scattered_ray@,
                                depth as int + 1,
                                continuation@,
                            ) && gathered@ == v3_mul(albedo, continuation@));
                            lemma_lambertian_outcome_intro(
                                world,
                                rec,
                                depth as int,
                                albedo,
                                scattered_ray@,
                                continuation@,
                                gathered@,
                            );
                        },
                        MaterialV::Metal { albedo, fuzz } => {
                            assert(metal_scatter_ok(ray_in@, rec, fuzz, scattered_ray@));
                            assert(v3_dot(scattered_ray@.direction, rec.normal) > 0);
                            assert(metal_scatter_ok(ray_in@, rec, fuzz, scattered_ray@)
                                && color_outcome(
                                world,
                                scattered_ray@,
                                depth as int + 1,
                                continuation@,
                            ) && gathered@ == v3_mul(albedo, continuation@));
                            lemma_metal_outcome_intro(
                                world,
                                ray_in@,
                                rec,
                                depth as int,
                                albedo,
                                fuzz,
                                scattered_ray@,
                                continuation@,
                                gathered@,
                            );
                        },
                        MaterialV::Dielectric { refractive_idx } => {
                            assert(dielectric_scatter_ok(
                                ray_in@,
                                rec,
                                refractive_idx,
                                scattered_ray@,
                            ));
                            assert(dielectric_scatter_ok(ray_in@, rec, refractive_idx, scattered_ray@)
                                && color_outcome(
                                world,
                                scattered_ray@,
                                depth as int + 1,
                                continuation@,
                            ) && gathered@ == v3_mul(
                                Vec3V { x: ONE as int, y: ONE as int, z: ONE as int },
                                continuation@,
                            ));
                            lemma_dielectric_outcome_intro(
                                world,
                                ray_in@,
                                rec,
                                depth as int,
                                refractive_idx,
                                scattered_ray@,
                                continuation@,
                                gathered@,
                            );
                        },
                    }
                    assert(color_outcome(world, ray_in@, depth as int, gathered@));
                }
                gathered
            } else {
                let black = Vec3::new(0, 0, 0);
                proof {
                    let rec = hit_record@;
                    match rec.material {
                        MaterialV::Lambertian { .. } => {
                            // a diffuse bounce always scatters
                            assert(false);
                        },
                        MaterialV::Metal { albedo, fuzz } => {
                            assert(metal_scatter_ok(ray_in@, rec, fuzz, scattered_ray@));
                            assert(v3_dot(scattered_ray@.direction, rec.normal) <= 0);
                            lemma_metal_outcome_intro(
                                world,
                                ray_in@,
                                rec,
                                depth as int,
                                albedo,
                                fuzz,
                                scattered_ray@,
                                black@,
                                black@,
                            );
                        },
                        MaterialV::Dielectric { .. } => {
                            // a dielectric bounce always scatters
                            assert(false);
                        },
                    }
                    assert(color_outcome(world, ray_in@, depth as int, black@));
                }
                black
            }
        } else {
            let black = Vec3::new(0, 0, 0);
            proof {
                assert(color_outcome(world, ray_in@, depth as int, black@));
            }
            black
        }
    } else {
        let unit_direction = ray_in.direction.unit_vector();
        let t = fx_mul(HALF, fx_add(unit_direction.y(), ONE));
        let white = Vec3::new(ONE, ONE, ONE);
        let blue = Vec3::new(HALF, 700_000, ONE);
        let sky = white.scale(fx_sub(ONE, t)).add(&blue.scale(t));
        proof {
            assert(sky@ == background_spec(ray_in@));
            assert(color_outcome(world, ray_in@, depth as int, sky@));
        }
        sky
    }
}

} // verus!
