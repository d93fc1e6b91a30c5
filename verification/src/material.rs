//! The material model: a closed set of scattering behaviours.
//!
//! `scatter` turns an incoming ray and a hit record into an attenuation
//! color, an outgoing ray and a flag saying whether the ray survives. The
//! random draws a material makes are existentially quantified in the
//! contract: whatever came out of the generator, the scattered ray is the
//! stated function of it.

use vstd::prelude::*;
use crate::fixed::{ONE, TWO, fx_add, fx_sub, fx_mul, fx_div, fx_neg, fx_sqrt, spec_add, spec_sub,
    spec_neg, spec_mul, spec_div, spec_sqrt, spec_tdiv, sqrt_floor, lemma_tdiv_close,
    lemma_sqrt_floor, lemma_spec_mul_self_nonneg, lemma_expand_sub_sq, lemma_mul_exchange,
    lemma_mul_exchange2, lemma_mul_swap3};
use crate::vec::{Vec3, Vec3V, SAMPLE_TRIES, dot, v3_add, v3_sub, v3_scale, v3_dot, v3_unit,
    v3_neg, v3_sqlen, v3_zero};
use crate::ray::{Ray, RayV};
use crate::hitable::{HitRecord, HitRecordV};
use crate::rng::rand_in_range;

verus! {

/// Ghost image of a material.
pub enum MaterialV {
    Lambertian { albedo: Vec3V },
    Metal { albedo: Vec3V, fuzz: int },
    Dielectric { refractive_idx: int },
}

/// A scattering behaviour, copied by value into each hit record.
#[derive(Clone, Copy, Debug, PartialEq, Eq, Structural)]
pub enum Material {
    Lambertian { albedo: Vec3 },
    Metal { albedo: Vec3, fuzz: i64 },
    Dielectric { refractive_idx: i64 },
}

impl View for Material {
    type V = MaterialV;

    open spec fn view(&self) -> MaterialV {
        match *self {
            Material::Lambertian { albedo } => MaterialV::Lambertian { albedo: albedo@ },
            Material::Metal { albedo, fuzz } => MaterialV::Metal {
                albedo: albedo@,
                fuzz: fuzz as int,
            },
            Material::Dielectric { refractive_idx } => MaterialV::Dielectric {
                refractive_idx: refractive_idx as int,
            },
        }
    }
}

/// A vector strictly inside the unit ball.
pub open spec fn in_unit_ball(v: Vec3V) -> bool {
    v3_sqlen(v) < ONE
}

/// Mirror reflection of `v` about the normal `n`.
pub open spec fn spec_reflect(v: Vec3V, n: Vec3V) -> Vec3V {
    v3_sub(v, v3_scale(n, spec_mul(TWO as int, v3_dot(v, n))))
}

/// Snell refraction of `v` through a surface with outward normal `n`; the
/// flag reports whether refraction is possible at all.
pub open spec fn spec_refract(v: Vec3V, n: Vec3V, ni_over_nt: int) -> (Vec3V, bool) {
    let uv = v3_unit(v);
    let dt = v3_dot(uv, n);
    let discriminant = spec_sub(
        ONE as int,
        spec_mul(spec_mul(ni_over_nt, ni_over_nt), spec_sub(ONE as int, spec_mul(dt, dt))),
    );
    if discriminant > 0 {
        (
            v3_sub(
                v3_scale(v3_sub(uv, v3_scale(n, dt)), ni_over_nt),
                v3_scale(n, spec_sqrt(discriminant)),
            ),
            true,
        )
    } else {
        (v3_zero(), false)
    }
}

/// The fifth power, folded left as the executable code computes it.
pub open spec fn spec_pow5(p: int) -> int {
    spec_mul(spec_mul(spec_mul(spec_mul(p, p), p), p), p)
}

/// Schlick's approximation of the Fresnel reflectance.
pub open spec fn spec_schlick(cosine: int, refractive_idx: int) -> int {
    let r0a = spec_div(spec_sub(ONE as int, refractive_idx), spec_add(ONE as int, refractive_idx));
    let r0 = spec_mul(r0a, r0a);
    spec_add(r0, spec_mul(spec_sub(ONE as int, r0), spec_pow5(spec_sub(ONE as int, cosine))))
}

/// The diffuse bounce: toward a random point in the unit ball tangent at the
/// hit point.
pub open spec fn lambertian_scatter_spec(rec: HitRecordV, rnd: Vec3V) -> RayV {
    let unit_center = v3_add(rec.p, rec.normal);
    let target = v3_add(unit_center, rnd);
    RayV { origin: rec.p, direction: v3_sub(target, rec.p) }
}

/// The mirror bounce, blurred by `fuzz` times a random point in the unit
/// ball.
pub open spec fn metal_scatter_spec(ray_in: RayV, rec: HitRecordV, fuzz: int, rnd: Vec3V) -> RayV {
    let reflected = spec_reflect(v3_unit(ray_in.direction), rec.normal);
    RayV { origin: rec.p, direction: v3_add(reflected, v3_scale(rnd, fuzz)) }
}

/// The dielectric bounce: refract when Snell's law allows it, and choose
/// between reflection and refraction by comparing the uniform `draw` against
/// the Schlick reflectance.
pub open spec fn dielectric_scatter_spec(
    ray_in: RayV,
    rec: HitRecordV,
    refractive_idx: int,
    draw: int,
) -> RayV {
    let reflected = spec_reflect(ray_in.direction, rec.normal);
    let ddn = v3_dot(ray_in.direction, rec.normal);
    let len = spec_sqrt(v3_sqlen(ray_in.direction));
    let outward_normal = if ddn > 0 {
        v3_neg(rec.normal)
    } else {
        rec.normal
    };
    let ni_over_nt = if ddn > 0 {
        refractive_idx
    } else {
        spec_div(ONE as int, refractive_idx)
    };
    let cosine = if ddn > 0 {
        spec_div(spec_mul(refractive_idx, ddn), len)
    } else {
        spec_div(spec_neg(ddn), len)
    };
    let refraction = spec_refract(ray_in.direction, outward_normal, ni_over_nt);
    let reflect_prob = if refraction.1 {
        spec_schlick(cosine, refractive_idx)
    } else {
        ONE as int
    };
    if draw < reflect_prob {
        RayV { origin: rec.p, direction: reflected }
    } else {
        RayV { origin: rec.p, direction: refraction.0 }
    }
}

/// The scattered ray is a diffuse bounce for some random point in the unit
/// ball.
pub open spec fn lambertian_scatter_ok(rec: HitRecordV, scattered: RayV) -> bool {
    exists|rnd: Vec3V| in_unit_ball(rnd) && scattered == lambertian_scatter_spec(rec, rnd)
}

/// The scattered ray is a fuzzed mirror bounce for some random point in the
/// unit ball.
pub open spec fn metal_scatter_ok(ray_in: RayV, rec: HitRecordV, fuzz: int, scattered: RayV) -> bool {
    exists|rnd: Vec3V| in_unit_ball(rnd) && scattered == metal_scatter_spec(ray_in, rec, fuzz, rnd)
}

/// The scattered ray is the dielectric bounce for some uniform draw from
/// `[0, 1)`.
pub open spec fn dielectric_scatter_ok(
    ray_in: RayV,
    rec: HitRecordV,
    refractive_idx: int,
    scattered: RayV,
) -> bool {
    exists|draw: int|
        0 <= draw < ONE && scattered == dielectric_scatter_spec(ray_in, rec, refractive_idx, draw)
}

/// A point drawn from the unit ball by rejection sampling over the cube
/// `[-1, 1)^3`.
pub fn random_in_unit_sphere(rng: &mut rand::rngs::ThreadRng) -> (p: Vec3)
    ensures
        in_unit_ball(p@),
{
    let mut p = Vec3::new(ONE, ONE, ONE);
    let mut sq = p.squared_length();
    let mut tries: u64 = 0;
    while sq >= ONE && tries < SAMPLE_TRIES
        invariant
            sq == v3_sqlen(p@),
            tries <= SAMPLE_TRIES,
        decreases SAMPLE_TRIES - tries,
    {
        let pt_in_unit_cube = Vec3::random(rng);
        p = pt_in_unit_cube.scale(TWO).sub(&Vec3::new(ONE, ONE, ONE));
        sq = p.squared_length();
        tries = tries + 1;
    }
    if sq >= ONE {
        let zero = Vec3::new(0, 0, 0);
        proof {
            crate::fixed::lemma_spec_mul_zero(0);
        }
        zero
    } else {
        p
    }
}

/// Mirror reflection of `v` about the normal `n`.
pub fn reflect(v: &Vec3, n: &Vec3) -> (r: Vec3)
    ensures
        r@ == spec_reflect(v@, n@),
{
    v.sub(&n.scale(fx_mul(TWO, dot(v, n))))
}

/// Snell refraction; the flag reports whether refraction is possible.
pub fn refract(v: &Vec3, n: &Vec3, ni_over_nt: i64) -> (r: (Vec3, bool))
    ensures
        r.0@ == spec_refract(v@, n@, ni_over_nt as int).0,
        r.1 == spec_refract(v@, n@, ni_over_nt as int).1,
{
    let uv = v.unit_vector();
    let dt = dot(&uv, n);
    let discriminant = fx_sub(ONE, fx_mul(fx_mul(ni_over_nt, ni_over_nt), fx_sub(ONE, fx_mul(dt, dt))));
    if discriminant > 0 {
        (
            uv.sub(&n.scale(dt)).scale(ni_over_nt).sub(&n.scale(fx_sqrt(discriminant))),
            true,
        )
    } else {
        (Vec3::new(0, 0, 0), false)
    }
}

/// One component of the refracted direction: its scaled value stays within
/// four scale-squares of the ideal combination of the incident component, the
/// normal component, the cosine, the index ratio and the root.
proof fn lemma_refract_comp(ui: int, ni: int, dt: int, eta: int, sd: int)
    requires
        -1_000_003 <= ui <= 1_000_003,
        -1_000_008 <= ni <= 1_000_008,
        -1_000_021 <= dt <= 1_000_021,
        0 < eta <= 2_000_000,
        0 <= sd <= 1_000_089,
    ensures
        ({
            let w = spec_sub(spec_mul(spec_sub(ui, spec_mul(ni, dt)), eta), spec_mul(ni, sd));
            let b = (ui * 1_000_000 - ni * dt) * eta - ni * (sd * 1_000_000);
            &&& b - 4 * 1_000_000_000_000 < w * 1_000_000_000_000 < b + 4 * 1_000_000_000_000
            &&& -6_000_000 <= w <= 6_000_000
            &&& -5_300_000_000_000_000_000 <= b <= 5_300_000_000_000_000_000
        }),
{
    let e = 1_000_000int;
    lemma_tdiv_close(ni * dt, e);
    let t1 = spec_tdiv(ni * dt, e);
    assert(-(e * (e + 30)) <= ni * dt <= e * (e + 30)) by (nonlinear_arith)
        requires
            -1_000_008 <= ni <= 1_000_008,
            -1_000_021 <= dt <= 1_000_021,
            e == 1_000_000,
    {
        assert(e * (e + 30) == 1_000_000 * 1_000_030);
        assert(ni * dt <= 1_000_008 * 1_000_021);
        assert(-(1_000_008 * 1_000_021) <= ni * dt);
    }
    assert(-(e + 31) <= t1 <= e + 31) by (nonlinear_arith)
        requires
            ni * dt - e < t1 * e < ni * dt + e,
            -(e * (e + 30)) <= ni * dt <= e * (e + 30),
            e == 1_000_000,
    {
        assert(t1 >= e + 32 ==> t1 * e >= (e + 32) * e);
        assert(t1 <= -(e + 32) ==> t1 * e <= -((e + 32) * e));
    }
    assert(spec_mul(ni, dt) == t1);
    let t2 = spec_sub(ui, t1);
    assert(t2 == ui - t1);
    let ax = ui * e - ni * dt;
    assert(ax - e < t2 * e < ax + e);
    lemma_tdiv_close(t2 * eta, e);
    let t3 = spec_tdiv(t2 * eta, e);
    assert(-(e * (5 * e)) <= t2 * eta <= e * (5 * e)) by (nonlinear_arith)
        requires
            -(2 * e + 34) <= t2 <= 2 * e + 34,
            0 < eta <= 2 * e,
            e == 1_000_000,
    {
    }
    assert(-(5 * e + 1) <= t3 <= 5 * e + 1) by (nonlinear_arith)
        requires
            t2 * eta - e < t3 * e < t2 * eta + e,
            -(e * (5 * e)) <= t2 * eta <= e * (5 * e),
            e == 1_000_000,
    {
        assert(t3 >= 5 * e + 2 ==> t3 * e >= (5 * e + 2) * e);
        assert(t3 <= -(5 * e + 2) ==> t3 * e <= -((5 * e + 2) * e));
    }
    assert(spec_mul(t2, eta) == t3);
    assert(ax * eta - 3 * (e * e) < t3 * (e * e) && t3 * (e * e) < ax * eta + 3 * (e * e))
        by (nonlinear_arith)
        requires
            t2 * eta - e < t3 * e < t2 * eta + e,
            ax - e < t2 * e < ax + e,
            0 < eta <= 2 * e,
            e == 1_000_000,
    {
        assert(t3 * (e * e) == (t3 * e) * e);
        assert((t2 * e) * eta == (t2 * eta) * e);
    }
    lemma_tdiv_close(ni * sd, e);
    let t4 = spec_tdiv(ni * sd, e);
    assert(-(e * (e + 98)) <= ni * sd <= e * (e + 98)) by (nonlinear_arith)
        requires
            -1_000_008 <= ni <= 1_000_008,
            0 <= sd <= 1_000_089,
            e == 1_000_000,
    {
        assert(ni * sd <= 1_000_008 * 1_000_089);
        assert(-(1_000_008 * 1_000_089) <= ni * sd);
        assert(1_000_008 * 1_000_089 <= 1_000_000 * 1_000_098);
    }
    assert(-(e + 99) <= t4 <= e + 99) by (nonlinear_arith)
        requires
            ni * sd - e < t4 * e < ni * sd + e,
            -(e * (e + 98)) <= ni * sd <= e * (e + 98),
            e == 1_000_000,
    {
        assert(t4 >= e + 100 ==> t4 * e >= (e + 100) * e);
        assert(t4 <= -(e + 100) ==> t4 * e <= -((e + 100) * e));
    }
    assert(spec_mul(ni, sd) == t4);
    let w = spec_sub(t3, t4);
    assert(w == t3 - t4);
    let b = ax * eta - ni * (sd * e);
    assert(b - 4 * (e * e) < w * (e * e) && w * (e * e) < b + 4 * (e * e)) by (nonlinear_arith)
        requires
            ax * eta - 3 * (e * e) < t3 * (e * e) < ax * eta + 3 * (e * e),
            ni * sd - e < t4 * e < ni * sd + e,
            w == t3 - t4,
            b == ax * eta - ni * (sd * e),
            e == 1_000_000,
    {
        assert(w * (e * e) == t3 * (e * e) - (t4 * e) * e);
        assert((ni * sd) * e == ni * (sd * e));
    }
    assert(-5_300_000_000_000_000_000 <= b <= 5_300_000_000_000_000_000) by (nonlinear_arith)
        requires
            b == ax * eta - ni * (sd * e),
            ax == ui * e - ni * dt,
            -1_000_003 <= ui <= 1_000_003,
            -1_000_008 <= ni <= 1_000_008,
            -1_000_021 <= dt <= 1_000_021,
            0 < eta <= 2_000_000,
            0 <= sd <= 1_000_089,
            e == 1_000_000,
    {
        assert(-(2_100_000_000_000int) <= ax <= 2_100_000_000_000int);
        assert(-(4_200_000_000_000_000_000int) <= ax * eta <= 4_200_000_000_000_000_000int);
        assert(0 <= sd * e <= 1_000_089_000_000int);
        assert(-(1_100_000_000_000_000_000int) <= ni * (sd * e) <= 1_100_000_000_000_000_000int);
    }
    assert(-(6 * e) <= w <= 6 * e) by (nonlinear_arith)
        requires
            b - 4 * (e * e) < w * (e * e) < b + 4 * (e * e),
            -5_300_000_000_000_000_000 <= b <= 5_300_000_000_000_000_000,
            e == 1_000_000,
    {
        assert(w >= 6 * e + 1 ==> w * (e * e) >= (6 * e + 1) * (e * e));
        assert(w <= -(6 * e + 1) ==> w * (e * e) <= -((6 * e + 1) * (e * e)));
    }
}

/// Refraction-length law: when refraction succeeds for an incident direction
/// the model can normalize (length at least one, coordinates far from
/// saturation), a near-unit normal, and an index ratio of at most two, the
/// refracted direction's squared length sits within six hundred millionths of
/// one.
pub proof fn lemma_refract_unit_length(v: Vec3V, n: Vec3V, ni_over_nt: int)
    requires
        crate::vec::v3_len(v) >= ONE,
        -1_000_000_000_000 <= v.x <= 1_000_000_000_000,
        -1_000_000_000_000 <= v.y <= 1_000_000_000_000,
        -1_000_000_000_000 <= v.z <= 1_000_000_000_000,
        ONE - 16 <= v3_sqlen(n) <= ONE + 16,
        0 < ni_over_nt <= TWO,
        spec_refract(v, n, ni_over_nt).1,
    ensures
        ONE - 600 <= v3_sqlen(spec_refract(v, n, ni_over_nt).0) <= ONE + 600,
{
    let e = 1_000_000int;
    let eta = ni_over_nt;

    // the normalized incident direction: near-unit square sum, small components
    crate::vec::lemma_unit_vector_length(v);
    crate::vec::lemma_unit_components(v);
    let u = v3_unit(v);
    crate::vec::lemma_sq_term(u.x);
    crate::vec::lemma_sq_term(u.y);
    crate::vec::lemma_sq_term(u.z);
    let qu = u.x * u.x + u.y * u.y + u.z * u.z;
    assert(v3_sqlen(u) == spec_mul(u.x, u.x) + spec_mul(u.y, u.y) + spec_mul(u.z, u.z));
    assert(v3_sqlen(u) * e <= qu < v3_sqlen(u) * e + 3 * e) by (nonlinear_arith)
        requires
            v3_sqlen(u) == spec_mul(u.x, u.x) + spec_mul(u.y, u.y) + spec_mul(u.z, u.z),
            spec_mul(u.x, u.x) * e <= u.x * u.x < spec_mul(u.x, u.x) * e + e,
            spec_mul(u.y, u.y) * e <= u.y * u.y < spec_mul(u.y, u.y) * e + e,
            spec_mul(u.z, u.z) * e <= u.z * u.z < spec_mul(u.z, u.z) * e + e,
            qu == u.x * u.x + u.y * u.y + u.z * u.z,
    {
    }
    let du = qu - e * e;
    assert(-13 * e <= du && du <= 16 * e) by (nonlinear_arith)
        requires
            du == qu - e * e,
            v3_sqlen(u) * e <= qu < v3_sqlen(u) * e + 3 * e,
            e - 13 <= v3_sqlen(u) <= e + 13,
            e == 1_000_000,
    {
    }

    // the near-unit normal: bounded components, square sum close to one
    lemma_spec_mul_self_nonneg(n.x);
    lemma_spec_mul_self_nonneg(n.y);
    lemma_spec_mul_self_nonneg(n.z);
    assert(v3_sqlen(n) == spec_mul(n.x, n.x) + spec_mul(n.y, n.y) + spec_mul(n.z, n.z));
    assert(n.x * n.x >= 0 && n.y * n.y >= 0 && n.z * n.z >= 0) by (nonlinear_arith);
    assert(spec_tdiv(n.x * n.x, e) == spec_mul(n.x, n.x));
    assert(spec_tdiv(n.y * n.y, e) == spec_mul(n.y, n.y));
    assert(spec_tdiv(n.z * n.z, e) == spec_mul(n.z, n.z));
    vstd::arithmetic::div_mod::lemma_remainder(n.x * n.x, e);
    vstd::arithmetic::div_mod::lemma_remainder(n.y * n.y, e);
    vstd::arithmetic::div_mod::lemma_remainder(n.z * n.z, e);
    vstd::arithmetic::mul::lemma_mul_is_commutative(n.x * n.x / e, e);
    vstd::arithmetic::mul::lemma_mul_is_commutative(n.y * n.y / e, e);
    vstd::arithmetic::mul::lemma_mul_is_commutative(n.z * n.z / e, e);
    assert(-(e + 8) <= n.x <= e + 8 && -(e + 8) <= n.y <= e + 8 && -(e + 8) <= n.z <= e + 8)
        by (nonlinear_arith)
        requires
            n.x * n.x < (spec_mul(n.x, n.x) + 1) * e,
            n.y * n.y < (spec_mul(n.y, n.y) + 1) * e,
            n.z * n.z < (spec_mul(n.z, n.z) + 1) * e,
            spec_mul(n.x, n.x) <= e + 16,
            spec_mul(n.y, n.y) <= e + 16,
            spec_mul(n.z, n.z) <= e + 16,
            e == 1_000_000,
    {
        assert(n.x >= e + 9 || n.x <= -(e + 9) ==> n.x * n.x >= (e + 9) * (e + 9));
        assert(n.y >= e + 9 || n.y <= -(e + 9) ==> n.y * n.y >= (e + 9) * (e + 9));
        assert(n.z >= e + 9 || n.z <= -(e + 9) ==> n.z * n.z >= (e + 9) * (e + 9));
        assert((e + 9) * (e + 9) >= (e + 17) * e);
    }
    let qn = n.x * n.x + n.y * n.y + n.z * n.z;
    assert(v3_sqlen(n) * e <= qn < v3_sqlen(n) * e + 3 * e) by (nonlinear_arith)
        requires
            v3_sqlen(n) == spec_mul(n.x, n.x) + spec_mul(n.y, n.y) + spec_mul(n.z, n.z),
            spec_mul(n.x, n.x) * e <= n.x * n.x < spec_mul(n.x, n.x) * e + e,
            spec_mul(n.y, n.y) * e <= n.y * n.y < spec_mul(n.y, n.y) * e + e,
            spec_mul(n.z, n.z) * e <= n.z * n.z < spec_mul(n.z, n.z) * e + e,
            qn == n.x * n.x + n.y * n.y + n.z * n.z,
    {
    }
    let dn = qn - e * e;
    assert(-16 * e <= dn && dn <= 19 * e) by (nonlinear_arith)
        requires
            dn == qn - e * e,
            v3_sqlen(n) * e <= qn < v3_sqlen(n) * e + 3 * e,
            e - 16 <= v3_sqlen(n) <= e + 16,
            e == 1_000_000,
    {
    }

    // the cosine: each cross term is squeezed between the two squares, so the
    // dot stays within a hair of one
    let p = u.x * n.x + u.y * n.y + u.z * n.z;
    let dt = v3_dot(u, n);
    lemma_tdiv_close(u.x * n.x, e);
    lemma_tdiv_close(u.y * n.y, e);
    lemma_tdiv_close(u.z * n.z, e);
    assert(-(e * (e + 12)) <= u.x * n.x <= e * (e + 12) && -(e * (e + 12)) <= u.y * n.y <= e * (e
        + 12) && -(e * (e + 12)) <= u.z * n.z <= e * (e + 12)) by (nonlinear_arith)
        requires
            -(e + 3) <= u.x <= e + 3,
            -(e + 3) <= u.y <= e + 3,
            -(e + 3) <= u.z <= e + 3,
            -(e + 8) <= n.x <= e + 8,
            -(e + 8) <= n.y <= e + 8,
            -(e + 8) <= n.z <= e + 8,
            e == 1_000_000,
    {
        assert((e + 3) * (e + 8) <= e * (e + 12));
    }
    assert(-(e + 13) <= spec_tdiv(u.x * n.x, e) <= e + 13) by (nonlinear_arith)
        requires
            u.x * n.x - e < spec_tdiv(u.x * n.x, e) * e < u.x * n.x + e,
            -(e * (e + 12)) <= u.x * n.x <= e * (e + 12),
            e == 1_000_000,
    {
        assert(spec_tdiv(u.x * n.x, e) >= e + 14 ==> spec_tdiv(u.x * n.x, e) * e >= (e + 14) * e);
        assert(spec_tdiv(u.x * n.x, e) <= -(e + 14) ==> spec_tdiv(u.x * n.x, e) * e <= -((e + 14)
            * e));
    }
    assert(-(e + 13) <= spec_tdiv(u.y * n.y, e) <= e + 13) by (nonlinear_arith)
        requires
            u.y * n.y - e < spec_tdiv(u.y * n.y, e) * e < u.y * n.y + e,
            -(e * (e + 12)) <= u.y * n.y <= e * (e + 12),
            e == 1_000_000,
    {
        assert(spec_tdiv(u.y * n.y, e) >= e + 14 ==> spec_tdiv(u.y * n.y, e) * e >= (e + 14) * e);
        assert(spec_tdiv(u.y * n.y, e) <= -(e + 14) ==> spec_tdiv(u.y * n.y, e) * e <= -((e + 14)
            * e));
    }
    assert(-(e + 13) <= spec_tdiv(u.z * n.z, e) <= e + 13) by (nonlinear_arith)
        requires
            u.z * n.z - e < spec_tdiv(u.z * n.z, e) * e < u.z * n.z + e,
            -(e * (e + 12)) <= u.z * n.z <= e * (e + 12),
            e == 1_000_000,
    {
        assert(spec_tdiv(u.z * n.z, e) >= e + 14 ==> spec_tdiv(u.z * n.z, e) * e >= (e + 14) * e);
        assert(spec_tdiv(u.z * n.z, e) <= -(e + 14) ==> spec_tdiv(u.z * n.z, e) * e <= -((e + 14)
            * e));
    }
    assert(spec_mul(u.x, n.x) == spec_tdiv(u.x * n.x, e));
    assert(spec_mul(u.y, n.y) == spec_tdiv(u.y * n.y, e));
    assert(spec_mul(u.z, n.z) == spec_tdiv(u.z * n.z, e));
    assert(dt == spec_tdiv(u.x * n.x, e) + spec_tdiv(u.y * n.y, e) + spec_tdiv(u.z * n.z, e));
    assert(p - 3 * e < dt * e && dt * e < p + 3 * e);
    let ep = dt * e - p;
    assert(-3 * e < ep && ep < 3 * e);
    assert(2 * (u.x * n.x) <= u.x * u.x + n.x * n.x && -(u.x * u.x + n.x * n.x) <= 2 * (u.x
        * n.x)) by (nonlinear_arith)
    {
        assert((u.x - n.x) * (u.x - n.x) >= 0);
        assert((u.x + n.x) * (u.x + n.x) >= 0);
    }
    assert(2 * (u.y * n.y) <= u.y * u.y + n.y * n.y && -(u.y * u.y + n.y * n.y) <= 2 * (u.y
        * n.y)) by (nonlinear_arith)
    {
        assert((u.y - n.y) * (u.y - n.y) >= 0);
        assert((u.y + n.y) * (u.y + n.y) >= 0);
    }
    assert(2 * (u.z * n.z) <= u.z * u.z + n.z * n.z && -(u.z * u.z + n.z * n.z) <= 2 * (u.z
        * n.z)) by (nonlinear_arith)
    {
        assert((u.z - n.z) * (u.z - n.z) >= 0);
        assert((u.z + n.z) * (u.z + n.z) >= 0);
    }
    assert(-(qu + qn) <= 2 * p && 2 * p <= qu + qn);
    assert(-(e * e + 18 * e) <= p && p <= e * e + 18 * e);
    assert(-(e + 21) <= dt && dt <= e + 21) by (nonlinear_arith)
        requires
            p - 3 * e < dt * e < p + 3 * e,
            -(e * e + 18 * e) <= p <= e * e + 18 * e,
            e == 1_000_000,
    {
        assert(dt >= e + 22 ==> dt * e >= (e + 22) * e);
        assert(dt <= -(e + 22) ==> dt * e <= -((e + 22) * e));
    }

    // the Snell discriminant tracks one minus the squared-sine term
    let g1 = spec_mul(dt, dt);
    crate::vec::lemma_sq_term(dt);
    assert(0 <= g1 && g1 <= e + 43) by (nonlinear_arith)
        requires
            g1 * e <= dt * dt,
            dt * dt < g1 * e + e,
            -(e + 21) <= dt <= e + 21,
            0 <= g1,
            e == 1_000_000,
    {
        assert(dt * dt <= (e + 21) * (e + 21));
        assert(g1 >= e + 44 ==> g1 * e >= (e + 44) * e);
        assert((e + 44) * e > (e + 21) * (e + 21));
    }
    let g2 = spec_sub(ONE as int, g1);
    assert(g2 == e - g1);
    let g3 = spec_mul(eta, eta);
    crate::vec::lemma_sq_term(eta);
    assert(0 <= eta * eta <= 4 * (e * e)) by (nonlinear_arith)
        requires
            0 < eta <= 2 * e,
            e == 1_000_000,
    {
        assert(eta * eta <= (2 * e) * (2 * e));
    }
    assert(0 <= g3 && g3 <= 4 * e) by (nonlinear_arith)
        requires
            g3 * e <= eta * eta,
            eta * eta <= 4 * (e * e),
            0 <= g3,
            e == 1_000_000,
    {
        assert(g3 >= 4 * e + 1 ==> g3 * e >= (4 * e + 1) * e);
    }
    let g4 = spec_mul(g3, g2);
    lemma_tdiv_close(g3 * g2, e);
    assert(-(5 * e * e) <= g3 * g2 <= 5 * e * e) by (nonlinear_arith)
        requires
            0 <= g3 <= 4 * e,
            -(e + 43) <= g2 <= e,
            e == 1_000_000,
    {
        assert(g3 * g2 <= (4 * e) * e);
        assert(-((4 * e) * (e + 43)) <= g3 * g2);
    }
    assert(-(5 * e + 1) <= spec_tdiv(g3 * g2, e) <= 5 * e + 1) by (nonlinear_arith)
        requires
            g3 * g2 - e < spec_tdiv(g3 * g2, e) * e < g3 * g2 + e,
            -(5 * e * e) <= g3 * g2 <= 5 * e * e,
            e == 1_000_000,
    {
        assert(spec_tdiv(g3 * g2, e) >= 5 * e + 2 ==> spec_tdiv(g3 * g2, e) * e >= (5 * e + 2)
            * e);
        assert(spec_tdiv(g3 * g2, e) <= -(5 * e + 2) ==> spec_tdiv(g3 * g2, e) * e <= -((5 * e
            + 2) * e));
    }
    assert(g4 == spec_tdiv(g3 * g2, e));
    let dd = spec_sub(ONE as int, g4);
    assert(dd == e - g4);
    assert(dd >= 1);
    assert(g2 * e >= e * e - dt * dt && g2 * e < e * e - dt * dt + e) by (nonlinear_arith)
        requires
            g2 == e - g1,
            g1 * e <= dt * dt,
            dt * dt < g1 * e + e,
            e == 1_000_000,
    {
        assert(g2 * e == e * e - g1 * e);
    }
    assert(-(e * e) <= e * e - dt * dt <= e * e) by (nonlinear_arith)
        requires
            -(e + 21) <= dt <= e + 21,
            e == 1_000_000,
    {
        assert(dt * dt <= (e + 21) * (e + 21));
        assert(dt * dt >= 0);
        assert((e + 21) * (e + 21) <= 2 * (e * e));
    }
    assert(g3 * g2 * (e * e) <= eta * eta * (e * e - dt * dt) + 6 * (e * e * e) && g3 * g2 * (e
        * e) >= eta * eta * (e * e - dt * dt) - 6 * (e * e * e)) by (nonlinear_arith)
        requires
            eta * eta - e < g3 * e,
            g3 * e <= eta * eta,
            e * e - dt * dt <= g2 * e,
            g2 * e < e * e - dt * dt + e,
            0 <= eta * eta <= 4 * (e * e),
            -(e * e) <= e * e - dt * dt <= e * e,
            e == 1_000_000,
    {
        assert(g3 * g2 * (e * e) == (g3 * e) * (g2 * e));
    }
    assert(dd * (e * e * e) <= e * e * (e * e) - eta * eta * (e * e) + eta * eta * (dt * dt) + 7
        * (e * e * e) && dd * (e * e * e) >= e * e * (e * e) - eta * eta * (e * e) + eta * eta * (
    dt * dt) - 7 * (e * e * e)) by (nonlinear_arith)
        requires
            dd == e - g4,
            g3 * g2 - e < g4 * e < g3 * g2 + e,
            g3 * g2 * (e * e) <= eta * eta * (e * e - dt * dt) + 6 * (e * e * e),
            g3 * g2 * (e * e) >= eta * eta * (e * e - dt * dt) - 6 * (e * e * e),
            e == 1_000_000,
    {
        assert(dd * (e * e * e) == e * (e * e * e) - g4 * (e * e * e));
        assert(g4 * (e * e * e) == (g4 * e) * (e * e));
        assert(eta * eta * (e * e - dt * dt) == eta * eta * (e * e) - eta * eta * (dt * dt));
    }

    // the root of the discriminant
    let sd = spec_sqrt(dd);
    lemma_sqrt_floor((dd * ONE) as nat);
    assert(sd == sqrt_floor((dd * ONE) as nat));
    assert(sd * sd <= dd * e && dd * e < (sd + 1) * (sd + 1));
    assert(dd <= e + 179) by (nonlinear_arith)
        requires
            dd * (e * e * e) <= e * e * (e * e) - eta * eta * (e * e) + eta * eta * (dt * dt) + 7
                * (e * e * e),
            -(e + 21) <= dt <= e + 21,
            0 < eta <= 2 * e,
            0 <= eta * eta <= 4 * (e * e),
            e == 1_000_000,
    {
        assert(dt * dt <= (e + 21) * (e + 21));
        assert(eta * eta * (dt * dt) - eta * eta * (e * e) == eta * eta * (dt * dt - e * e));
        assert(dt * dt - e * e <= 43 * e);
        assert(eta * eta * (dt * dt - e * e) <= (4 * (e * e)) * (43 * e));
        assert(dd >= e + 180 ==> dd * (e * e * e) >= (e + 180) * (e * e * e));
    }
    assert(0 <= sd && sd <= e + 89) by (nonlinear_arith)
        requires
            sd * sd <= dd * e,
            dd <= e + 179,
            sd >= 0,
            e == 1_000_000,
    {
        assert(dd * e <= (e + 179) * e);
        assert(sd >= e + 90 ==> sd * sd >= (e + 90) * (e + 90));
        assert((e + 90) * (e + 90) > (e + 179) * e);
    }

    // the refracted components and their ideal counterparts
    lemma_refract_comp(u.x, n.x, dt, eta, sd);
    lemma_refract_comp(u.y, n.y, dt, eta, sd);
    lemma_refract_comp(u.z, n.z, dt, eta, sd);
    let w = spec_refract(v, n, eta).0;
    assert(w.x == spec_sub(spec_mul(spec_sub(u.x, spec_mul(n.x, dt)), eta), spec_mul(n.x, sd)));
    assert(w.y == spec_sub(spec_mul(spec_sub(u.y, spec_mul(n.y, dt)), eta), spec_mul(n.y, sd)));
    assert(w.z == spec_sub(spec_mul(spec_sub(u.z, spec_mul(n.z, dt)), eta), spec_mul(n.z, sd)));
    let sde = sd * e;
    let edt = e * dt;
    let es = eta * sde;
    let ax = u.x * e - n.x * dt;
    let ay = u.y * e - n.y * dt;
    let az = u.z * e - n.z * dt;
    let bx = ax * eta - n.x * sde;
    let by = ay * eta - n.y * sde;
    let bz = az * eta - n.z * sde;
    assert(bx - 4 * (e * e) < w.x * (e * e) < bx + 4 * (e * e));
    assert(by - 4 * (e * e) < w.y * (e * e) < by + 4 * (e * e));
    assert(bz - 4 * (e * e) < w.z * (e * e) < bz + 4 * (e * e));
    assert(-(6 * e) <= w.x <= 6 * e && -(6 * e) <= w.y <= 6 * e && -(6 * e) <= w.z <= 6 * e);
    assert(-5_300_000_000_000_000_000 <= bx <= 5_300_000_000_000_000_000);
    assert(-5_300_000_000_000_000_000 <= by <= 5_300_000_000_000_000_000);
    assert(-5_300_000_000_000_000_000 <= bz <= 5_300_000_000_000_000_000);

    // expand the ideal squares
    lemma_expand_sub_sq(ax * eta, n.x * sde);
    lemma_expand_sub_sq(ay * eta, n.y * sde);
    lemma_expand_sub_sq(az * eta, n.z * sde);
    lemma_mul_exchange(ax, eta, ax, eta);
    lemma_mul_exchange(ay, eta, ay, eta);
    lemma_mul_exchange(az, eta, az, eta);
    lemma_mul_exchange(ax, eta, n.x, sde);
    lemma_mul_exchange(ay, eta, n.y, sde);
    lemma_mul_exchange(az, eta, n.z, sde);
    lemma_mul_exchange(n.x, sde, n.x, sde);
    lemma_mul_exchange(n.y, sde, n.y, sde);
    lemma_mul_exchange(n.z, sde, n.z, sde);
    vstd::arithmetic::mul::lemma_mul_is_commutative(ax * n.x, es);
    vstd::arithmetic::mul::lemma_mul_is_commutative(ay * n.y, es);
    vstd::arithmetic::mul::lemma_mul_is_commutative(az * n.z, es);
    assert(bx * bx == (ax * ax) * (eta * eta) - 2 * (es * (ax * n.x)) + (n.x * n.x) * (sde * sde));
    assert(by * by == (ay * ay) * (eta * eta) - 2 * (es * (ay * n.y)) + (n.y * n.y) * (sde * sde));
    assert(bz * bz == (az * az) * (eta * eta) - 2 * (es * (az * n.z)) + (n.z * n.z) * (sde * sde));
    lemma_expand_sub_sq(u.x * e, n.x * dt);
    lemma_expand_sub_sq(u.y * e, n.y * dt);
    lemma_expand_sub_sq(u.z * e, n.z * dt);
    lemma_mul_exchange(u.x, e, u.x, e);
    lemma_mul_exchange(u.y, e, u.y, e);
    lemma_mul_exchange(u.z, e, u.z, e);
    lemma_mul_exchange(u.x, e, n.x, dt);
    lemma_mul_exchange(u.y, e, n.y, dt);
    lemma_mul_exchange(u.z, e, n.z, dt);
    lemma_mul_exchange2(u.x, e, n.x, dt);
    lemma_mul_exchange2(u.y, e, n.y, dt);
    lemma_mul_exchange2(u.z, e, n.z, dt);
    lemma_mul_exchange(n.x, dt, n.x, dt);
    lemma_mul_exchange(n.y, dt, n.y, dt);
    lemma_mul_exchange(n.z, dt, n.z, dt);
    assert((u.x * n.x) * (e * dt) == (u.x * n.x) * edt);
    assert(ax * ax == (u.x * u.x) * (e * e) - 2 * ((u.x * n.x) * edt) + (n.x * n.x) * (dt * dt));
    assert(ay * ay == (u.y * u.y) * (e * e) - 2 * ((u.y * n.y) * edt) + (n.y * n.y) * (dt * dt));
    assert(az * az == (u.z * u.z) * (e * e) - 2 * ((u.z * n.z) * edt) + (n.z * n.z) * (dt * dt));
    vstd::arithmetic::mul::lemma_mul_is_distributive_sub_other_way(n.x, u.x * e, n.x * dt);
    vstd::arithmetic::mul::lemma_mul_is_distributive_sub_other_way(n.y, u.y * e, n.y * dt);
    vstd::arithmetic::mul::lemma_mul_is_distributive_sub_other_way(n.z, u.z * e, n.z * dt);
    lemma_mul_swap3(u.x, e, n.x);
    lemma_mul_swap3(u.y, e, n.y);
    lemma_mul_swap3(u.z, e, n.z);
    lemma_mul_swap3(n.x, dt, n.x);
    lemma_mul_swap3(n.y, dt, n.y);
    lemma_mul_swap3(n.z, dt, n.z);
    assert(ax * n.x == (u.x * n.x) * e - (n.x * n.x) * dt);
    assert(ay * n.y == (u.y * n.y) * e - (n.y * n.y) * dt);
    assert(az * n.z == (u.z * n.z) * e - (n.z * n.z) * dt);

    // sum the components
    let sa2 = ax * ax + ay * ay + az * az;
    let san = ax * n.x + ay * n.y + az * n.z;
    let sb2 = bx * bx + by * by + bz * bz;
    assert((ax * ax) * (eta * eta) + (ay * ay) * (eta * eta) + (az * az) * (eta * eta) == sa2 * (
    eta * eta)) by (nonlinear_arith)
        requires
            sa2 == ax * ax + ay * ay + az * az,
    {
    }
    assert(es * (ax * n.x) + es * (ay * n.y) + es * (az * n.z) == es * san) by (nonlinear_arith)
        requires
            san == ax * n.x + ay * n.y + az * n.z,
    {
    }
    assert((n.x * n.x) * (sde * sde) + (n.y * n.y) * (sde * sde) + (n.z * n.z) * (sde * sde) == qn
        * (sde * sde)) by (nonlinear_arith)
        requires
            qn == n.x * n.x + n.y * n.y + n.z * n.z,
    {
    }
    assert(sb2 == sa2 * (eta * eta) - 2 * (es * san) + qn * (sde * sde));
    assert((u.x * u.x) * (e * e) + (u.y * u.y) * (e * e) + (u.z * u.z) * (e * e) == qu * (e * e)
        && (u.x * n.x) * edt + (u.y * n.y) * edt + (u.z * n.z) * edt == p * edt && (n.x * n.x) * (
    dt * dt) + (n.y * n.y) * (dt * dt) + (n.z * n.z) * (dt * dt) == qn * (dt * dt))
        by (nonlinear_arith)
        requires
            qu == u.x * u.x + u.y * u.y + u.z * u.z,
            qn == n.x * n.x + n.y * n.y + n.z * n.z,
            p == u.x * n.x + u.y * n.y + u.z * n.z,
    {
    }
    assert(sa2 == qu * (e * e) - 2 * (p * edt) + qn * (dt * dt));
    assert((u.x * n.x) * e + (u.y * n.y) * e + (u.z * n.z) * e == p * e && (n.x * n.x) * dt + (n.y
        * n.y) * dt + (n.z * n.z) * dt == qn * dt) by (nonlinear_arith)
        requires
            qn == n.x * n.x + n.y * n.y + n.z * n.z,
            p == u.x * n.x + u.y * n.y + u.z * n.z,
    {
    }
    assert(san == p * e - qn * dt);

    // substitute the near-unit deviations
    vstd::arithmetic::mul::lemma_mul_is_distributive_sub_other_way(edt, dt * e, ep);
    lemma_mul_exchange2(dt, e, e, dt);
    assert(p * edt == (dt * dt) * (e * e) - ep * edt);
    assert(qu * (e * e) == (e * e) * (e * e) + du * (e * e)) by (nonlinear_arith)
        requires
            qu == e * e + du,
            e == 1_000_000,
    {
    }
    assert(qn * (dt * dt) == (e * e) * (dt * dt) + dn * (dt * dt)) by (nonlinear_arith)
        requires
            qn == e * e + dn,
            e == 1_000_000,
    {
    }
    vstd::arithmetic::mul::lemma_mul_is_commutative(e * e, dt * dt);
    let core = e * e * (e * e) - (dt * dt) * (e * e);
    let r1t = du * (e * e) + 2 * (ep * edt) + dn * (dt * dt);
    assert(sa2 == core + r1t);
    vstd::arithmetic::mul::lemma_mul_is_distributive_sub_other_way(e, dt * e, ep);
    assert((dt * e) * e == (e * e) * dt) by (nonlinear_arith);
    assert(qn * dt == (e * e) * dt + dn * dt) by (nonlinear_arith)
        requires
            qn == e * e + dn,
            e == 1_000_000,
    {
    }
    let r2t = ep * e + dn * dt;
    assert(san == -r2t);
    assert(sa2 * (eta * eta) == core * (eta * eta) + r1t * (eta * eta)) by (nonlinear_arith)
        requires
            sa2 == core + r1t,
    {
    }
    assert(-2 * (es * san) == 2 * (es * r2t)) by (nonlinear_arith)
        requires
            san == -r2t,
    {
    }
    let s2 = sd * sd;
    lemma_mul_exchange(sd, e, sd, e);
    assert(sde * sde == s2 * (e * e));
    assert(qn * (sde * sde) == s2 * (e * e * (e * e)) + dn * (s2 * (e * e))) by (nonlinear_arith)
        requires
            qn == e * e + dn,
            sde * sde == s2 * (e * e),
            e == 1_000_000,
    {
    }

    // bound every deviation term
    assert(-(170 * 1_000_000_000_000_000_000_000_000_000_000int) <= r1t * (eta * eta) <= 170
        * 1_000_000_000_000_000_000_000_000_000_000int) by (nonlinear_arith)
        requires
            r1t == du * (e * e) + 2 * (ep * edt) + dn * (dt * dt),
            edt == e * dt,
            -13 * e <= du <= 16 * e,
            -3 * e < ep < 3 * e,
            -16 * e <= dn <= 19 * e,
            -(e + 21) <= dt <= e + 21,
            0 <= eta * eta <= 4 * (e * e),
            e == 1_000_000,
    {
        assert(du * (e * e) <= (16 * e) * (e * e));
        assert(-((16 * e) * (e * e)) <= du * (e * e));
        assert(2 * (ep * edt) <= 7 * (e * e * e) && -(7 * (e * e * e)) <= 2 * (ep * edt));
        assert(dn * (dt * dt) <= 21 * (e * e * e) && -(21 * (e * e * e)) <= dn * (dt * dt));
    }
    assert(-(95 * 1_000_000_000_000_000_000_000_000_000_000int) <= 2 * (es * r2t) <= 95
        * 1_000_000_000_000_000_000_000_000_000_000int) by (nonlinear_arith)
        requires
            r2t == ep * e + dn * dt,
            es == eta * sde,
            sde == sd * e,
            -3 * e < ep < 3 * e,
            -16 * e <= dn <= 19 * e,
            -(e + 21) <= dt <= e + 21,
            0 < eta <= 2 * e,
            0 <= sd <= e + 89,
            e == 1_000_000,
    {
        assert(ep * e <= 3 * (e * e) && -(3 * (e * e)) <= ep * e);
        assert(dn * dt <= 20 * (e * e) && -(20 * (e * e)) <= dn * dt);
        assert(0 <= sde && sde <= (e + 89) * e);
        assert(0 <= es && es <= (2 * e) * ((e + 89) * e));
    }
    assert(dd * e - 2 * sd <= s2 && s2 <= dd * e) by (nonlinear_arith)
        requires
            s2 == sd * sd,
            sd * sd <= dd * e,
            dd * e < (sd + 1) * (sd + 1),
            sd >= 0,
    {
    }
    assert(-(24 * 1_000_000_000_000_000_000_000_000_000_000int) <= qn * (sde * sde) - (dd * (e * e
        * e)) * (e * e) <= 24 * 1_000_000_000_000_000_000_000_000_000_000int) by (nonlinear_arith)
        requires
            qn * (sde * sde) == s2 * (e * e * (e * e)) + dn * (s2 * (e * e)),
            s2 == sd * sd,
            dd * e - 2 * sd <= s2 <= dd * e,
            -16 * e <= dn <= 19 * e,
            0 <= sd <= e + 89,
            1 <= dd <= e + 179,
            e == 1_000_000,
    {
        assert((dd * (e * e * e)) * (e * e) == (dd * e) * (e * e * (e * e)));
        assert(0 <= s2 <= dd * e);
        assert(dd * e <= (e + 179) * e);
        assert(dn * (s2 * (e * e)) <= (19 * e) * (((e + 179) * e) * (e * e)));
        assert(-((19 * e) * (((e + 179) * e) * (e * e))) <= dn * (s2 * (e * e)));
        assert((dd * e - s2) * (e * e * (e * e)) <= (2 * sd) * (e * e * (e * e)));
        assert(s2 * (e * e * (e * e)) - (dd * e) * (e * e * (e * e)) == -((dd * e - s2) * (e * e
            * (e * e))));
    }
    assert(core * (eta * eta) + (dd * (e * e * e)) * (e * e) >= e * e * (e * e) * (e * e) - 7
        * 1_000_000_000_000_000_000_000_000_000_000int && core * (eta * eta) + (dd * (e * e * e))
        * (e * e) <= e * e * (e * e) * (e * e) + 7 * 1_000_000_000_000_000_000_000_000_000_000int)
        by (nonlinear_arith)
        requires
            core == e * e * (e * e) - (dt * dt) * (e * e),
            dd * (e * e * e) <= e * e * (e * e) - eta * eta * (e * e) + eta * eta * (dt * dt) + 7
                * (e * e * e),
            dd * (e * e * e) >= e * e * (e * e) - eta * eta * (e * e) + eta * eta * (dt * dt) - 7
                * (e * e * e),
            e == 1_000_000,
    {
        assert(core * (eta * eta) == (eta * eta * (e * e)) * (e * e) - (eta * eta * (dt * dt)) * (
        e * e));
        assert((dd * (e * e * e)) * (e * e) <= (e * e * (e * e) - eta * eta * (e * e) + eta * eta
            * (dt * dt) + 7 * (e * e * e)) * (e * e));
        assert((dd * (e * e * e)) * (e * e) >= (e * e * (e * e) - eta * eta * (e * e) + eta * eta
            * (dt * dt) - 7 * (e * e * e)) * (e * e));
    }
    let e6 = e * e * (e * e) * (e * e);
    assert(sb2 == core * (eta * eta) + r1t * (eta * eta) + 2 * (es * r2t) + qn * (sde * sde));
    assert(e6 - 300 * 1_000_000_000_000_000_000_000_000_000_000int <= sb2 && sb2 <= e6 + 300
        * 1_000_000_000_000_000_000_000_000_000_000int);

    // the computed squares track the ideal ones
    let sww = w.x * w.x + w.y * w.y + w.z * w.z;
    lemma_mul_exchange(w.x, e * e, w.x, e * e);
    lemma_mul_exchange(w.y, e * e, w.y, e * e);
    lemma_mul_exchange(w.z, e * e, w.z, e * e);
    assert(bx * bx - 44 * 1_000_000_000_000_000_000_000_000_000_000int <= (w.x * w.x) * ((e * e)
        * (e * e)) <= bx * bx + 44 * 1_000_000_000_000_000_000_000_000_000_000int)
        by (nonlinear_arith)
        requires
            bx - 4 * (e * e) < w.x * (e * e) < bx + 4 * (e * e),
            -5_300_000_000_000_000_000 <= bx <= 5_300_000_000_000_000_000,
            (w.x * (e * e)) * (w.x * (e * e)) == (w.x * w.x) * ((e * e) * (e * e)),
            e == 1_000_000,
    {
    }
    assert(by * by - 44 * 1_000_000_000_000_000_000_000_000_000_000int <= (w.y * w.y) * ((e * e)
        * (e * e)) <= by * by + 44 * 1_000_000_000_000_000_000_000_000_000_000int)
        by (nonlinear_arith)
        requires
            by - 4 * (e * e) < w.y * (e * e) < by + 4 * (e * e),
            -5_300_000_000_000_000_000 <= by <= 5_300_000_000_000_000_000,
            (w.y * (e * e)) * (w.y * (e * e)) == (w.y * w.y) * ((e * e) * (e * e)),
            e == 1_000_000,
    {
    }
    assert(bz * bz - 44 * 1_000_000_000_000_000_000_000_000_000_000int <= (w.z * w.z) * ((e * e)
        * (e * e)) <= bz * bz + 44 * 1_000_000_000_000_000_000_000_000_000_000int)
        by (nonlinear_arith)
        requires
            bz - 4 * (e * e) < w.z * (e * e) < bz + 4 * (e * e),
            -5_300_000_000_000_000_000 <= bz <= 5_300_000_000_000_000_000,
            (w.z * (e * e)) * (w.z * (e * e)) == (w.z * w.z) * ((e * e) * (e * e)),
            e == 1_000_000,
    {
    }
    assert(sww * ((e * e) * (e * e)) == (w.x * w.x) * ((e * e) * (e * e)) + (w.y * w.y) * ((e * e)
        * (e * e)) + (w.z * w.z) * ((e * e) * (e * e))) by (nonlinear_arith)
        requires
            sww == w.x * w.x + w.y * w.y + w.z * w.z,
    {
    }
    assert(e6 - 432 * 1_000_000_000_000_000_000_000_000_000_000int <= sww * ((e * e) * (e * e))
        && sww * ((e * e) * (e * e)) <= e6 + 432 * 1_000_000_000_000_000_000_000_000_000_000int);
    assert(e * e - 433 * e <= sww && sww <= e * e + 433 * e) by (nonlinear_arith)
        requires
            e6 - 432 * 1_000_000_000_000_000_000_000_000_000_000int <= sww * ((e * e) * (e * e)),
            sww * ((e * e) * (e * e)) <= e6 + 432 * 1_000_000_000_000_000_000_000_000_000_000int,
            e6 == e * e * (e * e) * (e * e),
            e == 1_000_000,
    {
        assert(sww < e * e - 433 * e ==> sww * ((e * e) * (e * e)) <= (e * e - 433 * e - 1) * ((e
            * e) * (e * e)));
        assert(sww > e * e + 433 * e ==> sww * ((e * e) * (e * e)) >= (e * e + 433 * e + 1) * ((e
            * e) * (e * e)));
    }

    // floor the squares back down to the squared length
    crate::vec::lemma_sq_term(w.x);
    crate::vec::lemma_sq_term(w.y);
    crate::vec::lemma_sq_term(w.z);
    let sw = v3_sqlen(w);
    assert(sw == spec_mul(w.x, w.x) + spec_mul(w.y, w.y) + spec_mul(w.z, w.z));
    assert(sww - 3 * e < sw * e && sw * e <= sww) by (nonlinear_arith)
        requires
            sw == spec_mul(w.x, w.x) + spec_mul(w.y, w.y) + spec_mul(w.z, w.z),
            spec_mul(w.x, w.x) * e <= w.x * w.x < spec_mul(w.x, w.x) * e + e,
            spec_mul(w.y, w.y) * e <= w.y * w.y < spec_mul(w.y, w.y) * e + e,
            spec_mul(w.z, w.z) * e <= w.z * w.z < spec_mul(w.z, w.z) * e + e,
            sww == w.x * w.x + w.y * w.y + w.z * w.z,
    {
    }
    assert(e - 600 <= sw && sw <= e + 600) by (nonlinear_arith)
        requires
            sww - 3 * e < sw * e <= sww,
            e * e - 433 * e <= sww <= e * e + 433 * e,
            e == 1_000_000,
    {
        assert(sw < e - 600 ==> sw * e <= (e - 601) * e);
        assert(sw > e + 600 ==> sw * e >= (e + 601) * e);
    }
}

/// Schlick's approximation of the Fresnel reflectance.
pub fn schlick(cosine: i64, refractive_idx: i64) -> (r: i64)
    ensures
        r == spec_schlick(cosine as int, refractive_idx as int),
{
    let mut r0 = fx_div(fx_sub(ONE, refractive_idx), fx_add(ONE, refractive_idx));
    r0 = fx_mul(r0, r0);
    let p = fx_sub(ONE, cosine);
    let p5 = fx_mul(fx_mul(fx_mul(fx_mul(p, p), p), p), p);
    fx_add(r0, fx_mul(fx_sub(ONE, r0), p5))
}

/// Scatter an incoming ray off a material at a hit point: the attenuation
/// color, the outgoing ray, and whether the ray survives.
#[verifier::rlimit(50)]
pub fn scatter(
    material: &Material,
    ray_in: &Ray,
    hit_record: &HitRecord,
    rng: &mut rand::rngs::ThreadRng,
) -> (res: (Vec3, Ray, bool))
    ensures
        match material@ {
            MaterialV::Lambertian { albedo } => {
                &&& res.0@ == albedo
                &&& res.2 == true
                &&& lambertian_scatter_ok(hit_record@, res.1@)
            },
            MaterialV::Metal { albedo, fuzz } => {
                &&& res.0@ == albedo
                &&& res.2 == (v3_dot(res.1@.direction, hit_record@.normal) > 0)
                &&& metal_scatter_ok(ray_in@, hit_record@, fuzz, res.1@)
            },
            MaterialV::Dielectric { refractive_idx } => {
                &&& res.0@ == (Vec3V { x: ONE as int, y: ONE as int, z: ONE as int })
                &&& res.2 == true
                &&& dielectric_scatter_ok(ray_in@, hit_record@, refractive_idx, res.1@)
            },
        },
{
    match *material {
        Material::Lambertian { albedo } => {
            let rnd = random_in_unit_sphere(rng);
            let unit_center = hit_record.p.add(&hit_record.normal);
            let target = unit_center.add(&rnd);
            let scattered_ray = Ray { origin: hit_record.p, direction: target.sub(&hit_record.p) };
            proof {
                assert(in_unit_ball(rnd@) && scattered_ray@ == lambertian_scatter_spec(
                    hit_record@,
                    rnd@,
                ));
                assert(lambertian_scatter_ok(hit_record@, scattered_ray@));
            }
            (albedo, scattered_ray, true)
        },
        Material::Metal { albedo, fuzz } => {
            let rnd = random_in_unit_sphere(rng);
            let reflected = reflect(&ray_in.direction.unit_vector(), &hit_record.normal);
            let scattered_ray = Ray {
                origin: hit_record.p,
                direction: reflected.add(&rnd.scale(fuzz)),
            };
            let should_scatter = dot(&scattered_ray.direction, &hit_record.normal) > 0;
            proof {
                assert(in_unit_ball(rnd@) && scattered_ray@ == metal_scatter_spec(
                    ray_in@,
                    hit_record@,
                    fuzz as int,
                    rnd@,
                ));
                assert(metal_scatter_ok(ray_in@, hit_record@, fuzz as int, scattered_ray@));
            }
            (albedo, scattered_ray, should_scatter)
        },
        Material::Dielectric { refractive_idx } => {
            let reflected = reflect(&ray_in.direction, &hit_record.normal);
            let attenuation = Vec3::new(ONE, ONE, ONE);
            let direction_dot_normal = dot(&ray_in.direction, &hit_record.normal);
            let len = ray_in.direction.length();
            let (outward_normal, ni_over_nt, cosine) = if direction_dot_normal > 0 {
                (
                    hit_record.normal.neg(),
                    refractive_idx,
                    fx_div(fx_mul(refractive_idx, direction_dot_normal), len),
                )
            } else {
                (
                    hit_record.normal,
                    fx_div(ONE, refractive_idx),
                    fx_div(fx_neg(direction_dot_normal), len),
                )
            };
            let (refracted, should_refract) = refract(&ray_in.direction, &outward_normal, ni_over_nt);
            let reflect_prob = if should_refract {
                schlick(cosine, refractive_idx)
            } else {
                ONE
            };
            let draw = rand_in_range(rng, 0, ONE);
            let scattered_ray = if draw < reflect_prob {
                Ray { origin: hit_record.p, direction: reflected }
            } else {
                Ray { origin: hit_record.p, direction: refracted }
            };
            proof {
                assert(0 <= draw < ONE && scattered_ray@ == dielectric_scatter_spec(
                    ray_in@,
                    hit_record@,
                    refractive_idx as int,
                    draw as int,
                ));
                assert(dielectric_scatter_ok(ray_in@, hit_record@, refractive_idx as int, scattered_ray@));
            }
            (attenuation, scattered_ray, true)
        },
    }
}

} // verus!
