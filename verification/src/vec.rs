//! Three-component vectors over the fixed-point scalar.
//!
//! A `Vec3` serves both as a free vector and as a position; the distinction is
//! by convention, as the `Point3` alias records. Each operation's contract
//! states its result exactly, component by component, through the ghost image
//! [`Vec3V`].

use vstd::prelude::*;
use crate::fixed::{
    ONE, fx_add, fx_sub, fx_neg, fx_mul, fx_div, fx_sqrt, spec_add, spec_sub, spec_neg, spec_mul,
    spec_div, spec_sqrt, spec_tdiv, sqrt_floor, lemma_tdiv_close, lemma_sqrt_floor,
    lemma_sqrt_floor_mono, lemma_sqrt_floor_unique, lemma_sqrt_floor_square,
};
use crate::rng::rand_in_range;

verus! {

/// Ghost image of a vector: the three coordinates as unbounded integers.
pub struct Vec3V {
    pub x: int,
    pub y: int,
    pub z: int,
}

/// A vector of three fixed-point scalars.
#[derive(Clone, Copy, Debug, PartialEq, Eq, Structural)]
pub struct Vec3 {
    pub x: i64,
    pub y: i64,
    pub z: i64,
}

/// A position in space; same representation as a free vector.
pub type Point3 = Vec3;

impl View for Vec3 {
    type V = Vec3V;

    open spec fn view(&self) -> Vec3V {
        Vec3V { x: self.x as int, y: self.y as int, z: self.z as int }
    }
}

/// Component-wise saturating sum.
pub open spec fn v3_add(a: Vec3V, b: Vec3V) -> Vec3V {
    Vec3V { x: spec_add(a.x, b.x), y: spec_add(a.y, b.y), z: spec_add(a.z, b.z) }
}

/// Component-wise saturating difference.
pub open spec fn v3_sub(a: Vec3V, b: Vec3V) -> Vec3V {
    Vec3V { x: spec_sub(a.x, b.x), y: spec_sub(a.y, b.y), z: spec_sub(a.z, b.z) }
}

/// Component-wise negation.
pub open spec fn v3_neg(a: Vec3V) -> Vec3V {
    Vec3V { x: spec_neg(a.x), y: spec_neg(a.y), z: spec_neg(a.z) }
}

/// Component-wise (Hadamard) product.
pub open spec fn v3_mul(a: Vec3V, b: Vec3V) -> Vec3V {
    Vec3V { x: spec_mul(a.x, b.x), y: spec_mul(a.y, b.y), z: spec_mul(a.z, b.z) }
}

/// Scaling by a scalar.
pub open spec fn v3_scale(a: Vec3V, k: int) -> Vec3V {
    Vec3V { x: spec_mul(a.x, k), y: spec_mul(a.y, k), z: spec_mul(a.z, k) }
}

/// Division by a scalar.
pub open spec fn v3_divs(a: Vec3V, k: int) -> Vec3V {
    Vec3V { x: spec_div(a.x, k), y: spec_div(a.y, k), z: spec_div(a.z, k) }
}

/// The dot product, summed left to right.
pub open spec fn v3_dot(a: Vec3V, b: Vec3V) -> int {
    spec_add(spec_add(spec_mul(a.x, b.x), spec_mul(a.y, b.y)), spec_mul(a.z, b.z))
}

/// The squared Euclidean length.
pub open spec fn v3_sqlen(a: Vec3V) -> int {
    v3_dot(a, a)
}

/// The Euclidean length.
pub open spec fn v3_len(a: Vec3V) -> int {
    spec_sqrt(v3_sqlen(a))
}

/// The vector scaled to unit length (by saturating division; a zero-length
/// vector divides by zero and saturates).
pub open spec fn v3_unit(a: Vec3V) -> Vec3V {
    v3_divs(a, v3_len(a))
}

/// The cross product.
pub open spec fn v3_cross(a: Vec3V, b: Vec3V) -> Vec3V {
    Vec3V {
        x: spec_sub(spec_mul(a.y, b.z), spec_mul(a.z, b.y)),
        y: spec_sub(spec_mul(a.z, b.x), spec_mul(a.x, b.z)),
        z: spec_sub(spec_mul(a.x, b.y), spec_mul(a.y, b.x)),
    }
}

/// The all-zero vector.
pub open spec fn v3_zero() -> Vec3V {
    Vec3V { x: 0, y: 0, z: 0 }
}

impl Vec3 {
    /// Build a vector from its three fixed-point components.
    pub fn new(e0: i64, e1: i64, e2: i64) -> (v: Vec3)
        ensures
            v@ == (Vec3V { x: e0 as int, y: e1 as int, z: e2 as int }),
    {
        Vec3 { x: e0, y: e1, z: e2 }
    }

    /// The first spatial coordinate.
    pub fn x(&self) -> (r: i64)
        ensures
            r == self@.x,
    {
        self.x
    }

    /// The second spatial coordinate.
    pub fn y(&self) -> (r: i64)
        ensures
            r == self@.y,
    {
        self.y
    }

    /// The third spatial coordinate.
    pub fn z(&self) -> (r: i64)
        ensures
            r == self@.z,
    {
        self.z
    }

    /// The red channel, when the vector carries a color.
    pub fn r(&self) -> (r: i64)
        ensures
            r == self@.x,
    {
        self.x
    }

    /// The green channel, when the vector carries a color.
    pub fn g(&self) -> (r: i64)
        ensures
            r == self@.y,
    {
        self.y
    }

    /// The blue channel, when the vector carries a color.
    pub fn b(&self) -> (r: i64)
        ensures
            r == self@.z,
    {
        self.z
    }

    /// Component-wise saturating sum.
    pub fn add(&self, other: &Vec3) -> (v: Vec3)
        ensures
            v@ == v3_add(self@, other@),
    {
        Vec3 { x: fx_add(self.x, other.x), y: fx_add(self.y, other.y), z: fx_add(self.z, other.z) }
    }

    /// Component-wise saturating difference.
    pub fn sub(&self, other: &Vec3) -> (v: Vec3)
        ensures
            v@ == v3_sub(self@, other@),
    {
        Vec3 { x: fx_sub(self.x, other.x), y: fx_sub(self.y, other.y), z: fx_sub(self.z, other.z) }
    }

    /// Component-wise negation.
    pub fn neg(&self) -> (v: Vec3)
        ensures
            v@ == v3_neg(self@),
    {
        Vec3 { x: fx_neg(self.x), y: fx_neg(self.y), z: fx_neg(self.z) }
    }

    /// Component-wise (Hadamard) product.
    pub fn mul(&self, other: &Vec3) -> (v: Vec3)
        ensures
            v@ == v3_mul(self@, other@),
    {
        Vec3 { x: fx_mul(self.x, other.x), y: fx_mul(self.y, other.y), z: fx_mul(self.z, other.z) }
    }

    /// Scaling by a scalar.
    pub fn scale(&self, k: i64) -> (v: Vec3)
        ensures
            v@ == v3_scale(self@, k as int),
    {
        Vec3 { x: fx_mul(self.x, k), y: fx_mul(self.y, k), z: fx_mul(self.z, k) }
    }

    /// Division by a scalar (saturating; division by zero saturates).
    pub fn div_scalar(&self, k: i64) -> (v: Vec3)
        ensures
            v@ == v3_divs(self@, k as int),
    {
        Vec3 { x: fx_div(self.x, k), y: fx_div(self.y, k), z: fx_div(self.z, k) }
    }

    /// The squared Euclidean length.
    pub fn squared_length(&self) -> (r: i64)
        ensures
            r == v3_sqlen(self@),
    {
        fx_add(fx_add(fx_mul(self.x, self.x), fx_mul(self.y, self.y)), fx_mul(self.z, self.z))
    }

    /// The Euclidean length.
    pub fn length(&self) -> (r: i64)
        ensures
            r == v3_len(self@),
    {
        fx_sqrt(self.squared_length())
    }

    /// The vector scaled to unit length. A zero-length vector saturates, as
    /// its components divide by zero.
    pub fn unit_vector(&self) -> (v: Vec3)
        ensures
            v@ == v3_unit(self@),
    {
        self.div_scalar(self.length())
    }

    /// A vector whose components are uniform draws from `[0, 1)`.
    pub fn random(rng: &mut rand::rngs::ThreadRng) -> (v: Vec3)
        ensures
            0 <= v@.x < ONE,
            0 <= v@.y < ONE,
            0 <= v@.z < ONE,
    {
        Vec3 {
            x: rand_in_range(rng, 0, ONE),
            y: rand_in_range(rng, 0, ONE),
            z: rand_in_range(rng, 0, ONE),
        }
    }

    /// A vector whose components are uniform draws from `[min, max)`.
    pub fn random_range(rng: &mut rand::rngs::ThreadRng, min: i64, max: i64) -> (v: Vec3)
        requires
            min < max,
        ensures
            min <= v@.x < max,
            min <= v@.y < max,
            min <= v@.z < max,
    {
        Vec3 {
            x: rand_in_range(rng, min, max),
            y: rand_in_range(rng, min, max),
            z: rand_in_range(rng, min, max),
        }
    }
}

/// A fixed-point square of a bounded coordinate: non-negative, unsaturated,
/// and within one unit of the exact scaled square.
pub(crate) proof fn lemma_sq_term(x: int)
    requires
        -1_000_000_000_000 <= x <= 1_000_000_000_000,
    ensures
        0 <= spec_mul(x, x) <= 1_000_000_000_000_000_000,
        spec_mul(x, x) * (ONE as int) <= x * x,
        x * x < spec_mul(x, x) * (ONE as int) + ONE,
{
    let e = ONE as int;
    assert(0 <= x * x <= 1_000_000_000_000 * 1_000_000_000_000) by (nonlinear_arith)
        requires
            -1_000_000_000_000 <= x <= 1_000_000_000_000,
    {
    }
    vstd::arithmetic::div_mod::lemma_div_pos_is_pos(x * x, e);
    vstd::arithmetic::div_mod::lemma_remainder(x * x, e);
    vstd::arithmetic::mul::lemma_mul_is_commutative(x * x / e, e);
    let q = spec_tdiv(x * x, e);
    assert(q == x * x / e);
    assert(q <= 1_000_000_000_000_000_000) by (nonlinear_arith)
        requires
            q * e <= x * x <= 1_000_000_000_000 * 1_000_000_000_000,
            e == 1_000_000,
            q >= 0,
    {
    }
}

/// A truncated coordinate division: unsaturated, close to the exact scaled
/// quotient, and bounded just past one when the divisor is at least the
/// coordinate's own scale.
pub(crate) proof fn lemma_unit_term(x: int, l: int)
    requires
        l >= ONE,
        -(l + 2) <= x <= l + 2,
    ensures
        x * (ONE as int) - l < spec_div(x, l) * l < x * (ONE as int) + l,
        -(ONE + 3int) <= spec_div(x, l) <= ONE + 3int,
{
    let e = ONE as int;
    lemma_tdiv_close(x * e, l);
    let q = spec_tdiv(x * e, l);
    assert(-(e + 3) <= q <= e + 3) by (nonlinear_arith)
        requires
            x * e - l < q * l < x * e + l,
            -(l + 2) <= x <= l + 2,
            l >= e,
            e == 1_000_000,
    {
        assert(q > e + 3 ==> q * l >= (e + 4) * l);
        assert(q < -(e + 3) ==> q * l <= -(e + 4) * l);
        assert((l + 2) * e + l <= (e + 4) * l);
    }
    assert(spec_div(x, l) == q);
}

/// Squaring a scaled coordinate: the truncated quotient `u` of `x * ONE / l`
/// has `u * u * l * l` within one divisor-sized error band of the exact
/// `x * x * ONE * ONE`.
proof fn lemma_scaled_square(x: int, u: int, l: int)
    by (nonlinear_arith)
    requires
        l >= 1_000_000,
        -(l + 2) <= x <= l + 2,
        x * 1_000_000 - l < u * l < x * 1_000_000 + l,
    ensures
        (u * u) * (l * l) <= (x * x) * (1_000_000 * 1_000_000) + 2 * ((l + 2) * 1_000_000) * l + l
            * l,
        (u * u) * (l * l) >= (x * x) * (1_000_000 * 1_000_000) - 2 * ((l + 2) * 1_000_000) * l,
{
    let w = u * l;
    let p = x * 1_000_000;
    assert(w * w == (u * u) * (l * l));
    assert(p * p == (x * x) * (1_000_000 * 1_000_000));
    assert(p <= (l + 2) * 1_000_000 && -((l + 2) * 1_000_000) <= p);
    assert(w * w <= p * p + 2 * ((l + 2) * 1_000_000) * l + l * l);
    assert(w * w >= p * p - 2 * ((l + 2) * 1_000_000) * l);
}

/// A coordinate whose square is barely above the length's square cannot
/// exceed the length by more than two.
pub(crate) proof fn lemma_coord_le_len(x: int, l: int)
    by (nonlinear_arith)
    requires
        x * x < (l + 1) * (l + 1) + 3 * 1_000_000,
        l >= 1_000_000,
    ensures
        -(l + 2) <= x <= l + 2,
{
    assert(x >= l + 3 ==> x * x >= (l + 3) * (l + 3));
    assert(x <= -(l + 3) ==> x * x >= (l + 3) * (l + 3));
    assert((l + 3) * (l + 3) == (l + 1) * (l + 1) + 4 * l + 8);
}

/// Unit-length law: normalizing a vector of length at least one (with
/// coordinates small enough that nothing saturates) gives a vector whose
/// squared length sits within thirteen millionths of one, and whose length
/// sits within seven millionths of one.
pub proof fn lemma_unit_vector_length(a: Vec3V)
    requires
        v3_len(a) >= ONE,
        -1_000_000_000_000 <= a.x <= 1_000_000_000_000,
        -1_000_000_000_000 <= a.y <= 1_000_000_000_000,
        -1_000_000_000_000 <= a.z <= 1_000_000_000_000,
    ensures
        ONE - 13 <= v3_sqlen(v3_unit(a)) <= ONE + 13,
        ONE - 7 <= v3_len(v3_unit(a)) <= ONE + 7,
{
    let e = ONE as int;
    lemma_sq_term(a.x);
    lemma_sq_term(a.y);
    lemma_sq_term(a.z);
    let qx = spec_mul(a.x, a.x);
    let qy = spec_mul(a.y, a.y);
    let qz = spec_mul(a.z, a.z);
    let s = v3_sqlen(a);
    assert(s == qx + qy + qz);
    let qq = a.x * a.x + a.y * a.y + a.z * a.z;
    assert(s * e == qx * e + qy * e + qz * e) by (nonlinear_arith)
        requires
            s == qx + qy + qz,
    {
    }
    assert(s * e <= qq < s * e + 3 * e);

    // the length and its bracketing squares
    assert(s >= 1);
    let n = (s * e) as nat;
    let l = v3_len(a);
    lemma_sqrt_floor(n);
    assert(l == sqrt_floor(n));
    assert(l * l <= s * e < (l + 1) * (l + 1));
    assert(l >= e);

    // every coordinate is at most one past the length
    assert(a.x * a.x >= 0 && a.y * a.y >= 0 && a.z * a.z >= 0) by (nonlinear_arith);
    lemma_coord_le_len(a.x, l);
    lemma_coord_le_len(a.y, l);
    lemma_coord_le_len(a.z, l);

    // the normalized coordinates and their scaled errors
    lemma_unit_term(a.x, l);
    lemma_unit_term(a.y, l);
    lemma_unit_term(a.z, l);
    let ux = spec_div(a.x, l);
    let uy = spec_div(a.y, l);
    let uz = spec_div(a.z, l);
    let u = v3_unit(a);
    assert(u == Vec3V { x: ux, y: uy, z: uz });

    // square each scaled coordinate against its error bound
    let uu = ux * ux + uy * uy + uz * uz;
    let ll = l * l;
    let ee = e * e;
    assert(ll >= 1) by (nonlinear_arith)
        requires
            ll == l * l,
            l >= 1,
    {
    }
    lemma_scaled_square(a.x, ux, l);
    lemma_scaled_square(a.y, uy, l);
    lemma_scaled_square(a.z, uz, l);
    assert(uu * ll == (ux * ux) * ll + (uy * uy) * ll + (uz * uz) * ll) by (nonlinear_arith)
        requires
            uu == ux * ux + uy * uy + uz * uz,
            ll == l * l,
    {
    }
    assert(qq * ee == (a.x * a.x) * ee + (a.y * a.y) * ee + (a.z * a.z) * ee) by (nonlinear_arith)
        requires
            qq == a.x * a.x + a.y * a.y + a.z * a.z,
            ee == e * e,
    {
    }
    assert(uu * ll <= qq * ee + 6 * ((l + 2) * e) * l + 3 * ll) by (nonlinear_arith)
        requires
            (ux * ux) * (l * l) <= (a.x * a.x) * (1_000_000 * 1_000_000) + 2 * ((l + 2)
                * 1_000_000) * l + l * l,
            (uy * uy) * (l * l) <= (a.y * a.y) * (1_000_000 * 1_000_000) + 2 * ((l + 2)
                * 1_000_000) * l + l * l,
            (uz * uz) * (l * l) <= (a.z * a.z) * (1_000_000 * 1_000_000) + 2 * ((l + 2)
                * 1_000_000) * l + l * l,
            uu == ux * ux + uy * uy + uz * uz,
            qq == a.x * a.x + a.y * a.y + a.z * a.z,
            ll == l * l,
            ee == e * e,
            e == 1_000_000,
    {
    }
    assert(uu * ll >= qq * ee - 6 * ((l + 2) * e) * l) by (nonlinear_arith)
        requires
            (ux * ux) * (l * l) >= (a.x * a.x) * (1_000_000 * 1_000_000) - 2 * ((l + 2)
                * 1_000_000) * l,
            (uy * uy) * (l * l) >= (a.y * a.y) * (1_000_000 * 1_000_000) - 2 * ((l + 2)
                * 1_000_000) * l,
            (uz * uz) * (l * l) >= (a.z * a.z) * (1_000_000 * 1_000_000) - 2 * ((l + 2)
                * 1_000_000) * l,
            uu == ux * ux + uy * uy + uz * uz,
            qq == a.x * a.x + a.y * a.y + a.z * a.z,
            ll == l * l,
            ee == e * e,
            e == 1_000_000,
    {
    }

    // the central bounds: the scaled square sum sits within a few millionths
    // of one
    assert(qq * ee < ((l + 1) * (l + 1) + 3 * e) * ee) by (nonlinear_arith)
        requires
            qq < s * e + 3 * e,
            s * e < (l + 1) * (l + 1),
            ee == e * e,
            e == 1_000_000,
    {
    }
    assert(((l + 1) * (l + 1) + 3 * e) * ee + 6 * ((l + 2) * e) * l + 3 * ll <= (e * e + 13 * e
        + 9) * ll) by (nonlinear_arith)
        requires
            l >= 1_000_000,
            e == 1_000_000,
            ll == l * l,
            ee == e * e,
    {
    }
    assert(uu * ll < (e * e + 13 * e + 9) * ll);
    assert(uu <= e * e + 13 * e + 8) by (nonlinear_arith)
        requires
            uu * ll < (e * e + 13 * e + 9) * ll,
            ll >= 1,
    {
    }
    assert(qq * ee >= ll * ee) by (nonlinear_arith)
        requires
            qq >= s * e,
            s * e >= l * l,
            ll == l * l,
            ee == e * e,
            e == 1_000_000,
    {
    }
    assert(uu * ll >= ll * ee - 6 * ((l + 2) * e) * l);
    assert(ll * ee - 6 * ((l + 2) * e) * l >= (e * e - 8 * e) * ll) by (nonlinear_arith)
        requires
            l >= 1_000_000,
            e == 1_000_000,
            ll == l * l,
            ee == e * e,
    {
    }
    assert(uu >= e * e - 8 * e) by (nonlinear_arith)
        requires
            uu * ll >= (e * e - 8 * e) * ll,
            ll >= 1,
    {
    }

    // floor the scaled squares back down to the squared length
    lemma_sq_term(ux);
    lemma_sq_term(uy);
    lemma_sq_term(uz);
    let su = v3_sqlen(u);
    assert(su == spec_mul(ux, ux) + spec_mul(uy, uy) + spec_mul(uz, uz));
    assert(su * e == spec_mul(ux, ux) * e + spec_mul(uy, uy) * e + spec_mul(uz, uz) * e)
        by (nonlinear_arith)
        requires
            su == spec_mul(ux, ux) + spec_mul(uy, uy) + spec_mul(uz, uz),
    {
    }
    assert(su * e <= uu < su * e + 3 * e);
    assert(e - 10 <= su <= e + 13);

    // and take the square root of the squared length
    assert(v3_len(u) == sqrt_floor((su * e) as nat));
    assert((e - 6) * (e - 6) <= (e - 10) * e);
    assert((e + 13) * e <= (e + 8) * (e + 8) - 1);
    lemma_sqrt_floor_square((e - 6) as nat);
    lemma_sqrt_floor_mono(((e - 6) * (e - 6)) as nat, (su * e) as nat);
    lemma_sqrt_floor_mono((su * e) as nat, ((e + 8) * (e + 8) - 1) as nat);
    lemma_sqrt_floor_unique(((e + 8) * (e + 8) - 1) as nat, (e + 7) as nat);
    assert(e - 6 <= v3_len(u) <= e + 7);
}

/// Number of rejection-sampling attempts before falling back to the region's
/// center; the chance of exhausting them is vanishingly small.
pub const SAMPLE_TRIES: u64 = 64;

/// A point drawn from the unit disk (`z == 0`) by rejection sampling over the
/// square `[-1, 1)^2`.
pub fn random_in_unit_disk(rng: &mut rand::rngs::ThreadRng) -> (p: Vec3)
    ensures
        v3_sqlen(p@) < ONE,
        p@.z == 0,
{
    let mut p = Vec3::new(ONE, ONE, 0);
    let mut sq = p.squared_length();
    let mut tries: u64 = 0;
    while sq >= ONE && tries < SAMPLE_TRIES
        invariant
            sq == v3_sqlen(p@),
            p@.z == 0,
            tries <= SAMPLE_TRIES,
        decreases SAMPLE_TRIES - tries,
    {
        p = Vec3::new(rand_in_range(rng, -ONE, ONE), rand_in_range(rng, -ONE, ONE), 0);
        sq = p.squared_length();
        tries = tries + 1;
    }
    if sq >= ONE {
        let zero = Vec3::new(0, 0, 0);
        proof {
            crate::fixed::lemma_spec_mul_zero(0);
        }
        zero
    } else {
        p
    }
}

/// Each component of a normalized vector stays within three units of one,
/// for a vector the model can normalize.
pub proof fn lemma_unit_components(a: Vec3V)
    requires
        v3_len(a) >= ONE,
        -1_000_000_000_000 <= a.x <= 1_000_000_000_000,
        -1_000_000_000_000 <= a.y <= 1_000_000_000_000,
        -1_000_000_000_000 <= a.z <= 1_000_000_000_000,
    ensures
        -(ONE + 3int) <= v3_unit(a).x <= ONE + 3,
        -(ONE + 3int) <= v3_unit(a).y <= ONE + 3,
        -(ONE + 3int) <= v3_unit(a).z <= ONE + 3,
{
    let e = ONE as int;
    lemma_sq_term(a.x);
    lemma_sq_term(a.y);
    lemma_sq_term(a.z);
    let s = v3_sqlen(a);
    let l = v3_len(a);
    assert(s == spec_mul(a.x, a.x) + spec_mul(a.y, a.y) + spec_mul(a.z, a.z));
    assert(s >= 1);
    lemma_sqrt_floor((s * e) as nat);
    assert(l == sqrt_floor((s * e) as nat));
    assert(l * l <= s * e < (l + 1) * (l + 1));
    assert(l >= e);
    assert(a.x * a.x < s * e + e && a.y * a.y < s * e + e && a.z * a.z < s * e + e)
        by (nonlinear_arith)
        requires
            spec_mul(a.x, a.x) * e <= a.x * a.x,
            a.x * a.x < spec_mul(a.x, a.x) * e + e,
            spec_mul(a.y, a.y) * e <= a.y * a.y,
            a.y * a.y < spec_mul(a.y, a.y) * e + e,
            spec_mul(a.z, a.z) * e <= a.z * a.z,
            a.z * a.z < spec_mul(a.z, a.z) * e + e,
            spec_mul(a.x, a.x) <= s,
            spec_mul(a.y, a.y) <= s,
            spec_mul(a.z, a.z) <= s,
            e == 1_000_000,
    {
    }
    lemma_coord_le_len(a.x, l);
    lemma_coord_le_len(a.y, l);
    lemma_coord_le_len(a.z, l);
    lemma_unit_term(a.x, l);
    lemma_unit_term(a.y, l);
    lemma_unit_term(a.z, l);
}

/// The dot product of two vectors.
pub fn dot(v1: &Vec3, v2: &Vec3) -> (r: i64)
    ensures
        r == v3_dot(v1@, v2@),
{
    fx_add(fx_add(fx_mul(v1.x, v2.x), fx_mul(v1.y, v2.y)), fx_mul(v1.z, v2.z))
}

/// The cross product of two vectors.
pub fn cross(v1: &Vec3, v2: &Vec3) -> (v: Vec3)
    ensures
        v@ == v3_cross(v1@, v2@),
{
    Vec3::new(
        fx_sub(fx_mul(v1.y, v2.z), fx_mul(v1.z, v2.y)),
        fx_sub(fx_mul(v1.z, v2.x), fx_mul(v1.x, v2.z)),
        fx_sub(fx_mul(v1.x, v2.y), fx_mul(v1.y, v2.x)),
    )
}

} // verus!
