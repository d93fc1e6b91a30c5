//! The geometry model: shapes that rays can hit.
//!
//! The [`Hitable`] capability couples an executable `hit` with a
//! specification `hit_spec` that pins the result down exactly, and two proof
//! obligations every shape discharges: a hit's parameter lies inside the
//! queried window and its point sits on the ray; and shrinking the window
//! keeps the nearest hit nearest. Those two facts are what make the
//! aggregate's closest-hit scan provably correct for any shape.

use vstd::prelude::*;
use crate::fixed::{ONE, TWO, FOUR, HALF, FX_MAX, fx_add, fx_sub, fx_mul, fx_div, fx_neg, fx_sqrt,
    spec_add, spec_sub, spec_mul, spec_div, spec_neg, spec_sqrt, spec_tdiv, sqrt_floor,
    lemma_spec_div_mono, lemma_spec_mul_self_nonneg, lemma_spec_mul_nonneg, lemma_tdiv_close,
    lemma_tdiv_exact, lemma_spec_div_two, lemma_sqrt_floor};
use crate::vec::{Vec3, Vec3V, dot, v3_add, v3_sub, v3_scale, v3_divs, v3_dot, v3_zero};
use crate::ray::{Ray, RayV, ray_at};
use crate::material::{Material, MaterialV};

verus! {

/// Discriminants below this threshold (`0.0005`) mark a grazing, on-edge hit.
pub const EDGE_EPS: i64 = 500;

/// Ghost image of a hit record.
pub struct HitRecordV {
    pub t: int,
    pub p: Vec3V,
    pub normal: Vec3V,
    pub on_edge: bool,
    pub material: MaterialV,
}

/// The result of a successful intersection test.
#[derive(Clone, Copy, Debug, PartialEq, Eq, Structural)]
pub struct HitRecord {
    /// Parametric distance along the ray.
    pub t: i64,
    /// The hit point, exactly the ray evaluated at `t`.
    pub p: Vec3,
    /// Outward unit normal, `(p - center) / radius` for a sphere.
    pub normal: Vec3,
    /// Whether the hit grazes the surface (tiny discriminant).
    pub on_edge: bool,
    /// The material of the shape that was struck, copied by value.
    pub material: Material,
}

impl View for HitRecord {
    type V = HitRecordV;

    open spec fn view(&self) -> HitRecordV {
        HitRecordV {
            t: self.t as int,
            p: self.p@,
            normal: self.normal@,
            on_edge: self.on_edge,
            material: self.material@,
        }
    }
}

impl HitRecord {
    /// An empty record: the origin hit at distance zero by a black diffuse
    /// surface.
    pub fn new() -> (r: Self)
        ensures
            r@ == (HitRecordV {
                t: 0,
                p: v3_zero(),
                normal: v3_zero(),
                on_edge: false,
                material: MaterialV::Lambertian { albedo: v3_zero() },
            }),
    {
        HitRecord {
            t: 0,
            p: Vec3::new(0, 0, 0),
            normal: Vec3::new(0, 0, 0),
            on_edge: false,
            material: Material::Lambertian { albedo: Vec3::new(0, 0, 0) },
        }
    }
}

/// The `t` a hit carries; zero where there is no hit.
pub open spec fn rec_t(o: Option<HitRecordV>) -> int {
    match o {
        Some(h) => h.t,
        None => 0,
    }
}

/// The capability of being hit by a ray.
pub trait Hitable: Sized {
    /// What `hit` returns, exactly.
    spec fn hit_spec(&self, r: RayV, t_min: int, t_max: int) -> Option<HitRecordV>;

    /// A hit's parameter lies strictly inside the queried window, and its
    /// point is the ray evaluated there.
    proof fn lemma_hit_properties(&self, r: RayV, t_min: int, t_max: int)
        ensures
            match self.hit_spec(r, t_min, t_max) {
                Some(h) => t_min < h.t < t_max && h.p == ray_at(r, h.t),
                None => true,
            },
    ;

    /// Shrinking the window keeps nearest hits nearest: a hit inside the
    /// narrow window betrays one at most as far in the wide window, and a
    /// wide hit nearer than the narrow bound betrays a narrow hit at most as
    /// far.
    proof fn lemma_hit_window(&self, r: RayV, t_min: int, mid: int, t_max: int)
        requires
            mid <= t_max,
        ensures
            match self.hit_spec(r, t_min, mid) {
                Some(h) => match self.hit_spec(r, t_min, t_max) {
                    Some(g) => g.t <= h.t,
                    None => false,
                },
                None => true,
            },
            match self.hit_spec(r, t_min, t_max) {
                Some(h) => h.t < mid ==> match self.hit_spec(r, t_min, mid) {
                    Some(g) => g.t <= h.t,
                    None => false,
                },
                None => true,
            },
    ;

    /// Intersect a ray with the shape inside the half-open window
    /// `(t_min, t_max)`.
    fn hit(&self, r: &Ray, t_min: i64, t_max: i64) -> (res: Option<HitRecord>)
        ensures
            match res {
                Some(h) => self.hit_spec(r@, t_min as int, t_max as int) == Some(h@),
                None => self.hit_spec(r@, t_min as int, t_max as int) is None,
            },
    ;
}

/// Ghost image of a sphere.
pub struct SphereV {
    pub center: Vec3V,
    pub radius: int,
    pub material: MaterialV,
}

/// A sphere, the one concrete shape.
#[derive(Clone, Copy, Debug)]
pub struct Sphere {
    pub center: Vec3,
    pub radius: i64,
    pub material: Material,
}

impl View for Sphere {
    type V = SphereV;

    open spec fn view(&self) -> SphereV {
        SphereV { center: self.center@, radius: self.radius as int, material: self.material@ }
    }
}

/// The discriminant of the quadratic a ray makes with a sphere.
pub open spec fn sphere_disc(s: SphereV, r: RayV) -> int {
    let oc = v3_sub(r.origin, s.center);
    let a = v3_dot(r.direction, r.direction);
    let b = spec_mul(TWO as int, v3_dot(oc, r.direction));
    let c = spec_sub(v3_dot(oc, oc), spec_mul(s.radius, s.radius));
    spec_sub(spec_mul(b, b), spec_mul(spec_mul(FOUR as int, a), c))
}

/// The record a sphere hit at parameter `t` produces.
pub open spec fn sphere_hit_rec(s: SphereV, r: RayV, t: int, disc: int) -> HitRecordV {
    let p = ray_at(r, t);
    HitRecordV {
        t,
        p,
        normal: v3_divs(v3_sub(p, s.center), s.radius),
        on_edge: disc < EDGE_EPS,
        material: s.material,
    }
}

/// What hitting a sphere returns: no hit for a negative discriminant,
/// otherwise the nearer quadratic root if it lies inside the window, else the
/// farther one, else no hit.
pub open spec fn sphere_hit_spec(s: SphereV, r: RayV, t_min: int, t_max: int) -> Option<
    HitRecordV,
> {
    let oc = v3_sub(r.origin, s.center);
    let a = v3_dot(r.direction, r.direction);
    let b = spec_mul(TWO as int, v3_dot(oc, r.direction));
    let c = spec_sub(v3_dot(oc, oc), spec_mul(s.radius, s.radius));
    let disc = spec_sub(spec_mul(b, b), spec_mul(spec_mul(FOUR as int, a), c));
    if disc >= 0 {
        let sd = spec_sqrt(disc);
        let denom = spec_mul(TWO as int, a);
        let t1 = spec_div(spec_sub(spec_neg(b), sd), denom);
        if t_min < t1 && t1 < t_max {
            Some(sphere_hit_rec(s, r, t1, disc))
        } else {
            let t2 = spec_div(spec_add(spec_neg(b), sd), denom);
            if t_min < t2 && t2 < t_max {
                Some(sphere_hit_rec(s, r, t2, disc))
            } else {
                None
            }
        }
    } else {
        None
    }
}

impl Sphere {
    /// Assemble the record for a hit at parameter `t`.
    fn make_rec(&self, r: &Ray, t: i64, discriminant: i64) -> (rec: HitRecord)
        ensures
            rec@ == sphere_hit_rec(self@, r@, t as int, discriminant as int),
    {
        let p = r.point_at_parameter(t);
        HitRecord {
            t,
            p,
            normal: p.sub(&self.center).div_scalar(self.radius),
            on_edge: discriminant < EDGE_EPS,
            material: self.material,
        }
    }
}

impl Hitable for Sphere {
    open spec fn hit_spec(&self, r: RayV, t_min: int, t_max: int) -> Option<HitRecordV> {
        sphere_hit_spec(self@, r, t_min, t_max)
    }

    proof fn lemma_hit_properties(&self, r: RayV, t_min: int, t_max: int) {
        // both accepting branches of the hit check their root against the
        // window and build the record by evaluating the ray there
    }

    proof fn lemma_hit_window(&self, r: RayV, t_min: int, mid: int, t_max: int) {
        let s = self@;
        let oc = v3_sub(r.origin, s.center);
        let a = v3_dot(r.direction, r.direction);
        let b = spec_mul(TWO as int, v3_dot(oc, r.direction));
        let c = spec_sub(v3_dot(oc, oc), spec_mul(s.radius, s.radius));
        let disc = spec_sub(spec_mul(b, b), spec_mul(spec_mul(FOUR as int, a), c));
        if disc >= 0 {
            let sd = spec_sqrt(disc);
            let denom = spec_mul(TWO as int, a);
            let t1 = spec_div(spec_sub(spec_neg(b), sd), denom);
            let t2 = spec_div(spec_add(spec_neg(b), sd), denom);
            lemma_spec_mul_self_nonneg(r.direction.x);
            lemma_spec_mul_self_nonneg(r.direction.y);
            lemma_spec_mul_self_nonneg(r.direction.z);
            assert(a >= 0);
            lemma_spec_mul_nonneg(TWO as int, a);
            assert(denom >= 0);
            assert(sd >= 0);
            lemma_spec_div_mono(spec_sub(spec_neg(b), sd), spec_add(spec_neg(b), sd), denom);
            assert(t1 <= t2);
        }
    }

    fn hit(&self, r: &Ray, t_min: i64, t_max: i64) -> (res: Option<HitRecord>) {
        let oc = r.origin.sub(&self.center);
        let a = dot(&r.direction, &r.direction);
        let b = fx_mul(TWO, dot(&oc, &r.direction));
        let c = fx_sub(dot(&oc, &oc), fx_mul(self.radius, self.radius));
        let discriminant = fx_sub(fx_mul(b, b), fx_mul(fx_mul(FOUR, a), c));
        if discriminant >= 0 {
            let sd = fx_sqrt(discriminant);
            let denom = fx_mul(TWO, a);
            let mut hitpoint = fx_div(fx_sub(fx_neg(b), sd), denom);
            if hitpoint < t_max && hitpoint > t_min {
                return Some(self.make_rec(r, hitpoint, discriminant));
            }
            hitpoint = fx_div(fx_add(fx_neg(b), sd), denom);
            if hitpoint < t_max && hitpoint > t_min {
                return Some(self.make_rec(r, hitpoint, discriminant));
            }
        }
        None
    }
}

/// Grazing-hit law: a hit is flagged on-edge exactly when the quadratic's
/// discriminant falls below the `EDGE_EPS` threshold, whichever root was
/// accepted.
pub proof fn lemma_on_edge_flag(s: &Sphere, r: RayV, t_min: int, t_max: int)
    ensures
        match s.hit_spec(r, t_min, t_max) {
            Some(h) => h.on_edge == (sphere_disc(s@, r) < EDGE_EPS),
            None => true,
        },
{
}

/// The hits of a left-to-right scan that keeps the closest record found so
/// far, shrinking the window's upper bound to each accepted hit.
pub open spec fn scan_hits<T: Hitable>(
    items: Seq<T>,
    r: RayV,
    t_min: int,
    closest: int,
    best: Option<HitRecordV>,
) -> Option<HitRecordV>
    decreases items.len(),
{
    if items.len() == 0 {
        best
    } else {
        match items[0].hit_spec(r, t_min, closest) {
            Some(h) => scan_hits(items.skip(1), r, t_min, h.t, Some(h)),
            None => scan_hits(items.skip(1), r, t_min, closest, best),
        }
    }
}

/// The scan characterized. Its result never reaches past the running bound;
/// any result it returns is the accumulator or some member's hit inside a
/// sub-window; it misses only when the accumulator is empty and every member
/// misses; and every member's hit bounds the result's `t` from above.
proof fn lemma_scan_hits<T: Hitable>(
    items: Seq<T>,
    r: RayV,
    t_min: int,
    closest: int,
    best: Option<HitRecordV>,
)
    requires
        match best {
            Some(b) => b.t == closest,
            None => true,
        },
    ensures
        match scan_hits(items, r, t_min, closest, best) {
            Some(h) => {
                &&& h.t <= closest
                &&& (best == Some(h) || exists|k: int, w: int|
                    0 <= k < items.len() && w <= closest && #[trigger] items[k].hit_spec(
                        r,
                        t_min,
                        w,
                    ) == Some(h))
            },
            None => best is None && forall|k: int|
                0 <= k < items.len() ==> (#[trigger] items[k].hit_spec(r, t_min, closest))
                    is None,
        },
        forall|k: int|
            0 <= k < items.len() && (#[trigger] items[k].hit_spec(r, t_min, closest)) is Some
                ==> scan_hits(items, r, t_min, closest, best) is Some && rec_t(
                scan_hits(items, r, t_min, closest, best),
            ) <= rec_t(items[k].hit_spec(r, t_min, closest)),
    decreases items.len(),
{
    if items.len() == 0 {
    } else {
        let first = items[0];
        let rest = items.skip(1);
        assert(forall|j: int| 0 <= j < rest.len() ==> rest[j] == items[j + 1]);
        let res = scan_hits(items, r, t_min, closest, best);
        match first.hit_spec(r, t_min, closest) {
            Some(h0) => {
                first.lemma_hit_properties(r, t_min, closest);
                assert(t_min < h0.t < closest);
                lemma_scan_hits(rest, r, t_min, h0.t, Some(h0));
                assert(res == scan_hits(rest, r, t_min, h0.t, Some(h0)));
                match res {
                    Some(h) => {
                        assert(h.t <= h0.t);
                        if Some(h0) == Some::<HitRecordV>(h) {
                            assert(items[0].hit_spec(r, t_min, closest) == Some(h));
                            assert(exists|k: int, w: int|
                                0 <= k < items.len() && w <= closest && #[trigger] items[
                                    k
                                ].hit_spec(r, t_min, w) == Some(h));
                        } else {
                            let (k, w) = choose|k: int, w: int|
                                0 <= k < rest.len() && w <= h0.t && #[trigger] rest[k].hit_spec(
                                    r,
                                    t_min,
                                    w,
                                ) == Some(h);
                            assert(items[k + 1].hit_spec(r, t_min, w) == Some(h));
                            assert(exists|k: int, w: int|
                                0 <= k < items.len() && w <= closest && #[trigger] items[
                                    k
                                ].hit_spec(r, t_min, w) == Some(h));
                        }
                    },
                    None => {
                        assert(false);
                    },
                }
                assert forall|k: int|
                    0 <= k < items.len() && (#[trigger] items[k].hit_spec(r, t_min, closest))
                        is Some implies res is Some && rec_t(res) <= rec_t(
                    items[k].hit_spec(r, t_min, closest),
                ) by {
                    if k == 0 {
                        assert(rec_t(res) <= h0.t);
                    } else {
                        let g_opt = items[k].hit_spec(r, t_min, closest);
                        items[k].lemma_hit_window(r, t_min, h0.t, closest);
                        if rec_t(g_opt) < h0.t {
                            assert(rest[k - 1].hit_spec(r, t_min, h0.t) is Some);
                            assert(rec_t(res) <= rec_t(rest[k - 1].hit_spec(r, t_min, h0.t)));
                            assert(rec_t(rest[k - 1].hit_spec(r, t_min, h0.t)) <= rec_t(g_opt));
                        } else {
                            assert(rec_t(res) <= h0.t <= rec_t(g_opt));
                        }
                    }
                }
            },
            None => {
                lemma_scan_hits(rest, r, t_min, closest, best);
                assert(res == scan_hits(rest, r, t_min, closest, best));
                match res {
                    Some(h) => {
                        if best != Some::<HitRecordV>(h) {
                            let (k, w) = choose|k: int, w: int|
                                0 <= k < rest.len() && w <= closest && #[trigger] rest[k].hit_spec(
                                    r,
                                    t_min,
                                    w,
                                ) == Some(h);
                            assert(items[k + 1].hit_spec(r, t_min, w) == Some(h));
                            assert(exists|k: int, w: int|
                                0 <= k < items.len() && w <= closest && #[trigger] items[
                                    k
                                ].hit_spec(r, t_min, w) == Some(h));
                        }
                    },
                    None => {
                        assert forall|k: int| 0 <= k < items.len() implies (#[trigger] items[
                            k
                        ].hit_spec(r, t_min, closest)) is None by {
                            if k >= 1 {
                                assert(rest[k - 1].hit_spec(r, t_min, closest) is None);
                            }
                        }
                    },
                }
                assert forall|k: int|
                    0 <= k < items.len() && (#[trigger] items[k].hit_spec(r, t_min, closest))
                        is Some implies res is Some && rec_t(res) <= rec_t(
                    items[k].hit_spec(r, t_min, closest),
                ) by {
                    if k >= 1 {
                        assert(rest[k - 1].hit_spec(r, t_min, closest) is Some);
                    }
                }
            },
        }
    }
}

/// An ordered collection of shapes, hit-tested by linear scan.
pub struct HitableList<T> {
    pub list: Vec<T>,
}

impl<T: Hitable> Hitable for HitableList<T> {
    open spec fn hit_spec(&self, r: RayV, t_min: int, t_max: int) -> Option<HitRecordV> {
        scan_hits(self.list@, r, t_min, t_max, None)
    }

    proof fn lemma_hit_properties(&self, r: RayV, t_min: int, t_max: int) {
        lemma_scan_hits(self.list@, r, t_min, t_max, None);
        match self.hit_spec(r, t_min, t_max) {
            Some(h) => {
                let (k, w) = choose|k: int, w: int|
                    0 <= k < self.list@.len() && w <= t_max && #[trigger] self.list@[k].hit_spec(
                        r,
                        t_min,
                        w,
                    ) == Some(h);
                self.list@[k].lemma_hit_properties(r, t_min, w);
            },
            None => {},
        }
    }

    proof fn lemma_hit_window(&self, r: RayV, t_min: int, mid: int, t_max: int) {
        let items = self.list@;
        lemma_scan_hits(items, r, t_min, mid, None);
        lemma_scan_hits(items, r, t_min, t_max, None);
        let narrow = scan_hits(items, r, t_min, mid, None);
        let wide = scan_hits(items, r, t_min, t_max, None);
        match narrow {
            Some(h) => {
                let (k, w) = choose|k: int, w: int|
                    0 <= k < items.len() && w <= mid && #[trigger] items[k].hit_spec(r, t_min, w)
                        == Some(h);
                items[k].lemma_hit_window(r, t_min, w, t_max);
                match items[k].hit_spec(r, t_min, t_max) {
                    Some(g) => {
                        assert(g.t <= h.t);
                        assert(items[k].hit_spec(r, t_min, t_max) is Some);
                        assert(wide is Some && rec_t(wide) <= g.t);
                    },
                    None => {
                        assert(false);
                    },
                }
            },
            None => {},
        }
        match wide {
            Some(h) => {
                if h.t < mid {
                    let (k, w) = choose|k: int, w: int|
                        0 <= k < items.len() && w <= t_max && #[trigger] items[k].hit_spec(
                            r,
                            t_min,
                            w,
                        ) == Some(h);
                    items[k].lemma_hit_window(r, t_min, w, t_max);
                    match items[k].hit_spec(r, t_min, t_max) {
                        Some(g) => {
                            assert(g.t <= h.t);
                            items[k].lemma_hit_window(r, t_min, mid, t_max);
                            match items[k].hit_spec(r, t_min, mid) {
                                Some(gp) => {
                                    assert(gp.t <= g.t);
                                    assert(items[k].hit_spec(r, t_min, mid) is Some);
                                    assert(narrow is Some && rec_t(narrow) <= gp.t);
                                },
                                None => {
                                    assert(false);
                                },
                            }
                        },
                        None => {
                            assert(false);
                        },
                    }
                }
            },
            None => {},
        }
    }

    /// Intersect a ray with every member, returning the closest accepted
    /// hit.
    fn hit(&self, r: &Ray, t_min: i64, t_max: i64) -> (res: Option<HitRecord>) {
        let ghost items = self.list@;
        proof {
            assert(items.skip(0) =~= items);
        }
        let mut closest_so_far = t_max;
        let mut temp_rec: Option<HitRecord> = None;
        let mut i: usize = 0;
        while i < self.list.len()
            invariant
                i <= items.len(),
                self.list@ == items,
                scan_hits(
                    items.skip(i as int),
                    r@,
                    t_min as int,
                    closest_so_far as int,
                    match temp_rec {
                        Some(h) => Some(h@),
                        None => None,
                    },
                ) == scan_hits(items, r@, t_min as int, t_max as int, None),
            decreases items.len() - i,
        {
            let ghost rest = items.skip(i as int);
            proof {
                assert(rest[0] == items[i as int]);
                assert(rest.skip(1) =~= items.skip(i as int + 1));
            }
            if let Some(hit_record) = self.list[i].hit(r, t_min, closest_so_far) {
                closest_so_far = hit_record.t;
                temp_rec = Some(hit_record);
            }
            i = i + 1;
        }
        temp_rec
    }
}

/// Closest-hit law: the aggregate hits exactly when some member hits, and the
/// record it returns carries the smallest `t` any member reports over the
/// same window — so which hit wins does not depend on the members' order.
pub proof fn lemma_list_hit_closest<T: Hitable>(
    list: &HitableList<T>,
    r: RayV,
    t_min: int,
    t_max: int,
)
    ensures
        list.hit_spec(r, t_min, t_max) is Some <==> exists|k: int|
            0 <= k < list.list@.len() && (#[trigger] list.list@[k].hit_spec(r, t_min, t_max))
                is Some,
        match list.hit_spec(r, t_min, t_max) {
            Some(h) => {
                &&& forall|k: int|
                    0 <= k < list.list@.len() && (#[trigger] list.list@[k].hit_spec(
                        r,
                        t_min,
                        t_max,
                    )) is Some ==> h.t <= rec_t(list.list@[k].hit_spec(r, t_min, t_max))
                &&& exists|k: int|
                    0 <= k < list.list@.len() && (#[trigger] list.list@[k].hit_spec(
                        r,
                        t_min,
                        t_max,
                    )) is Some && rec_t(list.list@[k].hit_spec(r, t_min, t_max)) == h.t
            },
            None => true,
        },
{
    let items = list.list@;
    lemma_scan_hits(items, r, t_min, t_max, None);
    match list.hit_spec(r, t_min, t_max) {
        Some(h) => {
            let (k, w) = choose|k: int, w: int|
                0 <= k < items.len() && w <= t_max && #[trigger] items[k].hit_spec(r, t_min, w)
                    == Some(h);
            items[k].lemma_hit_window(r, t_min, w, t_max);
            match items[k].hit_spec(r, t_min, t_max) {
                Some(g) => {
                    assert(g.t <= h.t);
                    assert(items[k].hit_spec(r, t_min, t_max) is Some);
                    assert(h.t <= rec_t(items[k].hit_spec(r, t_min, t_max)));
                    assert(rec_t(items[k].hit_spec(r, t_min, t_max)) == h.t);
                },
                None => {
                    assert(false);
                },
            }
        },
        None => {},
    }
}

/// The nearer quadratic root, as the hit-test computes it.
pub open spec fn sphere_root_near(s: SphereV, r: RayV) -> int {
    let oc = v3_sub(r.origin, s.center);
    let a = v3_dot(r.direction, r.direction);
    let b = spec_mul(TWO as int, v3_dot(oc, r.direction));
    spec_div(spec_sub(spec_neg(b), spec_sqrt(sphere_disc(s, r))), spec_mul(TWO as int, a))
}

/// The farther quadratic root, as the hit-test computes it.
pub open spec fn sphere_root_far(s: SphereV, r: RayV) -> int {
    let oc = v3_sub(r.origin, s.center);
    let a = v3_dot(r.direction, r.direction);
    let b = spec_mul(TWO as int, v3_dot(oc, r.direction));
    spec_div(spec_add(spec_neg(b), spec_sqrt(sphere_disc(s, r))), spec_mul(TWO as int, a))
}

/// A component of a unit-length direction: the fixed-point squared length
/// being one bounds every coordinate by one.
proof fn lemma_unit_comp(x: int)
    requires
        0 <= spec_mul(x, x) <= 1_000_000,
    ensures
        -1_000_000 <= x <= 1_000_000,
        spec_mul(x, x) * 1_000_000 <= x * x,
        x * x < spec_mul(x, x) * 1_000_000 + 1_000_000,
{
    let e = 1_000_000int;
    assert(x * x >= 0) by (nonlinear_arith);
    vstd::arithmetic::div_mod::lemma_remainder(x * x, e);
    vstd::arithmetic::mul::lemma_mul_is_commutative(x * x / e, e);
    let q = spec_tdiv(x * x, e);
    assert(q == x * x / e);
    assert(spec_mul(x, x) == q);
    assert(-e <= x <= e) by (nonlinear_arith)
        requires
            x * x < (q + 1) * e,
            q <= e,
            e == 1_000_000,
    {
        assert(x * x < (e + 1) * e);
        assert(x > e ==> x * x >= (e + 1) * (e + 1));
        assert(x < -e ==> x * x >= (e + 1) * (e + 1));
    }
}

/// Scaling a unit-direction component by a bounded distance: the product is
/// unsaturated, bounded by the distance, and within one scale unit of the
/// exact scaled product.
proof fn lemma_scale_comp(x: int, d: int)
    requires
        -1_000_000 <= x <= 1_000_000,
        0 <= d <= 100_000_000,
    ensures
        -d <= spec_mul(x, d) <= d,
        x * d - 1_000_000 < spec_mul(x, d) * 1_000_000,
        spec_mul(x, d) * 1_000_000 < x * d + 1_000_000,
{
    let e = 1_000_000int;
    assert(-(e * d) <= x * d <= e * d) by (nonlinear_arith)
        requires
            -e <= x <= e,
            d >= 0,
    {
    }
    lemma_tdiv_close(x * d, e);
    let q = spec_tdiv(x * d, e);
    assert(-d <= q <= d) by (nonlinear_arith)
        requires
            x * d - e < q * e,
            q * e < x * d + e,
            -(e * d) <= x * d <= e * d,
            e == 1_000_000,
            d >= 0,
    {
        assert(q >= d + 1 ==> q * e >= (d + 1) * e);
        assert(q <= -(d + 1) ==> q * e <= -((d + 1) * e));
    }
    assert(spec_mul(x, d) == q);
}

/// A term of the scan's `b` coefficient: the product of a scaled-center
/// component with its direction component, bounded and within two scale
/// squares of the exact value.
proof fn lemma_dot_term(x: int, mm: int, d: int)
    requires
        -1_000_000 <= x <= 1_000_000,
        0 <= d <= 100_000_000,
        -d <= mm <= d,
        x * d - 1_000_000 < mm * 1_000_000,
        mm * 1_000_000 < x * d + 1_000_000,
    ensures
        -(d + 1) <= spec_mul(-mm, x) <= d + 1,
        -((x * x) * d) - 2 * 1_000_000_000_000 < spec_mul(-mm, x) * 1_000_000_000_000,
        spec_mul(-mm, x) * 1_000_000_000_000 < -((x * x) * d) + 2 * 1_000_000_000_000,
{
    let e = 1_000_000int;
    assert(-(d * e) <= -mm * x <= d * e) by (nonlinear_arith)
        requires
            -e <= x <= e,
            -d <= mm <= d,
            e == 1_000_000,
            d >= 0,
    {
    }
    lemma_tdiv_close(-mm * x, e);
    let w = spec_tdiv(-mm * x, e);
    assert(-(d + 1) <= w <= d + 1) by (nonlinear_arith)
        requires
            (-mm * x) - e < w * e,
            w * e < (-mm * x) + e,
            -(d * e) <= -mm * x <= d * e,
            e == 1_000_000,
            d >= 0,
    {
        assert(w >= d + 2 ==> w * e >= (d + 2) * e);
        assert(w <= -(d + 2) ==> w * e <= -((d + 2) * e));
    }
    assert(spec_mul(-mm, x) == w);
    assert((-mm * x) * e > -((x * x) * d) - (e * e) && (-mm * x) * e < -((x * x) * d) + (e * e))
        by (nonlinear_arith)
        requires
            x * d - e < mm * e,
            mm * e < x * d + e,
            -e <= x <= e,
            e == 1_000_000,
    {
        assert((-mm * x) * e == -x * (mm * e));
    }
    assert(w * (e * e) > -((x * x) * d) - 2 * (e * e) && w * (e * e) < -((x * x) * d) + 2 * (e
        * e)) by (nonlinear_arith)
        requires
            (-mm * x) - e < w * e,
            w * e < (-mm * x) + e,
            (-mm * x) * e > -((x * x) * d) - (e * e),
            (-mm * x) * e < -((x * x) * d) + (e * e),
            e == 1_000_000,
    {
        assert(w * (e * e) == (w * e) * e);
    }
}

/// A term of the scan's `c` coefficient: the square of a scaled-center
/// component, within a band of the exact value.
proof fn lemma_sq_scale_comp(x: int, mm: int, d: int)
    requires
        -1_000_000 <= x <= 1_000_000,
        1 <= d <= 100_000_000,
        -d <= mm <= d,
        x * d - 1_000_000 < mm * 1_000_000,
        mm * 1_000_000 < x * d + 1_000_000,
    ensures
        0 <= spec_mul(mm, mm) <= 100_000_000_000,
        spec_mul(mm, mm) * 1_000_000_000_000_000_000 > (x * x) * (d * d) - 2
            * 1_000_000_000_000 * d - 1_000_000_000_000_000_000,
        spec_mul(mm, mm) * 1_000_000_000_000_000_000 <= (x * x) * (d * d) + 2
            * 1_000_000_000_000 * d + 1_000_000_000_000,
{
    let e = 1_000_000int;
    crate::vec::lemma_sq_term(mm);
    let v = spec_mul(mm, mm);
    assert(v <= 100_000_000_000) by (nonlinear_arith)
        requires
            v * e <= mm * mm,
            -d <= mm <= d,
            d <= 100_000_000,
            e == 1_000_000,
            v >= 0,
    {
        assert(mm * mm <= d * d);
        assert(d * d <= 100_000_000 * 100_000_000);
        assert(v > 100_000_000_000 ==> v * e > 100_000_000_000 * 1_000_000);
    }
    let p = x * d;
    let w = mm * e;
    assert(-(e * d) <= p <= e * d) by (nonlinear_arith)
        requires
            p == x * d,
            -e <= x <= e,
            d >= 0,
    {
    }
    assert(w * w <= p * p + 2 * (e * d) * e + e * e) by (nonlinear_arith)
        requires
            p - e < w < p + e,
            -(e * d) <= p <= e * d,
            e == 1_000_000,
            d >= 1,
    {
    }
    assert(w * w > p * p - 2 * (e * d) * e) by (nonlinear_arith)
        requires
            p - e < w < p + e,
            -(e * d) <= p <= e * d,
            e == 1_000_000,
            d >= 1,
    {
    }
    assert((mm * e) * (mm * e) > (x * x) * (d * d) - 2 * (e * e) * d && (mm * e) * (mm * e) <= (x
        * x) * (d * d) + 2 * (e * e) * d + e * e) by (nonlinear_arith)
        requires
            w == mm * e,
            p == x * d,
            w * w > p * p - 2 * (e * d) * e,
            w * w <= p * p + 2 * (e * d) * e + e * e,
    {
        assert((x * d) * (x * d) == (x * x) * (d * d));
        assert(2 * (e * d) * e == 2 * (e * e) * d);
    }
    assert(v * (e * e * e) > (x * x) * (d * d) - 2 * (e * e) * d - e * e * e && v * (e * e * e)
        <= (x * x) * (d * d) + 2 * (e * e) * d + e * e) by (nonlinear_arith)
        requires
            v * e <= mm * mm,
            mm * mm < v * e + e,
            (mm * e) * (mm * e) > (x * x) * (d * d) - 2 * (e * e) * d,
            (mm * e) * (mm * e) <= (x * x) * (d * d) + 2 * (e * e) * d + e * e,
            e == 1_000_000,
    {
        assert((mm * e) * (mm * e) == (mm * mm) * (e * e));
        assert(v * (e * e * e) == (v * e) * (e * e));
    }
    assert(2 * (e * e) * d == 2 * 1_000_000_000_000 * d);
    assert(e * e * e == 1_000_000_000_000_000_000);
}

/// Facing-sphere law: a sphere of radius `radius` centered `d` along the
/// ray's own unit direction, with `d` clearing the radius by at least half a
/// unit (and everything far from saturation), is hit over the full window:
/// the discriminant is strictly positive — two distinct real roots — the hit
/// carries the nearer root, and that root sits within the fixed-point error
/// band of its exact value `d - radius`.
pub proof fn lemma_sphere_ahead_hits(o: Vec3V, dir: Vec3V, d: int, radius: int, m: MaterialV)
    requires
        v3_dot(dir, dir) == ONE,
        -1_000_000_000_000 <= o.x <= 1_000_000_000_000,
        -1_000_000_000_000 <= o.y <= 1_000_000_000_000,
        -1_000_000_000_000 <= o.z <= 1_000_000_000_000,
        HALF <= radius,
        radius + HALF <= d <= 100 * (ONE as int),
    ensures
        ({
            let ray = RayV { origin: o, direction: dir };
            let s = SphereV { center: v3_add(o, v3_scale(dir, d)), radius, material: m };
            &&& sphere_disc(s, ray) > 0
            &&& 0 < sphere_root_near(s, ray) < sphere_root_far(s, ray)
            &&& d - radius - 65_006 <= sphere_root_near(s, ray) <= d - radius + 40_306
            &&& sphere_hit_spec(s, ray, 0, FX_MAX as int) == Some(
                sphere_hit_rec(s, ray, sphere_root_near(s, ray), sphere_disc(s, ray)),
            )
        }),
{
    let e = 1_000_000int;
    let ray = RayV { origin: o, direction: dir };
    let s = SphereV { center: v3_add(o, v3_scale(dir, d)), radius, material: m };

    // the unit direction: component squares sum to one, so no component
    // passes one
    let qx = spec_mul(dir.x, dir.x);
    let qy = spec_mul(dir.y, dir.y);
    let qz = spec_mul(dir.z, dir.z);
    lemma_spec_mul_self_nonneg(dir.x);
    lemma_spec_mul_self_nonneg(dir.y);
    lemma_spec_mul_self_nonneg(dir.z);
    assert(qx + qy + qz == e);
    lemma_unit_comp(dir.x);
    lemma_unit_comp(dir.y);
    lemma_unit_comp(dir.z);
    let s2 = dir.x * dir.x + dir.y * dir.y + dir.z * dir.z;
    assert(1_000_000_000_000 <= s2 < 1_000_000_000_000 + 3_000_000);

    // the scaled center offset, and the exactly cancelled `oc`
    lemma_scale_comp(dir.x, d);
    lemma_scale_comp(dir.y, d);
    lemma_scale_comp(dir.z, d);
    let mx = spec_mul(dir.x, d);
    let my = spec_mul(dir.y, d);
    let mz = spec_mul(dir.z, d);
    let oc = v3_sub(ray.origin, s.center);
    assert(oc.x == -mx && oc.y == -my && oc.z == -mz);

    // the quadratic's linear coefficient
    let a = v3_dot(ray.direction, ray.direction);
    assert(a == e);
    lemma_dot_term(dir.x, mx, d);
    lemma_dot_term(dir.y, my, d);
    lemma_dot_term(dir.z, mz, d);
    let wx = spec_mul(-mx, dir.x);
    let wy = spec_mul(-my, dir.y);
    let wz = spec_mul(-mz, dir.z);
    let dgt = v3_dot(oc, ray.direction);
    assert(dgt == wx + wy + wz);
    assert((dir.x * dir.x) * d + (dir.y * dir.y) * d + (dir.z * dir.z) * d == s2 * d)
        by (nonlinear_arith)
        requires
            s2 == dir.x * dir.x + dir.y * dir.y + dir.z * dir.z,
    {
    }
    assert(dgt * 1_000_000_000_000 > -(s2 * d) - 6 * 1_000_000_000_000);
    assert(dgt * 1_000_000_000_000 < -(s2 * d) + 6 * 1_000_000_000_000);
    assert(-d - 306 <= dgt && dgt <= -d + 6) by (nonlinear_arith)
        requires
            dgt * 1_000_000_000_000 > -(s2 * d) - 6 * 1_000_000_000_000,
            dgt * 1_000_000_000_000 < -(s2 * d) + 6 * 1_000_000_000_000,
            1_000_000_000_000 <= s2 < 1_000_000_000_000 + 3_000_000,
            1_000_000 <= d <= 100_000_000,
    {
        assert(s2 * d >= 1_000_000_000_000 * d);
        assert(s2 * d <= (1_000_000_000_000 + 3_000_000) * d);
        assert((1_000_000_000_000 + 3_000_000) * d <= 1_000_000_000_000 * d + 3_000_000
            * 100_000_000);
        assert(dgt > -d + 6 ==> dgt * 1_000_000_000_000 >= (-d + 7) * 1_000_000_000_000);
        assert(dgt < -d - 306 ==> dgt * 1_000_000_000_000 <= (-d - 307) * 1_000_000_000_000);
    }

    // `b` is exactly twice the dot product
    let b = spec_mul(TWO as int, dgt);
    lemma_tdiv_exact(2 * dgt, e);
    assert((TWO as int) * dgt == (2 * dgt) * e) by (nonlinear_arith)
        requires
            e == 1_000_000,
    {
    }
    assert(b == 2 * dgt);
    assert(-2 * d - 612 <= b <= -2 * d + 12);

    // the quadratic's constant coefficient
    lemma_sq_scale_comp(dir.x, mx, d);
    lemma_sq_scale_comp(dir.y, my, d);
    lemma_sq_scale_comp(dir.z, mz, d);
    assert((-mx) * (-mx) == mx * mx) by (nonlinear_arith);
    assert((-my) * (-my) == my * my) by (nonlinear_arith);
    assert((-mz) * (-mz) == mz * mz) by (nonlinear_arith);
    let doto = v3_dot(oc, oc);
    assert(doto == spec_mul(mx, mx) + spec_mul(my, my) + spec_mul(mz, mz));
    assert((dir.x * dir.x) * (d * d) + (dir.y * dir.y) * (d * d) + (dir.z * dir.z) * (d * d) == s2
        * (d * d)) by (nonlinear_arith)
        requires
            s2 == dir.x * dir.x + dir.y * dir.y + dir.z * dir.z,
    {
    }
    assert(doto * 1_000_000_000_000_000_000 > s2 * (d * d) - 6 * 1_000_000_000_000 * d - 3
        * 1_000_000_000_000_000_000);
    assert(doto * 1_000_000_000_000_000_000 <= s2 * (d * d) + 6 * 1_000_000_000_000 * d + 3
        * 1_000_000_000_000);
    crate::vec::lemma_sq_term(radius);
    let rr = spec_mul(radius, radius);
    let cc = spec_sub(doto, rr);
    assert(rr <= 100_000_000_000) by (nonlinear_arith)
        requires
            rr * 1_000_000 <= radius * radius,
            0 <= radius <= 100_000_000,
            rr >= 0,
    {
        assert(radius * radius <= 100_000_000 * 100_000_000);
        assert(rr > 100_000_000_000 ==> rr * 1_000_000 > 100_000_000_000 * 1_000_000);
    }
    assert(cc == doto - rr);
    assert(cc * 1_000_000_000_000_000_000 > s2 * (d * d) - (radius * radius)
        * 1_000_000_000_000 - 6 * 1_000_000_000_000 * d - 3 * 1_000_000_000_000_000_000);
    assert(cc * 1_000_000_000_000_000_000 < s2 * (d * d) - (radius * radius)
        * 1_000_000_000_000 + 6 * 1_000_000_000_000 * d + 3 * 1_000_000_000_000
        + 1_000_000_000_000_000_000);

    // the discriminant and its strict positivity
    crate::vec::lemma_sq_term(b);
    let bb = spec_mul(b, b);
    assert((2 * d - 12) * (2 * d - 12) <= b * b && b * b <= (2 * d + 612) * (2 * d + 612))
        by (nonlinear_arith)
        requires
            -2 * d - 612 <= b <= -2 * d + 12,
            d >= 1_000_000,
    {
    }
    let fa = spec_mul(FOUR as int, a);
    lemma_tdiv_exact(4_000_000, 1_000_000);
    assert(fa == 4_000_000);
    let f4c = spec_mul(fa, cc);
    lemma_tdiv_exact(4 * cc, e);
    assert(fa * cc == (4 * cc) * e) by (nonlinear_arith)
        requires
            fa == 4_000_000,
            e == 1_000_000,
    {
    }
    assert(-400_000_000_000 <= 4 * cc <= 2_000_000_000_000);
    assert(f4c == 4 * cc);
    let disc = spec_sub(bb, f4c);
    assert(bb >= 0 && bb * 1_000_000 <= b * b);
    assert(bb <= 1_000_000_000_000) by (nonlinear_arith)
        requires
            bb * 1_000_000 <= b * b,
            b * b <= (2 * d + 612) * (2 * d + 612),
            1_000_000 <= d <= 100_000_000,
            bb >= 0,
    {
        assert((2 * d + 612) * (2 * d + 612) <= 200_000_612 * 200_000_612);
        assert(bb > 1_000_000_000_000 ==> bb * 1_000_000 > 1_000_000_000_000 * 1_000_000);
    }
    assert(disc == bb - 4 * cc);
    vstd::arithmetic::mul::lemma_mul_inequality(s2, 1_000_000_000_000int + 3_000_000, d * d);
    vstd::arithmetic::mul::lemma_mul_inequality(1_000_000_000_000int, s2, d * d);
    assert(d * d >= 0) by (nonlinear_arith);
    assert(((2 * d - 12) * (2 * d - 12) - 1_000_000) * 1_000_000_000_000 > 4 * ((
    1_000_000_000_000 + 3_000_000) * (d * d) - (radius * radius) * 1_000_000_000_000 + 6
        * 1_000_000_000_000 * d + 3 * 1_000_000_000_000 + 1_000_000_000_000_000_000))
        by (nonlinear_arith)
        requires
            500_000 <= radius,
            radius + 500_000 <= d <= 100_000_000,
    {
    }
    assert(bb * 1_000_000_000_000_000_000 > ((2 * d - 12) * (2 * d - 12) - 1_000_000)
        * 1_000_000_000_000);
    assert(disc >= 1) by (nonlinear_arith)
        requires
            disc == bb - 4 * cc,
            bb * 1_000_000_000_000_000_000 > (4 * cc) * 1_000_000_000_000_000_000,
    {
    }

    // the discriminant stays below the square that would push the nearer
    // root behind the ray
    assert((2 * d + 612) * (2 * d + 612) * 1_000_000 + 4 * (1_000_000_000_000 * (d * d) - (radius
        * radius) * 1_000_000_000_000 - 6 * 1_000_000_000_000 * d - 3
        * 1_000_000_000_000_000_000) * (-1) < (2 * d - 14) * (2 * d - 14) * 1_000_000)
        by (nonlinear_arith)
        requires
            500_000 <= radius,
            radius + 500_000 <= d <= 100_000_000,
    {
    }
    assert(disc * 1_000_000 < (2 * d - 14) * (2 * d - 14)) by (nonlinear_arith)
        requires
            disc == bb - 4 * cc,
            bb * 1_000_000 <= b * b,
            b * b <= (2 * d + 612) * (2 * d + 612),
            cc * 1_000_000_000_000_000_000 > s2 * (d * d) - (radius * radius)
                * 1_000_000_000_000 - 6 * 1_000_000_000_000 * d - 3 * 1_000_000_000_000_000_000,
            1_000_000_000_000 * (d * d) <= s2 * (d * d),
            (2 * d + 612) * (2 * d + 612) * 1_000_000 + 4 * (1_000_000_000_000 * (d * d) - (radius
                * radius) * 1_000_000_000_000 - 6 * 1_000_000_000_000 * d - 3
                * 1_000_000_000_000_000_000) * (-1) < (2 * d - 14) * (2 * d - 14) * 1_000_000,
            500_000 <= radius,
            radius + 500_000 <= d <= 100_000_000,
    {
        assert(disc * 1_000_000_000_000_000_000 == bb * 1_000_000_000_000_000_000 - (4 * cc)
            * 1_000_000_000_000_000_000);
    }

    // the square root of the discriminant
    let sd = spec_sqrt(disc);
    lemma_sqrt_floor((disc * ONE) as nat);
    assert(sd == sqrt_floor((disc * ONE) as nat));
    assert(sd * sd <= disc * 1_000_000 && disc * 1_000_000 < (sd + 1) * (sd + 1));
    assert(1 <= sd && sd <= 2 * d - 15) by (nonlinear_arith)
        requires
            sd * sd <= disc * 1_000_000,
            disc * 1_000_000 < (sd + 1) * (sd + 1),
            disc * 1_000_000 < (2 * d - 14) * (2 * d - 14),
            disc >= 1,
            sd >= 0,
            d >= 1_000_000,
    {
        assert(sd >= 2 * d - 14 ==> sd * sd >= (2 * d - 14) * (2 * d - 14));
        assert(sd == 0 ==> (sd + 1) * (sd + 1) == 1);
    }

    // the discriminant also brackets four radius-squares, so the root of it
    // tracks the diameter
    assert(((2 * d - 12) * (2 * d - 12) - 1_000_000) * 1_000_000_000_000 - 4 * ((
    1_000_000_000_000 + 3_000_000) * (d * d) - (radius * radius) * 1_000_000_000_000 + 6
        * 1_000_000_000_000 * d + 3 * 1_000_000_000_000 + 1_000_000_000_000_000_000) >= (2
        * radius - 80_000) * (2 * radius - 80_000) * 1_000_000_000_000) by (nonlinear_arith)
        requires
            500_000 <= radius,
            radius + 500_000 <= d <= 100_000_000,
    {
    }
    assert(disc * 1_000_000 >= (2 * radius - 80_000) * (2 * radius - 80_000))
        by (nonlinear_arith)
        requires
            disc == bb - 4 * cc,
            bb * 1_000_000_000_000_000_000 > ((2 * d - 12) * (2 * d - 12) - 1_000_000)
                * 1_000_000_000_000,
            cc * 1_000_000_000_000_000_000 < s2 * (d * d) - (radius * radius)
                * 1_000_000_000_000 + 6 * 1_000_000_000_000 * d + 3 * 1_000_000_000_000
                + 1_000_000_000_000_000_000,
            s2 * (d * d) <= (1_000_000_000_000 + 3_000_000) * (d * d),
            ((2 * d - 12) * (2 * d - 12) - 1_000_000) * 1_000_000_000_000 - 4 * ((
            1_000_000_000_000 + 3_000_000) * (d * d) - (radius * radius) * 1_000_000_000_000 + 6
                * 1_000_000_000_000 * d + 3 * 1_000_000_000_000 + 1_000_000_000_000_000_000) >= (2
                * radius - 80_000) * (2 * radius - 80_000) * 1_000_000_000_000,
    {
        assert(disc * 1_000_000_000_000_000_000 == bb * 1_000_000_000_000_000_000 - (4 * cc)
            * 1_000_000_000_000_000_000);
        assert(disc * 1_000_000_000_000_000_000 == (disc * 1_000_000) * 1_000_000_000_000);
    }
    assert((2 * d + 612) * (2 * d + 612) * 1_000_000 + 4 * (1_000_000_000_000 * (d * d) - (radius
        * radius) * 1_000_000_000_000 - 6 * 1_000_000_000_000 * d - 3
        * 1_000_000_000_000_000_000) * (-1) < (2 * radius + 130_000) * (2 * radius + 130_000)
        * 1_000_000) by (nonlinear_arith)
        requires
            500_000 <= radius,
            radius + 500_000 <= d <= 100_000_000,
    {
    }
    assert(disc * 1_000_000 < (2 * radius + 130_000) * (2 * radius + 130_000))
        by (nonlinear_arith)
        requires
            disc == bb - 4 * cc,
            bb * 1_000_000 <= b * b,
            b * b <= (2 * d + 612) * (2 * d + 612),
            cc * 1_000_000_000_000_000_000 > s2 * (d * d) - (radius * radius)
                * 1_000_000_000_000 - 6 * 1_000_000_000_000 * d - 3 * 1_000_000_000_000_000_000,
            1_000_000_000_000 * (d * d) <= s2 * (d * d),
            (2 * d + 612) * (2 * d + 612) * 1_000_000 + 4 * (1_000_000_000_000 * (d * d) - (radius
                * radius) * 1_000_000_000_000 - 6 * 1_000_000_000_000 * d - 3
                * 1_000_000_000_000_000_000) * (-1) < (2 * radius + 130_000) * (2 * radius
                + 130_000) * 1_000_000,
            500_000 <= radius,
            radius + 500_000 <= d <= 100_000_000,
    {
        assert(disc * 1_000_000_000_000_000_000 == bb * 1_000_000_000_000_000_000 - (4 * cc)
            * 1_000_000_000_000_000_000);
    }
    assert(2 * radius - 80_000 <= sd && sd <= 2 * radius + 129_999) by (nonlinear_arith)
        requires
            sd * sd <= disc * 1_000_000,
            disc * 1_000_000 < (sd + 1) * (sd + 1),
            disc * 1_000_000 >= (2 * radius - 80_000) * (2 * radius - 80_000),
            disc * 1_000_000 < (2 * radius + 130_000) * (2 * radius + 130_000),
            sd >= 0,
            radius >= 500_000,
    {
        assert(sd + 1 <= 2 * radius - 80_000 ==> (sd + 1) * (sd + 1) <= (2 * radius - 80_000) * (
        2 * radius - 80_000));
        assert(sd >= 2 * radius + 130_000 ==> sd * sd >= (2 * radius + 130_000) * (2 * radius
            + 130_000));
    }

    // the two roots
    let nb = spec_neg(b);
    assert(nb == -b);
    let n1 = spec_sub(nb, sd);
    let n2 = spec_add(nb, sd);
    assert(n1 == -b - sd && n2 == -b + sd);
    assert(3 <= n1 && n1 <= 2 * d + 612);
    assert(n1 + 2 <= n2 && n2 <= 4 * d + 612);
    assert(2 * (d - radius - 65_006) <= n1 <= 2 * (d - radius + 40_306));
    let denom = spec_mul(TWO as int, a);
    lemma_tdiv_exact(2_000_000, 1_000_000);
    assert(denom == TWO as int);
    let t1 = spec_div(n1, TWO as int);
    let t2 = spec_div(n2, TWO as int);
    lemma_spec_div_two(n1);
    lemma_spec_div_two(n2);
    assert(t1 == n1 / 2 && t2 == n2 / 2);
    vstd::arithmetic::div_mod::lemma_div_by_self(2);
    vstd::arithmetic::div_mod::lemma_div_is_ordered(2, n1, 2);
    vstd::arithmetic::div_mod::lemma_div_is_ordered(n1, 2 * (d + 306), 2);
    vstd::arithmetic::div_mod::lemma_div_multiples_vanish(d + 306, 2);
    assert(1 <= t1 && t1 <= d + 306);
    vstd::arithmetic::div_mod::lemma_div_is_ordered(2 * (d - radius - 65_006), n1, 2);
    vstd::arithmetic::div_mod::lemma_div_multiples_vanish(d - radius - 65_006, 2);
    vstd::arithmetic::div_mod::lemma_div_is_ordered(n1, 2 * (d - radius + 40_306), 2);
    vstd::arithmetic::div_mod::lemma_div_multiples_vanish(d - radius + 40_306, 2);
    assert(d - radius - 65_006 <= t1 <= d - radius + 40_306);
    vstd::arithmetic::div_mod::lemma_hoist_over_denominator(n1, 1, 2nat);
    vstd::arithmetic::div_mod::lemma_div_is_ordered(n1 + 2, n2, 2);
    assert(t1 < t2);

    // and the hit itself
    assert(sphere_disc(s, ray) == disc);
    assert(sphere_root_near(s, ray) == t1);
    assert(sphere_root_far(s, ray) == t2);
    assert(0 < t1 < FX_MAX as int);
    assert(sphere_hit_spec(s, ray, 0, FX_MAX as int) == Some(sphere_hit_rec(s, ray, t1, disc)));
}

} // verus!
