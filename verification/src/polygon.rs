//! Simple polygons: an ordered vertex ring with a parallel texture ring.
//!
//! All vertices of one polygon share a single denominator, which keeps the
//! shoelace area an exact 128-bit integer computation. Construction
//! rescales arbitrary points onto a common denominator and enforces the
//! counter-clockwise winding invariant: a clockwise ring is reversed, so
//! the signed area of every polygon value is non-negative.

use vstd::prelude::*;

verus! {

use crate::point::{Point, pt_eq};
use crate::rat::{
    Rat, COORD_LIMIT, RAW_LIMIT, abs_int, norm_rat, norm_rat_exec, gcd_u128, lemma_gcd_divides,
    lemma_div_exact, lemma_mul_mod_zero, lemma_divides_trans, lemma_mul_range, lemma_abs_mul_le,
    lemma_norm_rat_some,
};
use crate::segments::{Line, LineSegment, line_on_side, line_contains, line_side_num};

/// Doubled cross product term of one directed edge.
pub open spec fn edge_cross(p: Point, q: Point) -> int {
    p.xn * q.yn - q.xn * p.yn
}

/// Partial shoelace sum over the first `k` directed edges of the ring
/// (each edge wraps from the last vertex back to the first).
pub open spec fn area2_sum(s: Seq<Point>, k: int) -> int
    decreases k,
{
    if k <= 0 {
        0
    } else {
        area2_sum(s, k - 1) + edge_cross(s[k - 1], s[k % s.len() as int])
    }
}

/// Numerator of the doubled signed area of a shared-denominator ring: the
/// exact doubled area is this over the squared shared denominator.
pub open spec fn poly_area2(s: Seq<Point>) -> int {
    area2_sum(s, s.len() as int)
}

/// Every point of the ring is well formed and shares the denominator of
/// the first.
pub open spec fn ring_shared_den(s: Seq<Point>) -> bool {
    forall|i: int| 0 <= i < s.len() ==> (#[trigger] s[i]).wf() && s[i].den == s[0].den
}

/// The ring read backwards.
pub open spec fn ring_rev(s: Seq<Point>) -> Seq<Point> {
    Seq::new(s.len(), |i: int| s[s.len() - 1 - i])
}

/// The output rings hold the input rings' values, either in the original
/// order or both reversed.
pub open spec fn ring_matches(qv: Seq<Point>, qt: Seq<Point>, vs: Seq<Point>, ts: Seq<Point>) -> bool {
    ||| (forall|i: int| 0 <= i < vs.len() ==> #[trigger] pt_eq(qv[i], vs[i]) && pt_eq(qt[i], ts[i]))
    ||| (forall|i: int| 0 <= i < vs.len() ==> #[trigger] pt_eq(qv[i], vs[vs.len() - 1 - i])
        && pt_eq(qt[i], ts[vs.len() - 1 - i]))
}

/// A simple polygon: a counter-clockwise vertex ring and a parallel ring
/// of texture coordinates. Immutable; every transform builds a new value.
#[derive(Clone, Debug)]
pub struct Polygon {
    pub verts: Vec<Point>,
    pub tex: Vec<Point>,
}

impl Polygon {
    /// At least three vertices, one texture coordinate per vertex, each
    /// ring on one shared denominator, and counter-clockwise winding.
    pub open spec fn wf(self) -> bool {
        &&& self.verts@.len() >= 3
        &&& self.tex@.len() == self.verts@.len()
        &&& ring_shared_den(self.verts@)
        &&& ring_shared_den(self.tex@)
        &&& poly_area2(self.verts@) >= 0
    }
}

/// The exact doubled-area numerator of a shared-denominator ring.
fn area2_exec(ring: &Vec<Point>) -> (a: i128)
    requires
        ring_shared_den(ring@),
    ensures
        a == poly_area2(ring@),
        abs_int(a as int) <= ring@.len() * (2 * ((COORD_LIMIT as int) * (COORD_LIMIT as int))),
{
    let ghost lm: int = COORD_LIMIT as int;
    let n = ring.len();
    let mut acc: i128 = 0;
    let mut i: usize = 0;
    while i < n
        invariant
            ring_shared_den(ring@),
            ring@.len() == n,
            i <= n,
            acc == area2_sum(ring@, i as int),
            abs_int(acc as int) <= i * (2 * (lm * lm)),
            lm == COORD_LIMIT as int,
        decreases n - i,
    {
        let p = ring[i];
        let j = if i + 1 >= n {
            0
        } else {
            i + 1
        };
        let q = ring[j];
        proof {
            if i + 1 >= n {
                vstd::arithmetic::div_mod::lemma_mod_self_0(n as int);
            } else {
                vstd::arithmetic::div_mod::lemma_small_mod((i + 1) as nat, n as nat);
            }
            lemma_mul_range(p.xn as int, q.yn as int, lm);
            lemma_mul_range(q.xn as int, p.yn as int, lm);
            assert((i + 1) * (2 * (lm * lm)) == i * (2 * (lm * lm)) + 2 * (lm * lm))
                by (nonlinear_arith);
            assert((i + 1) * (2 * (lm * lm)) <= 0x2000_0000_0000_0000_0000_0000_0000_0000int)
                by (nonlinear_arith)
                requires
                    0 <= i + 1 <= 0x1_0000_0000_0000_0000,
                    lm == 0x4000_0000,
            ;
        }
        let term: i128 = (p.xn as i128) * (q.yn as i128) - (q.xn as i128) * (p.yn as i128);
        acc = acc + term;
        i = i + 1;
    }
    acc
}

/// Reverse a ring of points.
fn reversed_ring(v: &Vec<Point>) -> (r: Vec<Point>)
    ensures
        r@.len() == v@.len(),
        forall|i: int| 0 <= i < v@.len() ==> r@[i] == v@[v@.len() - 1 - i],
{
    let n = v.len();
    let mut out: Vec<Point> = Vec::new();
    let mut i: usize = 0;
    while i < n
        invariant
            v@.len() == n,
            i <= n,
            out@.len() == i,
            forall|k: int| 0 <= k < i ==> out@[k] == v@[n - 1 - k],
        decreases n - i,
    {
        out.push(v[n - 1 - i]);
        i = i + 1;
    }
    out
}

/// All points of the ring already share the denominator of the first.
pub open spec fn ring_same_den(s: Seq<Point>) -> bool {
    forall|i: int| 0 <= i < s.len() ==> (#[trigger] s[i]).den == s[0].den
}

/// Mirror of the common-denominator fold: the least common multiple of the
/// first `i` denominators, or `None` once it leaves the coordinate bound.
pub open spec fn lcm_fold(s: Seq<Point>, i: int) -> Option<int>
    decreases i,
{
    if i <= 0 {
        Some(1)
    } else {
        match lcm_fold(s, i - 1) {
            None => None,
            Some(d) => {
                let g = crate::rat::gcd(d as nat, s[i - 1].den as nat) as int;
                let nd = (d / g) * (s[i - 1].den as int);
                if nd > COORD_LIMIT {
                    None
                } else {
                    Some(nd)
                }
            },
        }
    }
}

/// Mirror of the rescaling fold: the first `i` points brought onto the
/// common denominator `d`, or `None` once a numerator leaves the bound.
pub open spec fn rescale_map(s: Seq<Point>, d: int, i: int) -> Option<Seq<Point>>
    decreases i,
{
    if i <= 0 {
        Some(Seq::empty())
    } else {
        match rescale_map(s, d, i - 1) {
            None => None,
            Some(t) => {
                let f = d / (s[i - 1].den as int);
                let xn = s[i - 1].xn * f;
                let yn = s[i - 1].yn * f;
                if xn > COORD_LIMIT || xn < -COORD_LIMIT || yn > COORD_LIMIT || yn
                    < -COORD_LIMIT {
                    None
                } else {
                    Some(t.push(Point { xn: xn as i64, yn: yn as i64, den: d as i64 }))
                }
            },
        }
    }
}

/// Mirror of `rescale_ring`: a ring already on one denominator is kept as
/// it is; otherwise every point is brought onto the least common multiple
/// of the denominators.
pub open spec fn rescale_spec(s: Seq<Point>) -> Option<Seq<Point>> {
    if ring_same_den(s) {
        Some(s)
    } else {
        match lcm_fold(s, s.len() as int) {
            None => None,
            Some(d) => rescale_map(s, d, s.len() as int),
        }
    }
}

/// Once the common-denominator fold fails, it stays failed.
proof fn lemma_lcm_none_stays(s: Seq<Point>, k: int, m: int)
    requires
        0 <= k <= m,
        lcm_fold(s, k) is None,
    ensures
        lcm_fold(s, m) is None,
    decreases m - k,
{
    if m > k {
        lemma_lcm_none_stays(s, k, m - 1);
    }
}

/// Once the rescaling fold fails, it stays failed.
proof fn lemma_map_none_stays(s: Seq<Point>, d: int, k: int, m: int)
    requires
        0 <= k <= m,
        rescale_map(s, d, k) is None,
    ensures
        rescale_map(s, d, m) is None,
    decreases m - k,
{
    if m > k {
        lemma_map_none_stays(s, d, k, m - 1);
    }
}

/// Rescale a ring of points onto one shared denominator, preserving every
/// value. A ring that already shares a denominator is handed back as it
/// is; otherwise `None` when the common denominator or a rescaled
/// numerator leaves the representable range.
fn rescale_ring(ring: Vec<Point>) -> (r: Option<Vec<Point>>)
    requires
        forall|i: int| 0 <= i < ring@.len() ==> (#[trigger] ring@[i]).wf(),
        ring@.len() >= 1,
    ensures
        r is Some <==> rescale_spec(ring@) is Some,
        r matches Some(rs) ==> Some(rs@) == rescale_spec(ring@),
        r matches Some(rs) ==> rs@.len() == ring@.len() && ring_shared_den(rs@) && (forall|i: int|
            0 <= i < ring@.len() ==> pt_eq(#[trigger] rs@[i], ring@[i])),
        (forall|i: int| 0 <= i < ring@.len() ==> (#[trigger] ring@[i]).den == ring@[0].den)
            ==> r == Some(ring),
{
    let n = ring.len();
    let d0 = ring[0].den;
    let mut same: bool = true;
    let mut i: usize = 0;
    while i < n
        invariant
            forall|k: int| 0 <= k < ring@.len() ==> (#[trigger] ring@[k]).wf(),
            ring@.len() == n,
            i <= n,
            d0 == ring@[0].den,
            same == (forall|k: int| 0 <= k < i ==> (#[trigger] ring@[k]).den == d0),
        decreases n - i,
    {
        if ring[i].den != d0 {
            same = false;
        }
        i = i + 1;
    }
    if same {
        proof {
            assert(ring_same_den(ring@));
            assert(ring_shared_den(ring@));
            assert(forall|k: int|
                0 <= k < ring@.len() ==> pt_eq(#[trigger] ring@[k], ring@[k]));
        }
        return Some(ring);
    }
    proof {
        assert(!ring_same_den(ring@));
    }
    // common denominator: least common multiple of all the denominators
    let mut d: i64 = 1;
    let mut i: usize = 0;
    while i < n
        invariant
            forall|k: int| 0 <= k < ring@.len() ==> (#[trigger] ring@[k]).wf(),
            ring@.len() == n,
            i <= n,
            1 <= d <= COORD_LIMIT,
            lcm_fold(ring@, i as int) == Some(d as int),
            forall|k: int| 0 <= k < i ==> (d as int) % ((#[trigger] ring@[k]).den as int) == 0,
            !ring_same_den(ring@),
        decreases n - i,
    {
        let den = ring[i].den;
        let gu = gcd_u128(d as u128, den as u128);
        proof {
            lemma_gcd_divides(d as nat, den as nat);
            lemma_div_exact(d as int, gu as int);
            lemma_div_exact(den as int, gu as int);
            assert(d as int / gu as int >= 1 && gu as int <= d as int && d as int / gu as int
                <= d as int) by (nonlinear_arith)
                requires
                    d as int == gu as int * (d as int / gu as int),
                    d >= 1,
                    gu >= 1,
            ;
        }
        let g: i64 = gu as i64;
        let q: i64 = d / g;
        proof {
            lemma_mul_range(q as int, den as int, COORD_LIMIT as int);
        }
        let nd: i128 = (q as i128) * (den as i128);
        if nd > COORD_LIMIT as i128 {
            proof {
                assert(lcm_fold(ring@, i + 1) is None);
                lemma_lcm_none_stays(ring@, i + 1, n as int);
            }
            return None;
        }
        proof {
            assert(lcm_fold(ring@, i + 1) == Some(nd as int));
        }
        proof {
            // the new candidate is a multiple of every denominator so far
            assert(nd as int == (den as int) * (q as int)) by (nonlinear_arith)
                requires
                    nd as int == (q as int) * (den as int),
            ;
            lemma_mul_mod_zero(nd as int, den as int, q as int);
            let dg = d as int / g as int;
            assert(nd as int == (d as int) * ((den as int) / (g as int))) by (nonlinear_arith)
                requires
                    nd as int == (q as int) * (den as int),
                    q as int == dg,
                    d as int == (g as int) * dg,
                    den as int == (g as int) * ((den as int) / (g as int)),
            ;
            lemma_mul_mod_zero(nd as int, d as int, (den as int) / (g as int));
            assert(nd >= 1) by (nonlinear_arith)
                requires
                    q >= 1,
                    den >= 1,
                    nd as int == (q as int) * (den as int),
            ;
            assert(forall|k: int| 0 <= k < i ==> (nd as int) % ((#[trigger] ring@[k]).den as int)
                == 0) by {
                assert forall|k: int| 0 <= k < i implies (nd as int) % ((#[trigger] ring@[k]).den
                    as int) == 0 by {
                    lemma_divides_trans(ring@[k].den as int, d as int, nd as int);
                }
            }
        }
        d = nd as i64;
        i = i + 1;
    }
    // rescale every point onto the common denominator
    let mut out: Vec<Point> = Vec::new();
    let mut i: usize = 0;
    while i < n
        invariant
            forall|k: int| 0 <= k < ring@.len() ==> (#[trigger] ring@[k]).wf(),
            ring@.len() == n,
            i <= n,
            1 <= d <= COORD_LIMIT,
            lcm_fold(ring@, n as int) == Some(d as int),
            rescale_map(ring@, d as int, i as int) == Some(out@),
            forall|k: int| 0 <= k < n ==> (d as int) % ((#[trigger] ring@[k]).den as int) == 0,
            !ring_same_den(ring@),
            out@.len() == i,
            forall|k: int| 0 <= k < i ==> (#[trigger] out@[k]).wf() && out@[k].den == d && pt_eq(
                out@[k],
                ring@[k],
            ),
        decreases n - i,
    {
        let p = ring[i];
        proof {
            lemma_div_exact(d as int, p.den as int);
        }
        let f: i64 = d / p.den;
        proof {
            assert(f >= 1) by (nonlinear_arith)
                requires
                    d as int == (p.den as int) * (f as int),
                    d >= 1,
                    p.den >= 1,
            ;
            assert(f <= COORD_LIMIT) by (nonlinear_arith)
                requires
                    d as int == (p.den as int) * (f as int),
                    d <= COORD_LIMIT,
                    p.den >= 1,
                    f >= 1,
            ;
            lemma_mul_range(p.xn as int, f as int, COORD_LIMIT as int);
            lemma_mul_range(p.yn as int, f as int, COORD_LIMIT as int);
        }
        let xn: i128 = (p.xn as i128) * (f as i128);
        let yn: i128 = (p.yn as i128) * (f as i128);
        if xn > COORD_LIMIT as i128 || xn < -(COORD_LIMIT as i128) || yn > COORD_LIMIT as i128
            || yn < -(COORD_LIMIT as i128) {
            proof {
                assert(rescale_map(ring@, d as int, i + 1) is None);
                lemma_map_none_stays(ring@, d as int, i + 1, n as int);
            }
            return None;
        }
        let np = Point { xn: xn as i64, yn: yn as i64, den: d };
        proof {
            assert(np.xn * p.den == p.xn * np.den && np.yn * p.den == p.yn * np.den)
                by (nonlinear_arith)
                requires
                    np.xn as int == p.xn * f,
                    np.yn as int == p.yn * f,
                    np.den as int == d,
                    d as int == (p.den as int) * (f as int),
            ;
        }
        out.push(np);
        proof {
            assert(rescale_map(ring@, d as int, i + 1) == Some(out@));
        }
        i = i + 1;
    }
    proof {
        assert(ring_shared_den(out@));
    }
    Some(out)
}

/// Mirror of `Polygon::new`: both rings brought onto shared denominators,
/// then reversed together if the vertex ring winds clockwise. `None` when
/// a ring cannot be rescaled within the coordinate bound (and, in
/// principle, if neither orientation of the rescaled ring shows a
/// non-negative area numerator).
pub open spec fn polygon_new_spec(vs: Seq<Point>, ts: Seq<Point>) -> Option<
    (Seq<Point>, Seq<Point>),
> {
    match rescale_spec(vs) {
        None => None,
        Some(rv) => match rescale_spec(ts) {
            None => None,
            Some(rt) => if poly_area2(rv) >= 0 {
                Some((rv, rt))
            } else if poly_area2(ring_rev(rv)) >= 0 {
                Some((ring_rev(rv), ring_rev(rt)))
            } else {
                None
            },
        },
    }
}

impl Polygon {
    /// Build a polygon from a vertex ring and its parallel texture ring.
    /// A clockwise ring is reversed, together with its texture ring, so
    /// the result always winds counter-clockwise. `None` only when the
    /// rings cannot be brought onto shared denominators within the
    /// coordinate bound.
    pub fn new(vertices: Vec<Point>, texture_coords: Vec<Point>) -> (r: Option<Polygon>)
        requires
            vertices@.len() >= 3,
            texture_coords@.len() == vertices@.len(),
            forall|i: int| 0 <= i < vertices@.len() ==> (#[trigger] vertices@[i]).wf(),
            forall|i: int| 0 <= i < texture_coords@.len() ==> (#[trigger] texture_coords@[i]).wf(),
        ensures
            r is Some <==> polygon_new_spec(vertices@, texture_coords@) is Some,
            r matches Some(q) ==> Some((q.verts@, q.tex@)) == polygon_new_spec(
                vertices@,
                texture_coords@,
            ),
            r matches Some(q) ==> q.wf() && q.verts@.len() == vertices@.len() && ring_matches(
                q.verts@,
                q.tex@,
                vertices@,
                texture_coords@,
            ),
            ((forall|i: int| 0 <= i < vertices@.len() ==> (#[trigger] vertices@[i]).den
                == vertices@[0].den) && (forall|i: int| 0 <= i < texture_coords@.len() ==> (
            #[trigger] texture_coords@[i]).den == texture_coords@[0].den) && (poly_area2(
                vertices@,
            ) >= 0 || poly_area2(ring_rev(vertices@)) >= 0)) ==> r is Some,
            (ring_same_den(vertices@) && ring_same_den(texture_coords@) && poly_area2(vertices@)
                >= 0 && r is Some) ==> r.unwrap().verts@ == vertices@ && r.unwrap().tex@
                == texture_coords@,
    {
        let ghost vs0 = vertices@;
        let ghost ts0 = texture_coords@;
        let vs = match rescale_ring(vertices) {
            None => {
                return None;
            },
            Some(vs) => vs,
        };
        let ts = match rescale_ring(texture_coords) {
            None => {
                return None;
            },
            Some(ts) => ts,
        };
        let a = area2_exec(&vs);
        if a >= 0 {
            Some(Polygon { verts: vs, tex: ts })
        } else {
            let rv = reversed_ring(&vs);
            let rt = reversed_ring(&ts);
            proof {
                assert(ring_shared_den(rv@));
                assert(ring_shared_den(rt@));
                assert(rv@ =~= ring_rev(vs@));
                assert(rt@ =~= ring_rev(ts@));
                if vs@ =~= vs0 {
                    assert(rv@ =~= ring_rev(vs0));
                }
            }
            let a2 = area2_exec(&rv);
            if a2 >= 0 {
                Some(Polygon { verts: rv, tex: rt })
            } else {
                None
            }
        }
    }

    /// The vertex ring.
    pub fn vertices(&self) -> (r: &Vec<Point>)
        requires
            self.wf(),
        ensures
            r == &self.verts,
    {
        &self.verts
    }

    /// The texture-coordinate ring.
    pub fn texture_coords(&self) -> (r: &Vec<Point>)
        requires
            self.wf(),
        ensures
            r == &self.tex,
    {
        &self.tex
    }

    /// The number of vertices.
    pub fn num_vertices(&self) -> (r: usize)
        requires
            self.wf(),
        ensures
            r == self.verts@.len(),
    {
        self.verts.len()
    }

    /// The exact signed area: never negative, by the winding invariant.
    /// `None` when the reduced value leaves the representable range.
    pub fn area(&self) -> (r: Option<Rat>)
        requires
            self.wf(),
        ensures
            r == norm_rat(
                poly_area2(self.verts@),
                2 * ((self.verts@[0].den * self.verts@[0].den) as int),
            ),
            r matches Some(a) ==> a.wf() && a.num >= 0,
    {
        let a2 = area2_exec(&self.verts);
        let n = self.verts.len();
        let d0 = self.verts[0].den;
        proof {
            lemma_mul_range(d0 as int, d0 as int, COORD_LIMIT as int);
            assert(ring_shared_den(self.verts@));
            assert(n * (2 * ((COORD_LIMIT as int) * (COORD_LIMIT as int))) <= RAW_LIMIT)
                by (nonlinear_arith)
                requires
                    n <= 0xffff_ffff_ffff_ffff,
            ;
        }
        proof {
            assert((d0 as int) * (d0 as int) >= 1) by (nonlinear_arith)
                requires
                    d0 >= 1,
            ;
        }
        let d: i128 = 2 * ((d0 as i128) * (d0 as i128));
        let r = norm_rat_exec(a2, d);
        proof {
            if r is Some {
                lemma_norm_rat_some(a2 as int, d as int);
                let a = r.unwrap();
                assert(a.num >= 0) by (nonlinear_arith)
                    requires
                        a.num * (d as int) == (a2 as int) * a.den,
                        a2 >= 0,
                        d >= 1,
                        a.den >= 1,
                ;
            }
        }
        r
    }

    /// The border as a list of segments, each from a vertex to the next,
    /// wrapping from the last vertex back to the first.
    pub fn border(&self) -> (r: Vec<LineSegment>)
        requires
            self.wf(),
        ensures
            r@.len() == self.verts@.len(),
            forall|j: int| 0 <= j < r@.len() ==> (#[trigger] r@[j]).wf() && r@[j].start
                == self.verts@[j] && r@[j].end == self.verts@[if j + 1 == r@.len() {
                0int
            } else {
                j + 1
            }],
    {
        let n = self.verts.len();
        let mut out: Vec<LineSegment> = Vec::new();
        let mut j: usize = 0;
        while j < n
            invariant
                self.wf(),
                self.verts@.len() == n,
                j <= n,
                out@.len() == j,
                forall|k: int| 0 <= k < j ==> (#[trigger] out@[k]).wf() && out@[k].start
                    == self.verts@[k] && out@[k].end == self.verts@[if k + 1 == n {
                    0int
                } else {
                    k + 1
                }],
            decreases n - j,
        {
            let nx = if j + 1 >= n {
                0
            } else {
                j + 1
            };
            out.push(LineSegment { start: self.verts[j], end: self.verts[nx] });
            j = j + 1;
        }
        out
    }
}

/// The squared distance between two points of one shared-denominator ring
/// reaches `min_dist`: the exact form of "not closer than `min_dist`".
pub open spec fn far_apart(p: Point, q: Point, min_dist: Rat) -> bool {
    ((p.xn - q.xn) * (p.xn - q.xn) + (p.yn - q.yn) * (p.yn - q.yn)) * (min_dist.den
        * min_dist.den) >= (min_dist.num * min_dist.num) * (p.den * p.den)
}

/// Exact distance test for two points sharing a denominator.
fn far_exec(p: Point, q: Point, min_dist: Rat) -> (r: bool)
    requires
        p.wf(),
        q.wf(),
        min_dist.wf(),
    ensures
        r == far_apart(p, q, min_dist),
{
    let ghost lm: int = COORD_LIMIT as int;
    let dx: i128 = (p.xn as i128) - (q.xn as i128);
    let dy: i128 = (p.yn as i128) - (q.yn as i128);
    proof {
        lemma_abs_mul_le(dx as int, dx as int, 2 * lm, 2 * lm);
        lemma_abs_mul_le(dy as int, dy as int, 2 * lm, 2 * lm);
        lemma_mul_range(min_dist.den as int, min_dist.den as int, lm);
        lemma_mul_range(min_dist.num as int, min_dist.num as int, lm);
        lemma_mul_range(p.den as int, p.den as int, lm);
        lemma_abs_mul_le(
            dx as int * dx + dy as int * dy,
            min_dist.den as int * min_dist.den,
            8 * (lm * lm),
            lm * lm,
        );
        lemma_abs_mul_le(
            min_dist.num as int * min_dist.num,
            p.den as int * p.den,
            lm * lm,
            lm * lm,
        );
    }
    let s: i128 = dx * dx + dy * dy;
    let lhs: i128 = s * ((min_dist.den as i128) * (min_dist.den as i128));
    let rhs: i128 = ((min_dist.num as i128) * (min_dist.num as i128)) * ((p.den as i128) * (p.den
        as i128));
    lhs >= rhs
}

/// The area numerator clears the `min_area` threshold: `|a2| / (2·D²)`,
/// the absolute polygon area, is strictly greater than `min_area`.
pub open spec fn area_clears(a2: int, min_area: Rat, d0: int) -> bool {
    abs_int(a2) * (min_area.den as int) > (min_area.num as int) * (2 * (d0 * d0))
}

/// Indices of the vertices kept by the consecutive-merge pass over the
/// first `j` vertices: the first vertex always stays, and each later
/// vertex stays only if it is far enough from the last kept one.
pub open spec fn merge_idx(s: Seq<Point>, min_dist: Rat, j: int) -> Seq<int>
    decreases j,
{
    if j <= 1 {
        seq![0int]
    } else {
        let prev = merge_idx(s, min_dist, j - 1);
        if far_apart(s[j - 1], s[prev[prev.len() - 1]], min_dist) {
            prev.push(j - 1)
        } else {
            prev
        }
    }
}

/// The subsequence of `s` at the given indices.
pub open spec fn sel(s: Seq<Point>, idx: Seq<int>) -> Seq<Point> {
    Seq::new(idx.len(), |k: int| s[idx[k]])
}

/// Kept indices after the wrap-around check: the last kept vertex is
/// merged away if it is too close to the first.
pub open spec fn merge_wrap(s: Seq<Point>, min_dist: Rat) -> Seq<int> {
    let idx = merge_idx(s, min_dist, s.len() as int);
    if !far_apart(s[idx[idx.len() - 1]], s[0], min_dist) {
        idx.drop_last()
    } else {
        idx
    }
}

/// Mirror of `Polygon::sanitize_polynomial`: the merged rings, `None`
/// when fewer than three vertices survive, the area misses the threshold,
/// or (in principle) neither orientation shows a non-negative area.
pub open spec fn sanitize_spec(s: Seq<Point>, ts: Seq<Point>, min_dist: Rat, min_area: Rat)
    -> Option<(Seq<Point>, Seq<Point>)> {
    let idx = merge_wrap(s, min_dist);
    let kept = sel(s, idx);
    let keptt = sel(ts, idx);
    if idx.len() <= 2 {
        None
    } else if !area_clears(poly_area2(kept), min_area, kept[0].den as int) {
        None
    } else if poly_area2(kept) >= 0 {
        Some((kept, keptt))
    } else if poly_area2(ring_rev(kept)) >= 0 {
        Some((ring_rev(kept), ring_rev(keptt)))
    } else {
        None
    }
}

/// The merge indices start at the first vertex, stay in range and never
/// outnumber the vertices seen.
proof fn lemma_merge_idx_props(s: Seq<Point>, min_dist: Rat, j: int)
    requires
        1 <= j,
    ensures
        1 <= merge_idx(s, min_dist, j).len() <= j,
        merge_idx(s, min_dist, j)[0] == 0,
        forall|k: int| 0 <= k < merge_idx(s, min_dist, j).len() ==> 0 <= #[trigger] merge_idx(
            s,
            min_dist,
            j,
        )[k] < j,
    decreases j,
{
    if j > 1 {
        lemma_merge_idx_props(s, min_dist, j - 1);
    }
}

impl Polygon {
    /// Merge consecutive vertices closer than `min_dist` (including the
    /// wrap-around pair), then discard the polygon entirely if fewer than
    /// three vertices remain or its area does not clear `min_area`. Keeps
    /// degenerate slivers out of the caller's world.
    #[verifier::rlimit(100)]
    #[verifier::spinoff_prover]
    pub fn sanitize_polynomial(&self, min_dist: Rat, min_area: Rat) -> (r: Option<Polygon>)
        requires
            self.wf(),
            min_dist.wf(),
            min_area.wf(),
            min_dist.num >= 0,
            min_area.num >= 0,
        ensures
            r is Some <==> sanitize_spec(self.verts@, self.tex@, min_dist, min_area) is Some,
            r matches Some(q) ==> Some((q.verts@, q.tex@)) == sanitize_spec(
                self.verts@,
                self.tex@,
                min_dist,
                min_area,
            ),
            r matches Some(q) ==> q.wf() && q.verts@.len() <= self.verts@.len() && (forall|i: int|
                0 <= i < q.verts@.len() ==> exists|j: int|
                    0 <= j < self.verts@.len() && (#[trigger] q.verts@[i]) == self.verts@[j]
                        && q.tex@[i] == self.tex@[j]),
            ((forall|j: int| 1 <= j < self.verts@.len() ==> far_apart(
                #[trigger] self.verts@[j],
                self.verts@[j - 1],
                min_dist,
            )) && far_apart(
                self.verts@[self.verts@.len() - 1],
                self.verts@[0],
                min_dist,
            ) && area_clears(
                poly_area2(self.verts@),
                min_area,
                self.verts@[0].den as int,
            )) ==> (r matches Some(q) && q.verts@ == self.verts@ && q.tex@ == self.tex@),
    {
        let n = self.verts.len();
        let ghost allfar: bool = (forall|j: int| 1 <= j < self.verts@.len() ==> far_apart(
            #[trigger] self.verts@[j],
            self.verts@[j - 1],
            min_dist,
        ));
        let mut kept: Vec<Point> = Vec::new();
        let mut kept_tex: Vec<Point> = Vec::new();
        kept.push(self.verts[0]);
        kept_tex.push(self.tex[0]);
        proof {
            assert(kept@ =~= sel(self.verts@, merge_idx(self.verts@, min_dist, 1)));
            assert(kept_tex@ =~= sel(self.tex@, merge_idx(self.verts@, min_dist, 1)));
        }
        let mut j: usize = 1;
        while j < n
            invariant
                self.wf(),
                min_dist.wf(),
                self.verts@.len() == n,
                1 <= j <= n,
                kept@ == sel(self.verts@, merge_idx(self.verts@, min_dist, j as int)),
                kept_tex@ == sel(self.tex@, merge_idx(self.verts@, min_dist, j as int)),
                kept@.len() == kept_tex@.len(),
                1 <= kept@.len() <= j,
                kept@[0] == self.verts@[0],
                forall|i: int| 0 <= i < kept@.len() ==> exists|k: int|
                    0 <= k < n && (#[trigger] kept@[i]) == self.verts@[k] && kept_tex@[i]
                        == self.tex@[k],
                forall|i: int| 0 <= i < kept@.len() ==> (#[trigger] kept@[i]).wf() && kept@[i].den
                    == self.verts@[0].den,
                forall|i: int| 0 <= i < kept_tex@.len() ==> (#[trigger] kept_tex@[i]).wf()
                    && kept_tex@[i].den == self.tex@[0].den,
                allfar ==> kept@ == self.verts@.subrange(0, j as int) && kept_tex@
                    == self.tex@.subrange(0, j as int),
                allfar == (forall|k: int| 1 <= k < self.verts@.len() ==> far_apart(
                    #[trigger] self.verts@[k],
                    self.verts@[k - 1],
                    min_dist,
                )),
            decreases n - j,
        {
            let vert = self.verts[j];
            proof {
                lemma_merge_idx_props(self.verts@, min_dist, j as int);
            }
            let last = kept[kept.len() - 1];
            proof {
                let prev = merge_idx(self.verts@, min_dist, j as int);
                assert(last == self.verts@[prev[prev.len() - 1]]);
            }
            if far_exec(vert, last, min_dist) {
                kept.push(vert);
                kept_tex.push(self.tex[j]);
                proof {
                    assert(kept@ =~= sel(self.verts@, merge_idx(self.verts@, min_dist, j + 1)));
                    assert(kept_tex@ =~= sel(self.tex@, merge_idx(self.verts@, min_dist, j + 1)));
                    assert forall|i: int| 0 <= i < kept@.len() implies exists|k: int|
                        0 <= k < n && (#[trigger] kept@[i]) == self.verts@[k] && kept_tex@[i]
                            == self.tex@[k] by {
                        if i == kept@.len() - 1 {
                            assert(0 <= j < n && kept@[i] == self.verts@[j as int] && kept_tex@[i]
                                == self.tex@[j as int]);
                        }
                    }
                }
            } else {
                proof {
                    assert(merge_idx(self.verts@, min_dist, j + 1) == merge_idx(
                        self.verts@,
                        min_dist,
                        j as int,
                    ));
                }
            }
            proof {
                if allfar {
                    assert(kept@ =~= self.verts@.subrange(0, j + 1));
                    assert(kept_tex@ =~= self.tex@.subrange(0, j + 1));
                }
            }
            j = j + 1;
        }
        proof {
            if allfar {
                assert(kept@ =~= self.verts@);
                assert(kept_tex@ =~= self.tex@);
            }
        }
        finish_sanitize(
            kept,
            kept_tex,
            min_dist,
            min_area,
            Ghost(self.verts@),
            Ghost(self.tex@),
        )
    }
}

/// Mirror of `clip_edge`: the clip line meets the edge's infinite line,
/// and the crossing point's texture coordinate interpolates the edge ends
/// weighted by their absolute side forms (which are proportional to the
/// chord distances from the crossing point).
pub open spec fn clip_edge_spec(vl: Point, vn: Point, tl: Point, tn: Point, line: Line) -> Option<
    (Point, Point),
> {
    match crate::segments::line_through(vl, vn) {
        None => None,
        Some(el) => match crate::segments::line_intersect(line, el) {
            None => None,
            Some(x) => match norm_rat(line_side_num(line, vl), vl.den as int) {
                None => None,
                Some(s0) => match norm_rat(line_side_num(line, vn), vn.den as int) {
                    None => None,
                    Some(s1) => {
                        let w1 = Rat { num: abs_int(s0.num as int) as i64, den: s0.den };
                        let w2 = Rat { num: abs_int(s1.num as int) as i64, den: s1.den };
                        if w1.num + w2.num < 1 {
                            None
                        } else {
                            match crate::segments::seg_interp(
                                LineSegment { start: tl, end: tn },
                                w1,
                                w2,
                            ) {
                                None => None,
                                Some(t) => Some((x, t)),
                            }
                        }
                    },
                },
            },
        },
    }
}

/// The crossing point of a polygon edge with the clip line, with its
/// interpolated texture coordinate. The texture weights are the absolute
/// side forms of the two edge endpoints, which are proportional to the
/// chord distances from the crossing point. `None` when the edge is
/// degenerate, parallel to the line, or a value leaves the representable
/// range.
fn clip_edge(vl: Point, vn: Point, tl: Point, tn: Point, line: Line) -> (r: Option<(Point, Point)>)
    requires
        vl.wf(),
        vn.wf(),
        tl.wf(),
        tn.wf(),
        line.wf(),
    ensures
        r == clip_edge_spec(vl, vn, tl, tn, line),
        r matches Some(xt) ==> xt.0.wf() && xt.1.wf() && line_contains(line, xt.0),
{
    let el = match Line::new_through(vl, vn) {
        None => {
            return None;
        },
        Some(el) => el,
    };
    let x = match line.intersect(el) {
        None => {
            return None;
        },
        Some(x) => x,
    };
    let s0 = match line.side(vl) {
        None => {
            return None;
        },
        Some(s0) => s0,
    };
    let s1 = match line.side(vn) {
        None => {
            return None;
        },
        Some(s1) => s1,
    };
    let w1 = s0.abs();
    let w2 = s1.abs();
    if w1.num + w2.num < 1 {
        return None;
    }
    proof {
        assert(w1.num * w2.den + w2.num * w1.den >= 1) by (nonlinear_arith)
            requires
                w1.num >= 0,
                w2.num >= 0,
                w1.num + w2.num >= 1,
                w1.den >= 1,
                w2.den >= 1,
        ;
    }
    let t = match LineSegment::new(tl, tn).interpolate_position(w1, w2) {
        None => {
            return None;
        },
        Some(t) => t,
    };
    Some((x, t))
}

/// The first vertex among the first `i` that lies on the kept side.
pub open spec fn first_on_side(s: Seq<Point>, line: Line, side: int, i: int) -> Option<int>
    decreases i,
{
    if i <= 0 {
        None
    } else {
        match first_on_side(s, line, side, i - 1) {
            Some(k) => Some(k),
            None => if line_on_side(line, s[i - 1], side) {
                Some(i - 1)
            } else {
                None
            },
        }
    }
}

/// One step of the clip walk, handling the ring edge that ends at vertex
/// `i mod n`: a kept destination is emitted (preceded by the fresh
/// crossing point if the edge enters the kept side), an excluded
/// destination leaves only the crossing point if the edge exits it.
pub open spec fn crop_step(
    vs: Seq<Point>,
    ts: Seq<Point>,
    line: Line,
    side: int,
    pv: Seq<Point>,
    pt: Seq<Point>,
    i: int,
) -> (Seq<Point>, Seq<Point>) {
    let n = vs.len() as int;
    let last = (i - 1) % n;
    let nx = i % n;
    if line_on_side(line, vs[nx], side) {
        if !line_on_side(line, vs[last], side) {
            match clip_edge_spec(vs[last], vs[nx], ts[last], ts[nx], line) {
                None => (pv.push(vs[nx]), pt.push(ts[nx])),
                Some(xt) => if !pt_eq(xt.0, pv[pv.len() - 1]) && !pt_eq(xt.0, vs[nx]) {
                    (pv.push(xt.0).push(vs[nx]), pt.push(xt.1).push(ts[nx]))
                } else {
                    (pv.push(vs[nx]), pt.push(ts[nx]))
                },
            }
        } else {
            (pv.push(vs[nx]), pt.push(ts[nx]))
        }
    } else {
        if line_on_side(line, vs[last], side) {
            match clip_edge_spec(vs[last], vs[nx], ts[last], ts[nx], line) {
                None => (pv, pt),
                Some(xt) => if !pt_eq(xt.0, pv[pv.len() - 1]) {
                    (pv.push(xt.0), pt.push(xt.1))
                } else {
                    (pv, pt)
                },
            }
        } else {
            (pv, pt)
        }
    }
}

/// The clip walk after the iterations up to (excluding) `i`: it starts
/// from the first kept vertex and goes once around the ring.
pub open spec fn crop_walk(
    vs: Seq<Point>,
    ts: Seq<Point>,
    line: Line,
    side: int,
    start: int,
    i: int,
) -> (Seq<Point>, Seq<Point>)
    decreases i - start,
{
    if i <= start + 1 {
        (seq![vs[start]], seq![ts[start]])
    } else {
        let prev = crop_walk(vs, ts, line, side, start, i - 1);
        crop_step(vs, ts, line, side, prev.0, prev.1, i - 1)
    }
}

/// Mirror of `Polygon::crop_to_halfplane`: walk the ring from the first
/// kept vertex, drop the duplicated closing vertex, rebuild and sanitise
/// with the clip thresholds.
pub open spec fn crop_spec(vs: Seq<Point>, ts: Seq<Point>, line: Line, side: int) -> Option<
    (Seq<Point>, Seq<Point>),
> {
    let n = vs.len() as int;
    match first_on_side(vs, line, side, n) {
        None => None,
        Some(start) => {
            let w = crop_walk(vs, ts, line, side, start, start + n + 1);
            let pv = w.0.drop_last();
            let pt = w.1.drop_last();
            if pv.len() < 3 {
                None
            } else {
                match polygon_new_spec(pv, pt) {
                    None => None,
                    Some(np) => sanitize_spec(
                        np.0,
                        np.1,
                        Rat { num: 1, den: 1000000 },
                        Rat { num: 1, den: 100 },
                    ),
                }
            }
        },
    }
}

impl Polygon {
    /// Clip the polygon against one half-plane: keep the part on the side
    /// of `line` selected by the sign of `side`, inserting the crossing
    /// points of the boundary as new vertices with interpolated texture
    /// coordinates. `None` when no vertex lies on the kept side, or the
    /// clipped remainder degenerates.
    ///
    /// Every vertex of a returned polygon lies on the kept side of the
    /// line (within it or exactly on the boundary).
    pub fn crop_to_halfplane(&self, line: Line, side: i32) -> (r: Option<Polygon>)
        requires
            self.wf(),
            line.wf(),
        ensures
            r is Some <==> crop_spec(self.verts@, self.tex@, line, side as int) is Some,
            r matches Some(q) ==> Some((q.verts@, q.tex@)) == crop_spec(
                self.verts@,
                self.tex@,
                line,
                side as int,
            ),
            r matches Some(q) ==> q.wf() && (forall|i: int|
                0 <= i < q.verts@.len() ==> line_on_side(
                    line,
                    #[trigger] q.verts@[i],
                    side as int,
                )),
            (forall|i: int| 0 <= i < self.verts@.len() ==> !line_on_side(
                line,
                #[trigger] self.verts@[i],
                side as int,
            )) ==> r is None,
            r is Some ==> exists|i: int|
                0 <= i < self.verts@.len() && line_on_side(line, self.verts@[i], side as int),
    {
        let n = self.verts.len();
        let mut start: usize = 0;
        let mut found: bool = false;
        let mut i: usize = 0;
        while i < n
            invariant
                self.wf(),
                line.wf(),
                self.verts@.len() == n,
                i <= n,
                found ==> start < n && line_on_side(line, self.verts@[start as int], side as int),
                first_on_side(self.verts@, line, side as int, i as int) == (if found {
                    Some(start as int)
                } else {
                    Option::<int>::None
                }),
                !found ==> forall|k: int| 0 <= k < i ==> !line_on_side(
                    line,
                    #[trigger] self.verts@[k],
                    side as int,
                ),
            decreases n - i,
        {
            if !found && line.is_on_side(self.verts[i], side) {
                found = true;
                start = i;
            }
            i = i + 1;
        }
        if !found {
            proof {
                assert(crop_spec(self.verts@, self.tex@, line, side as int) is None);
            }
            return None;
        }
        let mut newv: Vec<Point> = Vec::new();
        let mut newt: Vec<Point> = Vec::new();
        newv.push(self.verts[start]);
        newt.push(self.tex[start]);
        proof {
            let w0 = crop_walk(self.verts@, self.tex@, line, side as int, start as int, start
                + 1);
            assert(newv@ =~= w0.0);
            assert(newt@ =~= w0.1);
        }
        let sw: u128 = start as u128;
        let nw: u128 = n as u128;
        let mut i: u128 = sw + 1;
        while i < sw + nw + 1
            invariant
                self.wf(),
                line.wf(),
                self.verts@.len() == n,
                start < n,
                sw == start,
                nw == n,
                line_on_side(line, self.verts@[start as int], side as int),
                sw + 1 <= i <= sw + nw + 1,
                newv@.len() == newt@.len(),
                newv@.len() >= 1,
                forall|k: int| 0 <= k < newv@.len() ==> (#[trigger] newv@[k]).wf()
                    && line_on_side(line, newv@[k], side as int),
                forall|k: int| 0 <= k < newt@.len() ==> (#[trigger] newt@[k]).wf(),
                (newv@, newt@) == crop_walk(
                    self.verts@,
                    self.tex@,
                    line,
                    side as int,
                    start as int,
                    i as int,
                ),
                i > sw + nw ==> newv@.len() >= 2,
            decreases sw + nw + 1 - i,
        {
            let ghost pre_v = newv@;
            let ghost pre_t = newt@;
            let lastw: u128 = (i - 1) % nw;
            let nxw: u128 = i % nw;
            proof {
                vstd::arithmetic::div_mod::lemma_mod_division_less_than_divisor(
                    (i - 1) as int,
                    nw as int,
                );
                vstd::arithmetic::div_mod::lemma_mod_division_less_than_divisor(
                    i as int,
                    nw as int,
                );
            }
            let last = lastw as usize;
            let nx = nxw as usize;
            proof {
                if i == sw + nw {
                    vstd::arithmetic::div_mod::lemma_mod_multiples_vanish(
                        1,
                        start as int,
                        n as int,
                    );
                    vstd::arithmetic::div_mod::lemma_small_mod(start as nat, n as nat);
                }
            }
            if line.is_on_side(self.verts[nx], side) {
                if !line.is_on_side(self.verts[last], side) {
                    match clip_edge(
                        self.verts[last],
                        self.verts[nx],
                        self.tex[last],
                        self.tex[nx],
                        line,
                    ) {
                        None => {},
                        Some((x, t)) => {
                            let lastp = newv[newv.len() - 1];
                            if !x.eq_pt(lastp) && !x.eq_pt(self.verts[nx]) {
                                newv.push(x);
                                newt.push(t);
                            }
                        },
                    }
                }
                newv.push(self.verts[nx]);
                newt.push(self.tex[nx]);
            } else {
                if line.is_on_side(self.verts[last], side) {
                    match clip_edge(
                        self.verts[last],
                        self.verts[nx],
                        self.tex[last],
                        self.tex[nx],
                        line,
                    ) {
                        None => {},
                        Some((x, t)) => {
                            let lastp = newv[newv.len() - 1];
                            if !x.eq_pt(lastp) {
                                newv.push(x);
                                newt.push(t);
                            }
                        },
                    }
                }
            }
            proof {
                assert((newv@, newt@) == crop_step(
                    self.verts@,
                    self.tex@,
                    line,
                    side as int,
                    pre_v,
                    pre_t,
                    i as int,
                ));
                assert(crop_walk(
                    self.verts@,
                    self.tex@,
                    line,
                    side as int,
                    start as int,
                    i + 1,
                ) == crop_step(self.verts@, self.tex@, line, side as int, pre_v, pre_t, i as int));
            }
            i = i + 1;
        }
        let ghost walked_v = newv@;
        let ghost walked_t = newt@;
        // drop the duplicated closing vertex
        newv.pop();
        newt.pop();
        proof {
            assert(newv@ =~= walked_v.drop_last());
            assert(newt@ =~= walked_t.drop_last());
        }
        if newv.len() < 3 {
            proof {
                assert(crop_spec(self.verts@, self.tex@, line, side as int) is None);
            }
            return None;
        }
        let ghost pushedv = newv@;
        let ghost pushedt = newt@;
        let poly = match Polygon::new(newv, newt) {
            None => {
                proof {
                    assert(crop_spec(self.verts@, self.tex@, line, side as int) is None);
                }
                return None;
            },
            Some(p) => p,
        };
        proof {
            assert(polygon_new_spec(pushedv, pushedt) == Some((poly.verts@, poly.tex@)));
        }
        proof {
            assert(ring_matches(poly.verts@, poly.tex@, pushedv, pushedt));
            assert forall|k: int| 0 <= k < poly.verts@.len() implies pt_eq(
                #[trigger] poly.verts@[k],
                pushedv[k],
            ) || pt_eq(poly.verts@[k], pushedv[pushedv.len() - 1 - k]) by {
            }
            assert forall|k: int| 0 <= k < poly.verts@.len() implies line_on_side(
                line,
                #[trigger] poly.verts@[k],
                side as int,
            ) by {
                if pt_eq(poly.verts@[k], pushedv[k]) {
                    crate::segments::lemma_on_side_pt_eq(
                        line,
                        pushedv[k],
                        poly.verts@[k],
                        side as int,
                    );
                } else {
                    crate::segments::lemma_on_side_pt_eq(
                        line,
                        pushedv[pushedv.len() - 1 - k],
                        poly.verts@[k],
                        side as int,
                    );
                }
            }
        }
        let md = Rat { num: 1, den: 1000000 };
        let ma = Rat { num: 1, den: 100 };
        let res = poly.sanitize_polynomial(md, ma);
        proof {
            assert(crop_spec(self.verts@, self.tex@, line, side as int) == sanitize_spec(
                poly.verts@,
                poly.tex@,
                md,
                ma,
            ));
        }
        proof {
            let resg = res;
            if let Some(q) = resg {
                assert forall|k: int| 0 <= k < q.verts@.len() implies line_on_side(
                    line,
                    #[trigger] q.verts@[k],
                    side as int,
                ) by {
                    let j = choose|j: int|
                        0 <= j < poly.verts@.len() && q.verts@[k] == poly.verts@[j] && q.tex@[k]
                            == poly.tex@[j];
                }
            }
        }
        res
    }
}

/// The reflections of the vertex ring across `line`, in reversed order
/// (reflection flips chirality; re-reversing lets construction restore the
/// winding invariant).
pub open spec fn reflected_line_ring(s: Seq<Point>, line: Line) -> Seq<Point> {
    Seq::new(
        s.len(),
        |i: int| crate::point::pt_reflect_line(s[s.len() - 1 - i], line).unwrap(),
    )
}

/// The reflections of the vertex ring through `origin`, in reversed order.
pub open spec fn reflected_point_ring(s: Seq<Point>, origin: Point) -> Seq<Point> {
    Seq::new(
        s.len(),
        |i: int| crate::point::pt_reflect_point(s[s.len() - 1 - i], origin).unwrap(),
    )
}

/// Mirror of `Polygon::reflect_over_line`: every vertex reflected, the
/// ring reversed, and the polygon rebuilt.
pub open spec fn reflect_line_spec(vs: Seq<Point>, ts: Seq<Point>, line: Line) -> Option<
    (Seq<Point>, Seq<Point>),
> {
    if exists|i: int|
        0 <= i < vs.len() && (#[trigger] crate::point::pt_reflect_line(vs[i], line)) is None {
        None
    } else {
        polygon_new_spec(reflected_line_ring(vs, line), ring_rev(ts))
    }
}

/// Mirror of `Polygon::reflect_over_point`.
pub open spec fn reflect_point_spec(vs: Seq<Point>, ts: Seq<Point>, origin: Point) -> Option<
    (Seq<Point>, Seq<Point>),
> {
    if exists|i: int|
        0 <= i < vs.len() && (#[trigger] crate::point::pt_reflect_point(vs[i], origin)) is None {
        None
    } else {
        polygon_new_spec(reflected_point_ring(vs, origin), ring_rev(ts))
    }
}

impl Polygon {
    /// Reflect the polygon across a line: every vertex is reflected and
    /// the ring order is reversed, texture coordinates in lockstep.
    /// `None` when a reflected vertex leaves the representable range.
    pub fn reflect_over_line(&self, line: Line) -> (r: Option<Polygon>)
        requires
            self.wf(),
            line.wf(),
        ensures
            r is Some <==> reflect_line_spec(self.verts@, self.tex@, line) is Some,
            r matches Some(q) ==> Some((q.verts@, q.tex@)) == reflect_line_spec(
                self.verts@,
                self.tex@,
                line,
            ),
            r matches Some(q) ==> q.wf() && q.verts@.len() == self.verts@.len() && (forall|i: int|
                0 <= i < self.verts@.len() ==> (#[trigger] crate::point::pt_reflect_line(
                    self.verts@[i],
                    line,
                )) is Some) && ring_matches(
                q.verts@,
                q.tex@,
                reflected_line_ring(self.verts@, line),
                ring_rev(self.tex@),
            ),
    {
        let n = self.verts.len();
        let mut rv: Vec<Point> = Vec::new();
        let mut rt: Vec<Point> = Vec::new();
        let mut i: usize = 0;
        while i < n
            invariant
                self.wf(),
                line.wf(),
                self.verts@.len() == n,
                i <= n,
                rv@.len() == i,
                rt@.len() == i,
                forall|k: int| 0 <= k < i ==> crate::point::pt_reflect_line(
                    #[trigger] self.verts@[n - 1 - k],
                    line,
                ) == Some(rv@[k]) && rv@[k].wf(),
                forall|k: int| 0 <= k < i ==> (#[trigger] rt@[k]) == self.tex@[n - 1 - k]
                    && rt@[k].wf(),
            decreases n - i,
        {
            let p = self.verts[n - 1 - i];
            let q = match p.reflect_over_line(line) {
                None => {
                    proof {
                        assert(crate::point::pt_reflect_line(
                            self.verts@[n - 1 - i as int],
                            line,
                        ) is None);
                    }
                    return None;
                },
                Some(q) => q,
            };
            rv.push(q);
            rt.push(self.tex[n - 1 - i]);
            i = i + 1;
        }
        let ghost rvs = rv@;
        let ghost rts = rt@;
        proof {
            assert(rvs =~= reflected_line_ring(self.verts@, line)) by {
                assert forall|k: int| 0 <= k < n implies rvs[k] == reflected_line_ring(
                    self.verts@,
                    line,
                )[k] by {
                    assert(crate::point::pt_reflect_line(self.verts@[n - 1 - k], line) == Some(
                        rvs[k],
                    ));
                }
            }
            assert(rts =~= ring_rev(self.tex@));
            assert forall|i2: int| 0 <= i2 < self.verts@.len() implies (
            #[trigger] crate::point::pt_reflect_line(self.verts@[i2], line)) is Some by {
                assert(crate::point::pt_reflect_line(self.verts@[n - 1 - (n - 1 - i2)], line)
                    == Some(rvs[n - 1 - i2]));
            }
        }
        let r = Polygon::new(rv, rt);
        proof {
            assert(reflect_line_spec(self.verts@, self.tex@, line) == polygon_new_spec(
                rvs,
                rts,
            ));
        }
        r
    }

    /// Reflect the polygon through a point: every vertex is reflected and
    /// the ring order is reversed, texture coordinates in lockstep.
    /// `None` when a reflected vertex leaves the representable range.
    pub fn reflect_over_point(&self, origin: Point) -> (r: Option<Polygon>)
        requires
            self.wf(),
            origin.wf(),
        ensures
            r is Some <==> reflect_point_spec(self.verts@, self.tex@, origin) is Some,
            r matches Some(q) ==> Some((q.verts@, q.tex@)) == reflect_point_spec(
                self.verts@,
                self.tex@,
                origin,
            ),
            r matches Some(q) ==> q.wf() && q.verts@.len() == self.verts@.len() && (forall|i: int|
                0 <= i < self.verts@.len() ==> (#[trigger] crate::point::pt_reflect_point(
                    self.verts@[i],
                    origin,
                )) is Some) && ring_matches(
                q.verts@,
                q.tex@,
                reflected_point_ring(self.verts@, origin),
                ring_rev(self.tex@),
            ),
    {
        let n = self.verts.len();
        let mut rv: Vec<Point> = Vec::new();
        let mut rt: Vec<Point> = Vec::new();
        let mut i: usize = 0;
        while i < n
            invariant
                self.wf(),
                origin.wf(),
                self.verts@.len() == n,
                i <= n,
                rv@.len() == i,
                rt@.len() == i,
                forall|k: int| 0 <= k < i ==> crate::point::pt_reflect_point(
                    #[trigger] self.verts@[n - 1 - k],
                    origin,
                ) == Some(rv@[k]) && rv@[k].wf(),
                forall|k: int| 0 <= k < i ==> (#[trigger] rt@[k]) == self.tex@[n - 1 - k]
                    && rt@[k].wf(),
            decreases n - i,
        {
            let p = self.verts[n - 1 - i];
            let q = match p.reflect_over_point(origin) {
                None => {
                    proof {
                        assert(crate::point::pt_reflect_point(
                            self.verts@[n - 1 - i as int],
                            origin,
                        ) is None);
                    }
                    return None;
                },
                Some(q) => q,
            };
            rv.push(q);
            rt.push(self.tex[n - 1 - i]);
            i = i + 1;
        }
        let ghost rvs = rv@;
        let ghost rts = rt@;
        proof {
            assert(rvs =~= reflected_point_ring(self.verts@, origin)) by {
                assert forall|k: int| 0 <= k < n implies rvs[k] == reflected_point_ring(
                    self.verts@,
                    origin,
                )[k] by {
                    assert(crate::point::pt_reflect_point(self.verts@[n - 1 - k], origin) == Some(
                        rvs[k],
                    ));
                }
            }
            assert(rts =~= ring_rev(self.tex@));
            assert forall|i2: int| 0 <= i2 < self.verts@.len() implies (
            #[trigger] crate::point::pt_reflect_point(self.verts@[i2], origin)) is Some by {
                assert(crate::point::pt_reflect_point(self.verts@[n - 1 - (n - 1 - i2)], origin)
                    == Some(rvs[n - 1 - i2]));
            }
        }
        let r = Polygon::new(rv, rt);
        proof {
            assert(reflect_point_spec(self.verts@, self.tex@, origin) == polygon_new_spec(
                rvs,
                rts,
            ));
        }
        r
    }
}

/// The `j`-th border edge of the vertex ring.
pub open spec fn edge_of(vs: Seq<Point>, j: int) -> LineSegment {
    LineSegment {
        start: vs[j],
        end: vs[if j + 1 == vs.len() {
            0int
        } else {
            j + 1
        }],
    }
}

/// Mirror of the first inversion pass: the total resampling weight of
/// each of the first `j` border edges.
pub open spec fn sizes_fold(vs: Seq<Point>, center: Point, j: int) -> Option<Seq<Rat>>
    decreases j,
{
    if j <= 0 {
        Some(Seq::empty())
    } else {
        match sizes_fold(vs, center, j - 1) {
            None => None,
            Some(t) => match crate::segments::sample_count_spec(edge_of(vs, j - 1)) {
                None => None,
                Some(cnt) => match crate::utils::integrate_table(
                    edge_of(vs, j - 1),
                    center,
                    cnt,
                    cnt,
                ) {
                    None => None,
                    Some(tab) => Some(t.push(tab[tab.len() - 1])),
                },
            },
        }
    }
}

/// Mirror of the second pass: the sum of the first `j` edge weights.
pub open spec fn total_fold(sizes: Seq<Rat>, j: int) -> Option<Rat>
    decreases j,
{
    if j <= 0 {
        Some(Rat { num: 0, den: 1 })
    } else {
        match total_fold(sizes, j - 1) {
            None => None,
            Some(t) => crate::rat::rat_add(t, sizes[j - 1]),
        }
    }
}

/// Mirror of the per-sample pass: invert each sample and interpolate its
/// texture, skipping samples whose image or texture is unavailable.
pub open spec fn invert_samples(
    samples: Seq<Point>,
    seg: LineSegment,
    ta: Point,
    tb: Point,
    circle: crate::circle::Circle,
    k: int,
    outv: Seq<Point>,
    outt: Seq<Point>,
) -> (Seq<Point>, Seq<Point>)
    decreases samples.len() - k,
{
    if k >= samples.len() {
        (outv, outt)
    } else {
        match crate::point::pt_invert(snap_spec(samples[k]), circle) {
            None => invert_samples(samples, seg, ta, tb, circle, k + 1, outv, outt),
            Some(p) => match interp_tex_spec(seg, ta, tb, snap_spec(samples[k])) {
                None => invert_samples(samples, seg, ta, tb, circle, k + 1, outv, outt),
                Some(t) => invert_samples(
                    samples,
                    seg,
                    ta,
                    tb,
                    circle,
                    k + 1,
                    outv.push(snap_spec(p)),
                    outt.push(t),
                ),
            },
        }
    }
}

/// Mirror of the main inversion pass: each edge receives its share of the
/// output budget in proportion to its weight, is resampled, and its
/// samples are inverted.
pub open spec fn invert_edges(
    vs: Seq<Point>,
    ts: Seq<Point>,
    sizes: Seq<Rat>,
    total: Rat,
    circle: crate::circle::Circle,
    j: int,
    outv: Seq<Point>,
    outt: Seq<Point>,
) -> Option<(Seq<Point>, Seq<Point>)>
    decreases vs.len() - j,
{
    if j >= vs.len() {
        Some((outv, outt))
    } else {
        match crate::rat::rat_mul(sizes[j], Rat { num: 120, den: 1 }) {
            None => None,
            Some(scaled) => match crate::rat::rat_div(scaled, total) {
                None => None,
                Some(share_rat) => {
                    let share_i = (share_rat.num + (share_rat.den - 1)) as int
                        / share_rat.den as int;
                    let share = if share_i < 0 {
                        0int
                    } else if share_i > 400 {
                        400int
                    } else {
                        share_i
                    };
                    match crate::segments::weighted_split_spec(
                        edge_of(vs, j),
                        circle.center,
                        share,
                    ) {
                        None => None,
                        Some(samples) => {
                            let o = invert_samples(
                                samples,
                                edge_of(vs, j),
                                ts[j],
                                ts[if j + 1 == ts.len() {
                                    0int
                                } else {
                                    j + 1
                                }],
                                circle,
                                0,
                                outv,
                                outt,
                            );
                            invert_edges(vs, ts, sizes, total, circle, j + 1, o.0, o.1)
                        },
                    }
                },
            },
        }
    }
}

/// Once the per-edge weight fold fails, it stays failed.
proof fn lemma_sizes_none_stays(vs: Seq<Point>, center: Point, k: int, m: int)
    requires
        0 <= k <= m,
        sizes_fold(vs, center, k) is None,
    ensures
        sizes_fold(vs, center, m) is None,
    decreases m - k,
{
    if m > k {
        lemma_sizes_none_stays(vs, center, k, m - 1);
    }
}

/// Once the weight sum fails, it stays failed.
proof fn lemma_total_none_stays(sizes: Seq<Rat>, k: int, m: int)
    requires
        0 <= k <= m,
        total_fold(sizes, k) is None,
    ensures
        total_fold(sizes, m) is None,
    decreases m - k,
{
    if m > k {
        lemma_total_none_stays(sizes, k, m - 1);
    }
}

/// Mirror of `Polygon::invert_over_circle`.
pub open spec fn poly_invert_spec(vs: Seq<Point>, ts: Seq<Point>, circle: crate::circle::Circle)
    -> Option<(Seq<Point>, Seq<Point>)> {
    match sizes_fold(vs, circle.center, vs.len() as int) {
        None => None,
        Some(sizes) => match total_fold(sizes, sizes.len() as int) {
            None => None,
            Some(total) => if total.num == 0 {
                None
            } else {
                match invert_edges(vs, ts, sizes, total, circle, 0, Seq::empty(), Seq::empty()) {
                    None => None,
                    Some(o) => if o.0.len() < 3 {
                        None
                    } else {
                        match polygon_new_spec(o.0, o.1) {
                            None => None,
                            Some(np) => sanitize_spec(
                                np.0,
                                np.1,
                                Rat { num: 1, den: 1000 },
                                Rat { num: 1, den: 1000 },
                            ),
                        }
                    },
                }
            },
        },
    }
}

impl Polygon {
    /// Invert the polygon in a circle. Circular inversion maps straight
    /// edges to circular arcs, so each border edge is resampled: samples
    /// crowd where the accumulated weight (reciprocal squared distance to
    /// the centre) grows fastest, each edge receiving a share of the
    /// output budget proportional to its total weight. Every sample is
    /// inverted, texture coordinates are interpolated by chord weighting,
    /// and the image ring is rebuilt and sanitised. Samples and their
    /// images are rounded onto the `SNAP_GRID` grid so the exact
    /// arithmetic stays within its bounds. `None` when the image
    /// degenerates or leaves the representable range.
    #[verifier::rlimit(100)]
    #[verifier::spinoff_prover]
    pub fn invert_over_circle(&self, circle: crate::circle::Circle) -> (r: Option<Polygon>)
        requires
            self.wf(),
            circle.wf(),
        ensures
            r is Some <==> poly_invert_spec(self.verts@, self.tex@, circle) is Some,
            r matches Some(q) ==> Some((q.verts@, q.tex@)) == poly_invert_spec(
                self.verts@,
                self.tex@,
                circle,
            ),
            r matches Some(q) ==> q.wf(),
    {
        let n = self.verts.len();
        let border = self.border();
        let center = circle.center();
        // total resampling weight of every edge
        let mut sizes: Vec<Rat> = Vec::new();
        let mut j: usize = 0;
        proof {
            assert(sizes@ =~= Seq::<Rat>::empty());
        }
        while j < n
            invariant
                self.wf(),
                circle.wf(),
                center == circle.center,
                center.wf(),
                self.verts@.len() == n,
                border@.len() == n,
                forall|k: int| 0 <= k < border@.len() ==> (#[trigger] border@[k]).wf(),
                forall|k: int| 0 <= k < border@.len() ==> (#[trigger] border@[k]).start
                    == self.verts@[k] && border@[k].end == self.verts@[if k + 1 == n {
                    0int
                } else {
                    k + 1
                }],
                j <= n,
                sizes@.len() == j,
                sizes_fold(self.verts@, center, j as int) == Some(sizes@),
                forall|k: int| 0 <= k < sizes@.len() ==> (#[trigger] sizes@[k]).wf()
                    && sizes@[k].num >= 0,
            decreases n - j,
        {
            let seg = border[j];
            proof {
                assert(seg.start == edge_of(self.verts@, j as int).start);
                assert(seg.end == edge_of(self.verts@, j as int).end);
                assert(seg == edge_of(self.verts@, j as int));
            }
            let cnt = match seg.sample_count() {
                None => {
                    proof {
                        assert(sizes_fold(self.verts@, center, j + 1) is None);
                        lemma_sizes_none_stays(self.verts@, center, j + 1, n as int);
                        assert(poly_invert_spec(self.verts@, self.tex@, circle) is None);
                    }
                    return None;
                },
                Some(c) => c,
            };
            let table = match crate::utils::num_integrate(seg, cnt, center) {
                None => {
                    proof {
                        assert(sizes_fold(self.verts@, center, j + 1) is None);
                        lemma_sizes_none_stays(self.verts@, center, j + 1, n as int);
                        assert(poly_invert_spec(self.verts@, self.tex@, circle) is None);
                    }
                    return None;
                },
                Some(t) => t,
            };
            let mass = table[table.len() - 1];
            sizes.push(mass);
            proof {
                assert(sizes_fold(self.verts@, center, j + 1) == Some(sizes@));
            }
            j = j + 1;
        }
        let ghost szs = sizes@;
        let mut total = Rat::zero();
        let mut j: usize = 0;
        while j < n
            invariant
                self.wf(),
                circle.wf(),
                center == circle.center,
                self.verts@.len() == n,
                sizes@.len() == n,
                sizes@ == szs,
                sizes_fold(self.verts@, center, n as int) == Some(szs),
                forall|k: int| 0 <= k < sizes@.len() ==> (#[trigger] sizes@[k]).wf()
                    && sizes@[k].num >= 0,
                j <= n,
                total.wf(),
                total.num >= 0,
                total_fold(szs, j as int) == Some(total),
            decreases n - j,
        {
            let prev = total;
            let w = sizes[j];
            total = match prev.add(w) {
                None => {
                    proof {
                        assert(total_fold(szs, j + 1) is None);
                        lemma_total_none_stays(szs, j + 1, n as int);
                        assert(poly_invert_spec(self.verts@, self.tex@, circle) is None);
                    }
                    return None;
                },
                Some(t) => t,
            };
            proof {
                assert(total.num >= 0) by (nonlinear_arith)
                    requires
                        total.num * (prev.den * w.den) == (prev.num * w.den + w.num * prev.den)
                            * total.den,
                        prev.num >= 0,
                        w.num >= 0,
                        prev.den >= 1,
                        w.den >= 1,
                        total.den >= 1,
                ;
            }
            proof {
                assert(total_fold(szs, j + 1) == Some(total));
            }
            j = j + 1;
        }
        if total.num == 0 {
            proof {
                assert(poly_invert_spec(self.verts@, self.tex@, circle) is None);
            }
            return None;
        }
        // resample each edge with its share of the output budget
        let mut outv: Vec<Point> = Vec::new();
        let mut outt: Vec<Point> = Vec::new();
        let mut j: usize = 0;
        let ghost goal = invert_edges(
            self.verts@,
            self.tex@,
            szs,
            total,
            circle,
            0,
            Seq::empty(),
            Seq::empty(),
        );
        proof {
            assert(outv@ =~= Seq::<Point>::empty());
            assert(outt@ =~= Seq::<Point>::empty());
        }
        while j < n
            invariant
                self.wf(),
                circle.wf(),
                center == circle.center,
                center.wf(),
                self.verts@.len() == n,
                border@.len() == n,
                forall|k: int| 0 <= k < border@.len() ==> (#[trigger] border@[k]).wf(),
                forall|k: int| 0 <= k < border@.len() ==> (#[trigger] border@[k]).start
                    == self.verts@[k] && border@[k].end == self.verts@[if k + 1 == n {
                    0int
                } else {
                    k + 1
                }],
                sizes@.len() == n,
                sizes@ == szs,
                forall|k: int| 0 <= k < sizes@.len() ==> (#[trigger] sizes@[k]).wf()
                    && sizes@[k].num >= 0,
                total.wf(),
                total.num >= 1,
                sizes_fold(self.verts@, center, n as int) == Some(szs),
                total_fold(szs, n as int) == Some(total),
                invert_edges(
                    self.verts@,
                    self.tex@,
                    szs,
                    total,
                    circle,
                    0,
                    Seq::empty(),
                    Seq::empty(),
                ) == goal,
                j <= n,
                outv@.len() == outt@.len(),
                forall|k: int| 0 <= k < outv@.len() ==> (#[trigger] outv@[k]).wf(),
                forall|k: int| 0 <= k < outt@.len() ==> (#[trigger] outt@[k]).wf(),
                invert_edges(self.verts@, self.tex@, szs, total, circle, j as int, outv@, outt@)
                    == goal,
            decreases n - j,
        {
            let seg = border[j];
            let ta = self.tex[j];
            let tb = self.tex[if j + 1 >= n {
                0
            } else {
                j + 1
            }];
            proof {
                assert(seg == edge_of(self.verts@, j as int));
                assert(tb == self.tex@[if j + 1 == self.tex@.len() {
                    0int
                } else {
                    j + 1
                }]);
            }
            // this edge's share of the output budget, by weight
            let w120 = Rat::from_int(120);
            proof {
                assert(w120 == (Rat { num: 120, den: 1 }));
            }
            let scaled = match sizes[j].mul(w120) {
                None => {
                    proof {
                        assert(invert_edges(
                            self.verts@,
                            self.tex@,
                            szs,
                            total,
                            circle,
                            j as int,
                            outv@,
                            outt@,
                        ) is None);
                    }
                    return None;
                },
                Some(s) => s,
            };
            let share_rat = match scaled.div(total) {
                None => {
                    proof {
                        assert(invert_edges(
                            self.verts@,
                            self.tex@,
                            szs,
                            total,
                            circle,
                            j as int,
                            outv@,
                            outt@,
                        ) is None);
                    }
                    return None;
                },
                Some(s) => s,
            };
            proof {
                assert(share_rat.num >= 0) by (nonlinear_arith)
                    requires
                        scaled.num * (sizes@[j as int].den * 1) == (sizes@[j as int].num * 120)
                            * scaled.den,
                        share_rat.num * (scaled.den * total.num) == (scaled.num * total.den)
                            * share_rat.den,
                        sizes@[j as int].num >= 0,
                        sizes@[j as int].den >= 1,
                        scaled.den >= 1,
                        total.num >= 1,
                        total.den >= 1,
                        share_rat.den >= 1,
                ;
            }
            let share_i: i64 = (share_rat.num + (share_rat.den - 1)) / share_rat.den;
            let share: usize = if share_i < 0 {
                0
            } else if share_i > 400 {
                400
            } else {
                share_i as usize
            };
            let samples = match seg.weighted_split(center, share) {
                None => {
                    proof {
                        assert(invert_edges(
                            self.verts@,
                            self.tex@,
                            szs,
                            total,
                            circle,
                            j as int,
                            outv@,
                            outt@,
                        ) is None);
                    }
                    return None;
                },
                Some(ps) => ps,
            };
            let ghost oov = outv@;
            let ghost oot = outt@;
            let mut k: usize = 0;
            while k < samples.len()
                invariant
                    circle.wf(),
                    seg.wf(),
                    ta.wf(),
                    tb.wf(),
                    forall|k2: int| 0 <= k2 < samples@.len() ==> (#[trigger] samples@[k2]).wf(),
                    k <= samples@.len(),
                    outv@.len() == outt@.len(),
                    forall|k2: int| 0 <= k2 < outv@.len() ==> (#[trigger] outv@[k2]).wf(),
                    forall|k2: int| 0 <= k2 < outt@.len() ==> (#[trigger] outt@[k2]).wf(),
                    invert_samples(samples@, seg, ta, tb, circle, k as int, outv@, outt@)
                        == invert_samples(samples@, seg, ta, tb, circle, 0, oov, oot),
                decreases samples@.len() - k,
            {
                let x = snap(samples[k]);
                match x.invert_over_circle(circle) {
                    None => {},
                    Some(p) => {
                        match interp_tex(seg, ta, tb, x) {
                            None => {},
                            Some(t) => {
                                outv.push(snap(p));
                                outt.push(t);
                            },
                        }
                    },
                }
                k = k + 1;
            }
            proof {
                assert((outv@, outt@) == invert_samples(samples@, seg, ta, tb, circle, 0, oov, oot));
            }
            j = j + 1;
        }
        if outv.len() < 3 {
            proof {
                assert(poly_invert_spec(self.verts@, self.tex@, circle) is None);
            }
            return None;
        }
        let ghost pv = outv@;
        let ghost pt_ = outt@;
        let poly = match Polygon::new(outv, outt) {
            None => {
                proof {
                    assert(poly_invert_spec(self.verts@, self.tex@, circle) is None);
                }
                return None;
            },
            Some(p) => p,
        };
        proof {
            assert(polygon_new_spec(pv, pt_) == Some((poly.verts@, poly.tex@)));
        }
        let md = Rat { num: 1, den: 1000 };
        let res = poly.sanitize_polynomial(md, md);
        proof {
            assert(poly_invert_spec(self.verts@, self.tex@, circle) == sanitize_spec(
                poly.verts@,
                poly.tex@,
                md,
                md,
            ));
        }
        res
    }
}

/// Denominator of the coarse grid that inversion samples and their
/// images are rounded onto: it keeps every denominator of the inversion
/// pipeline small, so the exact arithmetic stays within its bounds. The
/// rounding error is at most half a grid step per coordinate.
pub const SNAP_GRID: i64 = 64;

/// Clamp a snapped numerator into the coordinate bound.
pub open spec fn snap_clamp(v: int) -> int {
    if v > COORD_LIMIT {
        COORD_LIMIT as int
    } else if v < -COORD_LIMIT {
        -(COORD_LIMIT as int)
    } else {
        v
    }
}

/// One snapped coordinate: the numerator of the nearest grid multiple,
/// computed on a shifted non-negative value so the rounding is exact.
pub open spec fn snap_num(xn: int, den: int) -> int {
    (2 * ((xn + (COORD_LIMIT as int) * den) * (SNAP_GRID as int)) + den) / (2 * den) - (
    COORD_LIMIT as int) * (SNAP_GRID as int)
}

/// Mirror of `snap`: both coordinates rounded to the nearest grid
/// multiple, clamped into the coordinate bound.
pub open spec fn snap_spec(p: Point) -> Point {
    Point {
        xn: snap_clamp(snap_num(p.xn as int, p.den as int)) as i64,
        yn: snap_clamp(snap_num(p.yn as int, p.den as int)) as i64,
        den: SNAP_GRID,
    }
}

/// Round a point onto the coarse inversion grid.
fn snap(p: Point) -> (r: Point)
    requires
        p.wf(),
    ensures
        r == snap_spec(p),
        r.wf(),
{
    let ghost lm: int = COORD_LIMIT as int;
    let g: i128 = SNAP_GRID as i128;
    let off: i128 = COORD_LIMIT as i128;
    let den: i128 = p.den as i128;
    proof {
        lemma_mul_range(COORD_LIMIT as int, p.den as int, lm);
    }
    let shx: i128 = (p.xn as i128) + off * den;
    let shy: i128 = (p.yn as i128) + off * den;
    proof {
        lemma_abs_mul_le(shx as int, g as int, 2 * (lm * lm), 64);
        lemma_abs_mul_le(shy as int, g as int, 2 * (lm * lm), 64);
        assert(shx >= 0 && shy >= 0);
    }
    let qx: i128 = (2 * (shx * g) + den) / (2 * den) - off * g;
    let qy: i128 = (2 * (shy * g) + den) / (2 * den) - off * g;
    let nx: i64 = if qx > COORD_LIMIT as i128 {
        COORD_LIMIT
    } else if qx < -(COORD_LIMIT as i128) {
        -COORD_LIMIT
    } else {
        qx as i64
    };
    let ny: i64 = if qy > COORD_LIMIT as i128 {
        COORD_LIMIT
    } else if qy < -(COORD_LIMIT as i128) {
        -COORD_LIMIT
    } else {
        qy as i64
    };
    Point { xn: nx, yn: ny, den: SNAP_GRID }
}

/// Mirror of `interp_tex`: the texture of a sample, interpolated between
/// the edge's texture ends by the sample's projections onto the edge.
pub open spec fn interp_tex_spec(seg: LineSegment, ta: Point, tb: Point, x: Point) -> Option<
    Point,
> {
    match crate::point::pt_sub(seg.end, seg.start) {
        None => None,
        Some(dirx) => match crate::point::pt_sub(x, seg.start) {
            None => None,
            Some(rels) => match crate::point::pt_sub(seg.end, x) {
                None => None,
                Some(rele) => match crate::point::pt_dot(rels, dirx) {
                    None => None,
                    Some(ws) => match crate::point::pt_dot(rele, dirx) {
                        None => None,
                        Some(we) => if ws.num < 0 || we.num < 0 || ws.num + we.num < 1 {
                            None
                        } else {
                            crate::segments::seg_interp(
                                LineSegment { start: ta, end: tb },
                                ws,
                                we,
                            )
                        },
                    },
                },
            },
        },
    }
}

/// The texture coordinate of a sample `x` on the edge from `seg.start` to
/// `seg.end`, interpolated between `ta` and `tb` by chord weighting: the
/// weights are the projections of `x` onto the edge direction from either
/// end. `None` when the sample does not project into the edge's span or a
/// value leaves the representable range.
fn interp_tex(seg: LineSegment, ta: Point, tb: Point, x: Point) -> (r: Option<Point>)
    requires
        seg.wf(),
        ta.wf(),
        tb.wf(),
        x.wf(),
    ensures
        r == interp_tex_spec(seg, ta, tb, x),
        r matches Some(t) ==> t.wf(),
{
    let dirx = match seg.end.sub(seg.start) {
        None => {
            return None;
        },
        Some(d) => d,
    };
    let rels = match x.sub(seg.start) {
        None => {
            return None;
        },
        Some(d) => d,
    };
    let rele = match seg.end.sub(x) {
        None => {
            return None;
        },
        Some(d) => d,
    };
    let ws = match rels.dot(dirx) {
        None => {
            return None;
        },
        Some(w) => w,
    };
    let we = match rele.dot(dirx) {
        None => {
            return None;
        },
        Some(w) => w,
    };
    if ws.num < 0 || we.num < 0 || ws.num + we.num < 1 {
        return None;
    }
    proof {
        assert(ws.num * we.den + we.num * ws.den >= 1) by (nonlinear_arith)
            requires
                ws.num >= 0,
                we.num >= 0,
                ws.num + we.num >= 1,
                ws.den >= 1,
                we.den >= 1,
        ;
    }
    LineSegment { start: ta, end: tb }.interpolate_position(ws, we)
}

/// Tail of the sanitisation: the wrap-around merge, the size and area
/// thresholds, and the winding restoration.
fn finish_sanitize(
    kept: Vec<Point>,
    kept_tex: Vec<Point>,
    min_dist: Rat,
    min_area: Rat,
    Ghost(overts): Ghost<Seq<Point>>,
    Ghost(otex): Ghost<Seq<Point>>,
) -> (r: Option<Polygon>)
    requires
        min_dist.wf(),
        min_area.wf(),
        min_area.num >= 0,
        kept@.len() == kept_tex@.len(),
        1 <= kept@.len() <= overts.len(),
        overts.len() >= 3,
        otex.len() == overts.len(),
        kept@ == sel(overts, merge_idx(overts, min_dist, overts.len() as int)),
        kept_tex@ == sel(otex, merge_idx(overts, min_dist, overts.len() as int)),
        forall|i: int| 0 <= i < kept@.len() ==> exists|j: int|
            0 <= j < overts.len() && (#[trigger] kept@[i]) == overts[j] && kept_tex@[i] == otex[j],
        forall|i: int| 0 <= i < kept@.len() ==> (#[trigger] kept@[i]).wf() && kept@[i].den
            == kept@[0].den,
        forall|i: int| 0 <= i < kept_tex@.len() ==> (#[trigger] kept_tex@[i]).wf()
            && kept_tex@[i].den == kept_tex@[0].den,
    ensures
        r is Some <==> sanitize_spec(overts, otex, min_dist, min_area) is Some,
        r matches Some(q) ==> Some((q.verts@, q.tex@)) == sanitize_spec(
            overts,
            otex,
            min_dist,
            min_area,
        ),
        r matches Some(q) ==> q.wf() && q.verts@.len() <= overts.len() && (forall|i: int|
            0 <= i < q.verts@.len() ==> exists|j: int|
                0 <= j < overts.len() && (#[trigger] q.verts@[i]) == overts[j] && q.tex@[i]
                    == otex[j]),
        (kept@ == overts && kept_tex@ == otex && overts.len() >= 3 && far_apart(
            kept@[kept@.len() - 1],
            kept@[0],
            min_dist,
        ) && poly_area2(overts) >= 0 && area_clears(
            poly_area2(overts),
            min_area,
            overts[0].den as int,
        )) ==> (r matches Some(q) && q.verts@ == overts && q.tex@ == otex),
{
    let mut kept = kept;
    let mut kept_tex = kept_tex;
    let ghost midx = merge_idx(overts, min_dist, overts.len() as int);
    proof {
        lemma_merge_idx_props(overts, min_dist, overts.len() as int);
    }
    // wrap-around check between the last kept vertex and the first
    let last = kept[kept.len() - 1];
    let first = kept[0];
    proof {
        assert(last == overts[midx[midx.len() - 1]]);
        assert(first == overts[0]);
    }
    let ghost widx = merge_wrap(overts, min_dist);
    if !far_exec(last, first, min_dist) {
        kept.pop();
        kept_tex.pop();
        proof {
            assert(widx == midx.drop_last());
            assert(kept@ =~= sel(overts, widx));
            assert(kept_tex@ =~= sel(otex, widx));
        }
    } else {
        proof {
            assert(widx == midx);
        }
    }
    proof {
        assert(kept@ == sel(overts, widx));
        assert(kept_tex@ == sel(otex, widx));
        assert(kept@.len() == widx.len());
    }
    if kept.len() <= 2 {
        proof {
            assert(sanitize_spec(overts, otex, min_dist, min_area) is None);
        }
        return None;
    }
    proof {
        assert(ring_shared_den(kept@));
    }
    let a = area2_exec(&kept);
    let kn = kept.len();
    proof {
        assert(kn * (2 * ((COORD_LIMIT as int) * (COORD_LIMIT as int)))
            < 0x4000_0000_0000_0000_0000_0000_0000_0000int) by (nonlinear_arith)
            requires
                kn <= 0xffff_ffff_ffff_ffff,
        ;
    }
    let abs_a: i128 = if a < 0 {
        -a
    } else {
        a
    };
    let d0 = kept[0].den;
    let area_ok: bool = if abs_a >= 0x1_0000_0000_0000_0000_0000_0000 {
        proof {
            assert((min_area.num as int) * (2 * ((d0 as int) * (d0 as int)))
                < 0x1_0000_0000_0000_0000_0000_0000int && abs_a * (min_area.den as int) >= abs_a)
                by (nonlinear_arith)
                requires
                    min_area.num <= COORD_LIMIT,
                    1 <= d0 <= COORD_LIMIT,
                    min_area.den >= 1,
                    abs_a >= 0,
            ;
        }
        true
    } else {
        proof {
            lemma_mul_range(d0 as int, d0 as int, COORD_LIMIT as int);
            lemma_abs_mul_le(abs_a as int, min_area.den as int,
                0x1_0000_0000_0000_0000_0000_0000int, COORD_LIMIT as int);
            lemma_abs_mul_le(min_area.num as int, 2 * ((d0 as int) * (d0 as int)),
                COORD_LIMIT as int, 2 * ((COORD_LIMIT as int) * (COORD_LIMIT as int)));
        }
        abs_a * (min_area.den as i128) > (min_area.num as i128) * (2 * ((d0 as i128) * (d0
            as i128)))
    };
    proof {
        assert(area_ok == area_clears(a as int, min_area, d0 as int));
    }
    if !area_ok {
        proof {
            assert(sanitize_spec(overts, otex, min_dist, min_area) is None);
        }
        return None;
    }
    if a >= 0 {
        proof {
            assert(sanitize_spec(overts, otex, min_dist, min_area) == Some(
                (kept@, kept_tex@),
            ));
        }
        Some(Polygon { verts: kept, tex: kept_tex })
    } else {
        let rv = reversed_ring(&kept);
        let rt = reversed_ring(&kept_tex);
        proof {
            assert(ring_shared_den(rv@));
            assert(ring_shared_den(rt@));
            assert(rv@ =~= ring_rev(kept@));
            assert(rt@ =~= ring_rev(kept_tex@));
        }
        let a2 = area2_exec(&rv);
        if a2 >= 0 {
            proof {
                assert(sanitize_spec(overts, otex, min_dist, min_area) == Some((rv@, rt@)));
            }
            Some(Polygon { verts: rv, tex: rt })
        } else {
            proof {
                assert(sanitize_spec(overts, otex, min_dist, min_area) is None);
            }
            None
        }
    }
}

} // verus!
