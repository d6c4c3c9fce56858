//! Shared numeric helpers: the resampling weight function, cumulative
//! numeric integration along a segment, and the shoelace area of a general
//! vertex ring.

use vstd::prelude::*;

verus! {

use crate::point::Point;
use crate::rat::{
    Rat, COORD_LIMIT, norm_rat, norm_rat_exec, rat_add, rat_mul, rat_le, lemma_mul_range,
    lemma_abs_mul_le, lemma_norm_rat_some,
};
use crate::segments::LineSegment;

/// Cap on the per-edge sample count of the resampling integrator.
pub const MAX_EDGE_SAMPLES: usize = 400;

/// The resampling weight saturates at this value of `1 / distance`:
/// points closer to the inversion centre than `1 / FAR` get weight zero,
/// which caps the mass a near-pole region can accumulate.
pub const FAR: i128 = 300;

/// Every resampling weight is a multiple of `1 / WEIGHT_QUANTUM`, so the
/// cumulative weight tables stay on one small denominator instead of
/// accumulating unrelated ones.
pub const WEIGHT_QUANTUM: i64 = 64;

/// The integer square root: the largest `r` with `r * r <= x`.
pub open spec fn isqrt_spec(x: int) -> int
    decreases x,
{
    if x < 1 {
        0
    } else {
        let r = isqrt_spec(x - 1);
        if (r + 1) * (r + 1) <= x {
            r + 1
        } else {
            r
        }
    }
}

/// `isqrt_spec` brackets its argument between consecutive squares.
pub proof fn lemma_isqrt_bracket(x: int)
    requires
        x >= 0,
    ensures
        isqrt_spec(x) >= 0,
        isqrt_spec(x) * isqrt_spec(x) <= x,
        (isqrt_spec(x) + 1) * (isqrt_spec(x) + 1) > x,
    decreases x,
{
    if x >= 1 {
        lemma_isqrt_bracket(x - 1);
        let r = isqrt_spec(x - 1);
        if (r + 1) * (r + 1) <= x {
            assert((r + 2) * (r + 2) > x) by (nonlinear_arith)
                requires
                    x - 1 < (r + 1) * (r + 1),
                    (r + 1) * (r + 1) <= x,
                    r >= 0,
            ;
        }
    }
}

/// Two brackets around the same argument name the same root.
pub proof fn lemma_isqrt_unique(x: int, a: int, b: int)
    by (nonlinear_arith)
    requires
        a >= 0,
        b >= 0,
        a * a <= x,
        (a + 1) * (a + 1) > x,
        b * b <= x,
        (b + 1) * (b + 1) > x,
    ensures
        a == b,
{
}

/// Integer square root by bisection.
pub fn isqrt_u128(x: u128) -> (r: u64)
    ensures
        r as int == isqrt_spec(x as int),
        (r as int) * (r as int) <= x,
        ((r as int) + 1) * ((r as int) + 1) > x,
{
    let mut lo: u128 = 0;
    let mut hi: u128 = 0xffff_ffff_ffff_ffff;
    proof {
        assert((0xffff_ffff_ffff_ffffint + 1) * (0xffff_ffff_ffff_ffffint + 1)
            > 0xffff_ffff_ffff_ffff_ffff_ffff_ffff_ffffint) by (nonlinear_arith);
    }
    while lo < hi
        invariant
            lo <= hi <= 0xffff_ffff_ffff_ffff,
            (lo as int) * (lo as int) <= x,
            ((hi as int) + 1) * ((hi as int) + 1) > x,
        decreases hi - lo,
    {
        let mid: u128 = lo + (hi - lo + 1) / 2;
        proof {
            assert(lo < mid <= hi);
            assert(mid * mid <= 0xffff_ffff_ffff_ffff_ffff_ffff_ffff_ffffint)
                by (nonlinear_arith)
                requires
                    mid <= 0xffff_ffff_ffff_ffff,
            ;
        }
        if mid * mid <= x {
            lo = mid;
        } else {
            hi = mid - 1;
            proof {
                assert(((hi as int) + 1) * ((hi as int) + 1) > x);
            }
        }
    }
    proof {
        lemma_isqrt_bracket(x as int);
        lemma_isqrt_unique(x as int, lo as int, isqrt_spec(x as int));
    }
    lo as u64
}

/// Mirror of `cross`: the two-dimensional cross product.
pub open spec fn cross_spec(p1: Point, p2: Point) -> Option<Rat> {
    norm_rat(p1.xn * p2.yn - p1.yn * p2.xn, p1.den * p2.den)
}

/// The two-dimensional cross product of two points taken as vectors.
pub fn cross(p1: Point, p2: Point) -> (r: Option<Rat>)
    requires
        p1.wf(),
        p2.wf(),
    ensures
        r == cross_spec(p1, p2),
        r matches Some(c) ==> c.wf() && c.num * (p1.den * p2.den) == (p1.xn * p2.yn - p1.yn
            * p2.xn) * c.den,
{
    proof {
        lemma_mul_range(p1.xn as int, p2.yn as int, COORD_LIMIT as int);
        lemma_mul_range(p1.yn as int, p2.xn as int, COORD_LIMIT as int);
        lemma_mul_range(p1.den as int, p2.den as int, COORD_LIMIT as int);
    }
    let n: i128 = (p1.xn as i128) * (p2.yn as i128) - (p1.yn as i128) * (p2.xn as i128);
    let d: i128 = (p1.den as i128) * (p2.den as i128);
    let r = norm_rat_exec(n, d);
    proof {
        if r is Some {
            lemma_norm_rat_some(n as int, d as int);
        }
    }
    r
}

/// Mirror of `split_weight_function`: `1 / distance` rounded down to a
/// multiple of `1 / WEIGHT_QUANTUM`. With `S` the squared-distance
/// numerator over the shared denominator `PD`, the distance is
/// `isqrt(S) / PD` up to rounding of the root, so the weight numerator is
/// `WEIGHT_QUANTUM · PD / isqrt(S)`. At the centre itself and within
/// `1 / FAR` of it the weight is zero, the saturated end of the original
/// growth.
pub open spec fn weight_spec(p: Point, center: Point) -> Rat {
    let dx = p.xn * center.den - center.xn * p.den;
    let dy = p.yn * center.den - center.yn * p.den;
    let s = dx * dx + dy * dy;
    let root = isqrt_spec(s);
    if root == 0 {
        Rat { num: 0, den: 1 }
    } else {
        let q = ((WEIGHT_QUANTUM as int) * (p.den * center.den)) / root;
        if q >= (FAR as int) * (WEIGHT_QUANTUM as int) {
            Rat { num: 0, den: 1 }
        } else {
            Rat { num: q as i64, den: WEIGHT_QUANTUM }
        }
    }
}

/// The resampling weight of `p` around `center`: the reciprocal distance,
/// quantised to `1 / WEIGHT_QUANTUM` steps and saturated to zero within
/// `1 / FAR` of the centre.
pub fn split_weight_function(p: Point, center: Point) -> (r: Rat)
    requires
        p.wf(),
        center.wf(),
    ensures
        r == weight_spec(p, center),
        r.wf(),
        r.num >= 0,
{
    let ghost lm: int = COORD_LIMIT as int;
    proof {
        lemma_mul_range(p.xn as int, center.den as int, lm);
        lemma_mul_range(center.xn as int, p.den as int, lm);
        lemma_mul_range(p.yn as int, center.den as int, lm);
        lemma_mul_range(center.yn as int, p.den as int, lm);
        lemma_mul_range(p.den as int, center.den as int, lm);
    }
    let dx: i128 = (p.xn as i128) * (center.den as i128) - (center.xn as i128) * (p.den as i128);
    let dy: i128 = (p.yn as i128) * (center.den as i128) - (center.yn as i128) * (p.den as i128);
    let pd: i128 = (p.den as i128) * (center.den as i128);
    proof {
        lemma_abs_mul_le(dx as int, dx as int, 2 * (lm * lm), 2 * (lm * lm));
        lemma_abs_mul_le(dy as int, dy as int, 2 * (lm * lm), 2 * (lm * lm));
        assert(dx * dx >= 0 && dy * dy >= 0) by (nonlinear_arith);
    }
    let s: i128 = dx * dx + dy * dy;
    let root: u64 = isqrt_u128(s as u128);
    if root == 0 {
        Rat { num: 0, den: 1 }
    } else {
        let q: i128 = ((WEIGHT_QUANTUM as i128) * pd) / (root as i128);
        proof {
            assert((WEIGHT_QUANTUM as int) * (pd as int) >= 0) by (nonlinear_arith)
                requires
                    pd >= 1,
            ;
            vstd::arithmetic::div_mod::lemma_div_pos_is_pos(
                (WEIGHT_QUANTUM as int) * (pd as int),
                root as int,
            );
        }
        if q >= (FAR as i128) * (WEIGHT_QUANTUM as i128) {
            Rat { num: 0, den: 1 }
        } else {
            Rat { num: q as i64, den: WEIGHT_QUANTUM }
        }
    }
}

/// The i-th of `n` evenly spread sample positions along the segment.
pub open spec fn integrate_sample(seg: LineSegment, n: int, i: int) -> Option<Point> {
    crate::segments::seg_interp(
        seg,
        Rat { num: i as i64, den: 1 },
        Rat { num: (n - i) as i64, den: 1 },
    )
}

/// Mirror of `num_integrate`, over the first `k` samples: the cumulative
/// weight table, starting at zero, or `None` when a sample position or a
/// partial sum leaves the representable range.
pub open spec fn integrate_table(seg: LineSegment, center: Point, n: int, k: int) -> Option<
    Seq<Rat>,
>
    decreases k,
{
    if k <= 0 {
        Some(seq![Rat { num: 0, den: 1 }])
    } else {
        match integrate_table(seg, center, n, k - 1) {
            None => None,
            Some(t) => match integrate_sample(seg, n, k - 1) {
                None => None,
                Some(x) => match rat_add(t[t.len() - 1], weight_spec(x, center)) {
                    None => None,
                    Some(nx) => Some(t.push(nx)),
                },
            },
        }
    }
}

/// Once the cumulative table fails, it stays failed for longer prefixes.
proof fn lemma_table_none_stays(seg: LineSegment, center: Point, n: int, k: int, m: int)
    requires
        0 <= k <= m,
        integrate_table(seg, center, n, k) is None,
    ensures
        integrate_table(seg, center, n, m) is None,
    decreases m - k,
{
    if m > k {
        lemma_table_none_stays(seg, center, n, k, m - 1);
    }
}

/// Cumulative integral of the resampling weight along `seg`, sampled at
/// `n` evenly spread positions: a non-decreasing table of `n + 1` partial
/// sums starting at zero, or `None` when a value leaves the representable
/// range.
pub fn num_integrate(seg: LineSegment, n: usize, center: Point) -> (r: Option<Vec<Rat>>)
    requires
        seg.wf(),
        center.wf(),
        n <= MAX_EDGE_SAMPLES,
    ensures
        r is Some <==> integrate_table(seg, center, n as int, n as int) is Some,
        r matches Some(v) ==> Some(v@) == integrate_table(seg, center, n as int, n as int),
        r matches Some(v) ==> ({
            &&& v@.len() == n + 1
            &&& v@[0] == (Rat { num: 0, den: 1 })
            &&& forall|i: int| 0 <= i < v@.len() ==> (#[trigger] v@[i]).wf() && v@[i].num >= 0
            &&& forall|i: int| 0 <= i < v@.len() - 1 ==> rat_le(v@[i], #[trigger] v@[i + 1])
        }),
{
    let mut out: Vec<Rat> = Vec::new();
    let mut acc: Rat = Rat::zero();
    out.push(acc);
    proof {
        assert(out@ =~= seq![Rat { num: 0, den: 1 }]);
    }
    let mut step: usize = 0;
    while step < n
        invariant
            seg.wf(),
            center.wf(),
            n <= MAX_EDGE_SAMPLES,
            step <= n,
            out@.len() == step + 1,
            out@[0] == (Rat { num: 0, den: 1 }),
            acc == out@[out@.len() - 1],
            integrate_table(seg, center, n as int, step as int) == Some(out@),
            forall|i: int| 0 <= i < out@.len() ==> (#[trigger] out@[i]).wf() && out@[i].num >= 0,
            forall|i: int| 0 <= i < out@.len() - 1 ==> rat_le(out@[i], #[trigger] out@[i + 1]),
        decreases n - step,
    {
        let w1 = Rat::from_int(step as i64);
        let w2 = Rat::from_int((n - step) as i64);
        proof {
            assert(w1.num * w2.den + w2.num * w1.den >= 1);
            assert(w1 == (Rat { num: step as i64, den: 1 }));
            assert(w2 == (Rat { num: (n - step) as i64, den: 1 }));
        }
        let x = match seg.interpolate_position(w1, w2) {
            None => {
                proof {
                    assert(integrate_sample(seg, n as int, step as int) is None);
                    assert(integrate_table(seg, center, n as int, step + 1) is None);
                    lemma_table_none_stays(seg, center, n as int, step + 1, n as int);
                }
                return None;
            },
            Some(x) => x,
        };
        proof {
            assert(integrate_sample(seg, n as int, step as int) == Some(x));
        }
        let w = split_weight_function(x, center);
        let next = match acc.add(w) {
            None => {
                proof {
                    assert(integrate_table(seg, center, n as int, step + 1) is None);
                    lemma_table_none_stays(seg, center, n as int, step + 1, n as int);
                }
                return None;
            },
            Some(next) => next,
        };
        proof {
            assert(integrate_table(seg, center, n as int, step + 1) == Some(out@.push(next)));
        }
        proof {
            // the sum of two non-negative rationals is at least the first
            assert(rat_le(acc, next) && next.num >= 0) by (nonlinear_arith)
                requires
                    next.num * (acc.den * w.den) == (acc.num * w.den + w.num * acc.den) * next.den,
                    acc.num >= 0,
                    w.num >= 0,
                    acc.den >= 1,
                    w.den >= 1,
                    next.den >= 1,
                    -COORD_LIMIT <= next.num <= COORD_LIMIT,
                    rat_le(acc, next) == (acc.num * next.den <= next.num * acc.den),
            ;
        }
        out.push(next);
        acc = next;
        step = step + 1;
    }
    Some(out)
}

/// One term of the shoelace fold over a general vertex ring.
pub open spec fn signed_area_fold(s: Seq<Point>, k: int) -> Option<Rat>
    decreases k,
{
    if k <= 0 {
        Some(Rat { num: 0, den: 1 })
    } else {
        match signed_area_fold(s, k - 1) {
            None => None,
            Some(a) => {
                let p = s[k - 1];
                let q = s[(k - 1 + 1) % s.len() as int];
                match cross_spec(p, q) {
                    None => None,
                    Some(c) => rat_add(a, c),
                }
            },
        }
    }
}

/// Mirror of `signed_area`: half the shoelace fold.
pub open spec fn signed_area_spec(s: Seq<Point>) -> Option<Rat> {
    match signed_area_fold(s, s.len() as int) {
        None => None,
        Some(a) => rat_mul(a, Rat { num: 1, den: 2 }),
    }
}

/// The signed area of a vertex ring with arbitrary denominators: positive
/// for counter-clockwise winding. `None` when a partial sum leaves the
/// representable range.
pub fn signed_area(vertices: &Vec<Point>) -> (r: Option<Rat>)
    requires
        forall|i: int| 0 <= i < vertices@.len() ==> (#[trigger] vertices@[i]).wf(),
        vertices@.len() >= 1,
    ensures
        r == signed_area_spec(vertices@),
{
    let n = vertices.len();
    let mut acc: Rat = Rat::zero();
    let mut i: usize = 0;
    while i < n
        invariant
            forall|k: int| 0 <= k < vertices@.len() ==> (#[trigger] vertices@[k]).wf(),
            vertices@.len() == n,
            n >= 1,
            i <= n,
            signed_area_fold(vertices@, i as int) == Some(acc),
            acc.wf(),
        decreases n - i,
    {
        let p = vertices[i];
        let q = vertices[if i + 1 >= n {
            0
        } else {
            i + 1
        }];
        proof {
            if i + 1 >= n {
                vstd::arithmetic::div_mod::lemma_mod_self_0(n as int);
            } else {
                vstd::arithmetic::div_mod::lemma_small_mod((i + 1) as nat, n as nat);
            }
            assert((i as int + 1) % vertices@.len() as int == (if i + 1 >= n {
                0int
            } else {
                i as int + 1
            }));
        }
        let c = match cross(p, q) {
            None => {
                proof {
                    assert(signed_area_fold(vertices@, i + 1) is None);
                    lemma_fold_none_stays(vertices@, i + 1, vertices@.len() as int);
                }
                return None;
            },
            Some(c) => c,
        };
        let next = match acc.add(c) {
            None => {
                proof {
                    assert(signed_area_fold(vertices@, i + 1) is None);
                    lemma_fold_none_stays(vertices@, i + 1, vertices@.len() as int);
                }
                return None;
            },
            Some(next) => next,
        };
        acc = next;
        i = i + 1;
    }
    let half = Rat { num: 1, den: 2 };
    acc.mul(half)
}

/// Once the shoelace fold fails, it stays failed for every longer prefix.
proof fn lemma_fold_none_stays(s: Seq<Point>, k: int, m: int)
    requires
        0 <= k <= m,
        signed_area_fold(s, k) is None,
    ensures
        signed_area_fold(s, m) is None,
    decreases m - k,
{
    if m > k {
        lemma_fold_none_stays(s, k, m - 1);
    }
}

} // verus!
