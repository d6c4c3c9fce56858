//! Infinite lines and bounded segments.
//!
//! A `Line` is stored in integer implicit form: the points `(x, y)` with
//! `a·x + b·y + c == 0`. Construction divides the three coefficients by
//! their common gcd, the exact analogue of normalising the normal vector;
//! the sign of `a·x + b·y + c` classifies a point's side, and the magnitude
//! is proportional to (not equal to) the Euclidean distance.
//!
//! A `LineSegment` is a pair of endpoints. Its line is derived on demand,
//! and its predicates (`contains`, `on_strip`) are decided exactly from
//! sign tests of 128-bit integer forms.

use vstd::prelude::*;

verus! {

use crate::point::{Point, pt_eq, norm_point, norm_point_exec, lemma_norm_point_some};
use crate::rat::{
    Rat, COORD_LIMIT, RAW_LIMIT, abs_int, gcd, norm_rat, norm_rat_exec, gcd_u128,
    lemma_gcd_divides, lemma_div_exact, lemma_div_neg_exact, lemma_divides_trans,
    lemma_mul_range, lemma_abs_mul_le, lemma_norm_rat_some, lemma_cancel_mul,
};

/// An infinite line `{ (x, y) | a·x + b·y + c == 0 }` with `(a, b) != (0, 0)`.
#[derive(Clone, Copy, Debug, PartialEq, Eq, Structural)]
pub struct Line {
    pub a: i64,
    pub b: i64,
    pub c: i64,
}

/// A bounded segment between two points.
#[derive(Clone, Copy, Debug, PartialEq, Eq, Structural)]
pub struct LineSegment {
    pub start: Point,
    pub end: Point,
}

impl Line {
    /// Coefficients bounded and the normal vector nonzero.
    pub open spec fn wf(self) -> bool {
        &&& -COORD_LIMIT <= self.a <= COORD_LIMIT
        &&& -COORD_LIMIT <= self.b <= COORD_LIMIT
        &&& -COORD_LIMIT <= self.c <= COORD_LIMIT
        &&& !(self.a == 0 && self.b == 0)
    }
}

impl LineSegment {
    /// Both endpoints well formed.
    pub open spec fn wf(self) -> bool {
        self.start.wf() && self.end.wf()
    }
}

/// The signed side form of `p` with respect to `l`: zero exactly on the
/// line, and of constant sign on each open half-plane.
pub open spec fn line_side_num(l: Line, p: Point) -> int {
    l.a * p.xn + l.b * p.yn + l.c * p.den
}

/// `p` lies on `l`.
pub open spec fn line_contains(l: Line, p: Point) -> bool {
    line_side_num(l, p) == 0
}

/// `p` lies on the line or strictly on the half-plane selected by the sign
/// of `side`.
pub open spec fn line_on_side(l: Line, p: Point, side: int) -> bool {
    let s = line_side_num(l, p);
    s == 0 || (s > 0 && side > 0) || (s < 0 && side < 0)
}

/// Reduce the coefficient triple by its common gcd and keep it if it fits.
pub open spec fn norm_line(a: int, b: int, c: int) -> Option<Line>
    recommends
        a != 0 || b != 0,
{
    let g = gcd(gcd(abs_int(a) as nat, abs_int(b) as nat), abs_int(c) as nat) as int;
    let ra = a / g;
    let rb = b / g;
    let rc = c / g;
    if -COORD_LIMIT <= ra <= COORD_LIMIT && -COORD_LIMIT <= rb <= COORD_LIMIT && -COORD_LIMIT <= rc
        <= COORD_LIMIT {
        Some(Line { a: ra as i64, b: rb as i64, c: rc as i64 })
    } else {
        None
    }
}

/// A successful line normalisation is well formed and keeps the whole side
/// form of every point, up to the positive factor it divided out.
pub proof fn lemma_norm_line_some(a: int, b: int, c: int)
    requires
        a != 0 || b != 0,
        norm_line(a, b, c) is Some,
    ensures
        norm_line(a, b, c).unwrap().wf(),
        ({
            let l = norm_line(a, b, c).unwrap();
            let g = gcd(gcd(abs_int(a) as nat, abs_int(b) as nat), abs_int(c) as nat) as int;
            g >= 1 && a == g * l.a && b == g * l.b && c == g * l.c
        }),
{
    let g1 = gcd(abs_int(a) as nat, abs_int(b) as nat);
    let g = gcd(g1, abs_int(c) as nat) as int;
    lemma_gcd_divides(abs_int(a) as nat, abs_int(b) as nat);
    assert(g1 > 0);
    lemma_gcd_divides(g1, abs_int(c) as nat);
    assert(g >= 1);
    lemma_divides_trans(g, g1 as int, abs_int(a));
    lemma_divides_trans(g, g1 as int, abs_int(b));
    if a < 0 {
        lemma_div_neg_exact(a, g);
    }
    if b < 0 {
        lemma_div_neg_exact(b, g);
    }
    if c < 0 {
        lemma_div_neg_exact(c, g);
    }
    lemma_div_exact(a, g);
    lemma_div_exact(b, g);
    lemma_div_exact(c, g);
    let l = norm_line(a, b, c).unwrap();
    assert(a == g * l.a && b == g * l.b && c == g * l.c);
    if l.a == 0 && l.b == 0 {
        assert(a == 0 && b == 0) by (nonlinear_arith)
            requires
                a == g * l.a,
                b == g * l.b,
                l.a == 0,
                l.b == 0,
        ;
    }
}

/// The side form before and after normalisation agree up to the positive
/// factor divided out, so every sign and zero test is unchanged.
pub proof fn lemma_norm_line_side(a: int, b: int, c: int, p: Point)
    requires
        a != 0 || b != 0,
        norm_line(a, b, c) is Some,
    ensures
        ({
            let l = norm_line(a, b, c).unwrap();
            let g = gcd(gcd(abs_int(a) as nat, abs_int(b) as nat), abs_int(c) as nat) as int;
            a * p.xn + b * p.yn + c * p.den == g * line_side_num(l, p)
        }),
{
    lemma_norm_line_some(a, b, c);
    let l = norm_line(a, b, c).unwrap();
    let g = gcd(gcd(abs_int(a) as nat, abs_int(b) as nat), abs_int(c) as nat) as int;
    assert(a * p.xn == g * (l.a * p.xn)) by (nonlinear_arith)
        requires
            a == g * l.a,
    ;
    assert(b * p.yn == g * (l.b * p.yn)) by (nonlinear_arith)
        requires
            b == g * l.b,
    ;
    assert(c * p.den == g * (l.c * p.den)) by (nonlinear_arith)
        requires
            c == g * l.c,
    ;
    assert(g * (l.a * p.xn) + g * (l.b * p.yn) + g * (l.c * p.den) == g * (l.a * p.xn + l.b * p.yn
        + l.c * p.den)) by (nonlinear_arith);
}

/// Normalise the coefficient triple into a bounded `Line`.
pub fn norm_line_exec(a: i128, b: i128, c: i128) -> (r: Option<Line>)
    requires
        a != 0 || b != 0,
        -RAW_LIMIT <= a <= RAW_LIMIT,
        -RAW_LIMIT <= b <= RAW_LIMIT,
        -RAW_LIMIT <= c <= RAW_LIMIT,
    ensures
        r == norm_line(a as int, b as int, c as int),
{
    let ua: u128 = if a < 0 {
        (-a) as u128
    } else {
        a as u128
    };
    let ub: u128 = if b < 0 {
        (-b) as u128
    } else {
        b as u128
    };
    let uc: u128 = if c < 0 {
        (-c) as u128
    } else {
        c as u128
    };
    let g1: u128 = gcd_u128(ua, ub);
    let g: u128 = gcd_u128(g1, uc);
    proof {
        lemma_gcd_divides(ua as nat, ub as nat);
        lemma_gcd_divides(g1 as nat, uc as nat);
        assert(g >= 1);
        lemma_divides_trans(g as int, g1 as int, ua as int);
        lemma_divides_trans(g as int, g1 as int, ub as int);
        if a < 0 {
            lemma_div_neg_exact(a as int, g as int);
        }
        if b < 0 {
            lemma_div_neg_exact(b as int, g as int);
        }
        if c < 0 {
            lemma_div_neg_exact(c as int, g as int);
        }
    }
    let ra: u128 = ua / g;
    let rb: u128 = ub / g;
    let rc: u128 = uc / g;
    if ra > COORD_LIMIT as u128 || rb > COORD_LIMIT as u128 || rc > COORD_LIMIT as u128 {
        None
    } else {
        let na: i64 = if a < 0 {
            -(ra as i64)
        } else {
            ra as i64
        };
        let nb: i64 = if b < 0 {
            -(rb as i64)
        } else {
            rb as i64
        };
        let nc: i64 = if c < 0 {
            -(rc as i64)
        } else {
            rc as i64
        };
        Some(Line { a: na, b: nb, c: nc })
    }
}

/// Mirror of `Line::new`: clear the denominators of `normal` and `offset`
/// and normalise.
pub open spec fn line_new(normal: Point, offset: Rat) -> Option<Line> {
    norm_line(normal.xn * offset.den, normal.yn * offset.den, offset.num * normal.den)
}

/// Mirror of `Line::new_through` and `LineSegment::get_line`: the line
/// through two distinct points.
pub open spec fn line_through(s: Point, e: Point) -> Option<Line> {
    let a0 = s.yn * e.den - e.yn * s.den;
    let b0 = e.xn * s.den - s.xn * e.den;
    if a0 == 0 && b0 == 0 {
        None
    } else {
        norm_line(a0 * s.den, b0 * s.den, -(a0 * s.xn + b0 * s.yn))
    }
}

/// Mirror of `Line::intersect`: the unique common point of two lines with
/// independent normals.
pub open spec fn line_intersect(l1: Line, l2: Line) -> Option<Point> {
    let det = l1.a * l2.b - l2.a * l1.b;
    if det == 0 {
        None
    } else if det > 0 {
        norm_point(l1.b * l2.c - l2.b * l1.c, l1.c * l2.a - l2.c * l1.a, det)
    } else {
        norm_point(-(l1.b * l2.c - l2.b * l1.c), -(l1.c * l2.a - l2.c * l1.a), -det)
    }
}

impl Line {
    /// Build a line from a normal vector and an offset: the points `p` with
    /// `p·normal + offset == 0`. `None` only if the reduced coefficients
    /// exceed the coordinate bound.
    pub fn new(normal: Point, offset: Rat) -> (r: Option<Line>)
        requires
            normal.wf(),
            offset.wf(),
            !(normal.xn == 0 && normal.yn == 0),
        ensures
            r == line_new(normal, offset),
            r matches Some(l) ==> l.wf(),
    {
        proof {
            lemma_mul_range(normal.xn as int, offset.den as int, COORD_LIMIT as int);
            lemma_mul_range(normal.yn as int, offset.den as int, COORD_LIMIT as int);
            lemma_mul_range(offset.num as int, normal.den as int, COORD_LIMIT as int);
            assert(normal.xn * offset.den != 0 || normal.yn * offset.den != 0)
                by (nonlinear_arith)
                requires
                    offset.den >= 1,
                    !(normal.xn == 0 && normal.yn == 0),
            ;
        }
        let a: i128 = (normal.xn as i128) * (offset.den as i128);
        let b: i128 = (normal.yn as i128) * (offset.den as i128);
        let c: i128 = (offset.num as i128) * (normal.den as i128);
        let r = norm_line_exec(a, b, c);
        proof {
            if r is Some {
                lemma_norm_line_some(a as int, b as int, c as int);
            }
        }
        r
    }

    /// The line through the two given points; `None` if they coincide or
    /// the reduced coefficients exceed the coordinate bound.
    pub fn new_through(s: Point, e: Point) -> (r: Option<Line>)
        requires
            s.wf(),
            e.wf(),
        ensures
            r == line_through(s, e),
            r matches Some(l) ==> l.wf() && line_contains(l, s) && line_contains(l, e),
            pt_eq(s, e) ==> r is None,
    {
        proof {
            lemma_mul_range(s.yn as int, e.den as int, COORD_LIMIT as int);
            lemma_mul_range(e.yn as int, s.den as int, COORD_LIMIT as int);
            lemma_mul_range(e.xn as int, s.den as int, COORD_LIMIT as int);
            lemma_mul_range(s.xn as int, e.den as int, COORD_LIMIT as int);
        }
        let a0: i128 = (s.yn as i128) * (e.den as i128) - (e.yn as i128) * (s.den as i128);
        let b0: i128 = (e.xn as i128) * (s.den as i128) - (s.xn as i128) * (e.den as i128);
        if a0 == 0 && b0 == 0 {
            return None;
        }
        proof {
            let lm2: int = 2 * COORD_LIMIT * COORD_LIMIT;
            lemma_abs_mul_le(a0 as int, s.den as int, lm2, COORD_LIMIT as int);
            lemma_abs_mul_le(b0 as int, s.den as int, lm2, COORD_LIMIT as int);
            lemma_abs_mul_le(a0 as int, s.xn as int, lm2, COORD_LIMIT as int);
            lemma_abs_mul_le(b0 as int, s.yn as int, lm2, COORD_LIMIT as int);
            assert(a0 as int * s.den != 0 || b0 as int * s.den != 0) by (nonlinear_arith)
                requires
                    s.den >= 1,
                    !(a0 as int == 0 && b0 as int == 0),
            ;
        }
        let a: i128 = a0 * (s.den as i128);
        let b: i128 = b0 * (s.den as i128);
        let c: i128 = -(a0 * (s.xn as i128) + b0 * (s.yn as i128));
        let r = norm_line_exec(a, b, c);
        proof {
            if r is Some {
                let l = r.unwrap();
                lemma_norm_line_some(a as int, b as int, c as int);
                lemma_norm_line_side(a as int, b as int, c as int, s);
                lemma_norm_line_side(a as int, b as int, c as int, e);
                let g = gcd(
                    gcd(abs_int(a as int) as nat, abs_int(b as int) as nat),
                    abs_int(c as int) as nat,
                ) as int;
                let av = a as int;
                let bv = b as int;
                let cv = c as int;
                let a0v = a0 as int;
                let b0v = b0 as int;
                // the side form of `s` vanishes by construction
                assert(av * s.xn == a0v * (s.xn * s.den)) by (nonlinear_arith)
                    requires
                        av == a0v * s.den,
                ;
                assert(bv * s.yn == b0v * (s.yn * s.den)) by (nonlinear_arith)
                    requires
                        bv == b0v * s.den,
                ;
                assert(cv * s.den == -(a0v * (s.xn * s.den)) - b0v * (s.yn * s.den))
                    by (nonlinear_arith)
                    requires
                        cv == -(a0v * s.xn + b0v * s.yn),
                ;
                assert(av * s.xn + bv * s.yn + cv * s.den == 0);
                // the side form of `e` vanishes because the two cross terms cancel
                assert(av * e.xn == a0v * (e.xn * s.den)) by (nonlinear_arith)
                    requires
                        av == a0v * s.den,
                ;
                assert(bv * e.yn == b0v * (e.yn * s.den)) by (nonlinear_arith)
                    requires
                        bv == b0v * s.den,
                ;
                assert(cv * e.den == -(a0v * (s.xn * e.den)) - b0v * (s.yn * e.den))
                    by (nonlinear_arith)
                    requires
                        cv == -(a0v * s.xn + b0v * s.yn),
                ;
                assert(a0v * (e.xn * s.den) - a0v * (s.xn * e.den) == a0v * b0v)
                    by (nonlinear_arith)
                    requires
                        b0v == e.xn * s.den - s.xn * e.den,
                ;
                assert(b0v * (e.yn * s.den) - b0v * (s.yn * e.den) == -(a0v * b0v))
                    by (nonlinear_arith)
                    requires
                        a0v == s.yn * e.den - e.yn * s.den,
                ;
                assert(av * e.xn + bv * e.yn + cv * e.den == 0);
                // divide the common factor back out
                assert(line_side_num(l, s) * g == 0) by (nonlinear_arith)
                    requires
                        g * line_side_num(l, s) == 0,
                ;
                assert(line_side_num(l, e) * g == 0) by (nonlinear_arith)
                    requires
                        g * line_side_num(l, e) == 0,
                ;
                lemma_cancel_mul(line_side_num(l, s), 0, g);
                lemma_cancel_mul(line_side_num(l, e), 0, g);
            }
        }
        r
    }

    /// The unique intersection point of the two lines, or `None` when their
    /// normals are parallel (which covers disjoint parallel lines and
    /// coincident lines alike) or the point exceeds the coordinate bound.
    pub fn intersect(self, other: Line) -> (r: Option<Point>)
        requires
            self.wf(),
            other.wf(),
        ensures
            r == line_intersect(self, other),
            r matches Some(p) ==> p.wf() && line_contains(self, p) && line_contains(other, p),
            self.a * other.b - other.a * self.b == 0 ==> r is None,
    {
        proof {
            lemma_mul_range(self.a as int, other.b as int, COORD_LIMIT as int);
            lemma_mul_range(other.a as int, self.b as int, COORD_LIMIT as int);
            lemma_mul_range(self.b as int, other.c as int, COORD_LIMIT as int);
            lemma_mul_range(other.b as int, self.c as int, COORD_LIMIT as int);
            lemma_mul_range(self.c as int, other.a as int, COORD_LIMIT as int);
            lemma_mul_range(other.c as int, self.a as int, COORD_LIMIT as int);
        }
        let det: i128 = (self.a as i128) * (other.b as i128) - (other.a as i128) * (self.b as i128);
        if det == 0 {
            return None;
        }
        let xn: i128 = (self.b as i128) * (other.c as i128) - (other.b as i128) * (self.c as i128);
        let yn: i128 = (self.c as i128) * (other.a as i128) - (other.c as i128) * (self.a as i128);
        let r = if det > 0 {
            norm_point_exec(xn, yn, det)
        } else {
            norm_point_exec(-xn, -yn, -det)
        };
        proof {
            let sa = self.a as int;
            let sb = self.b as int;
            let sc = self.c as int;
            let oa = other.a as int;
            let ob = other.b as int;
            let oc = other.c as int;
            let xv = xn as int;
            let yv = yn as int;
            let dv = det as int;
            if r is Some {
                let p = r.unwrap();
                if det > 0 {
                    lemma_norm_point_some(xn as int, yn as int, det as int);
                } else {
                    lemma_norm_point_some(-xn as int, -yn as int, -det as int);
                    assert(p.xn * dv == xv * p.den && p.yn * dv == yv * p.den)
                        by (nonlinear_arith)
                        requires
                            p.xn * (-dv) == (-xv) * p.den,
                            p.yn * (-dv) == (-yv) * p.den,
                    ;
                }
                // Cramer check: substituting the solution into either
                // equation of the system gives zero.
                assert(sa * xv == sa * (sb * oc) - sa * (ob * sc)) by (nonlinear_arith)
                    requires
                        xv == sb * oc - ob * sc,
                ;
                assert(sb * yv == sb * (sc * oa) - sb * (oc * sa)) by (nonlinear_arith)
                    requires
                        yv == sc * oa - oc * sa,
                ;
                assert(sc * dv == sc * (sa * ob) - sc * (oa * sb)) by (nonlinear_arith)
                    requires
                        dv == sa * ob - oa * sb,
                ;
                assert(sa * (sb * oc) == sb * (oc * sa)) by (nonlinear_arith);
                assert(sa * (ob * sc) == sc * (sa * ob)) by (nonlinear_arith);
                assert(sb * (sc * oa) == sc * (oa * sb)) by (nonlinear_arith);
                assert(sa * xv + sb * yv + sc * dv == 0);
                assert(oa * xv == oa * (sb * oc) - oa * (ob * sc)) by (nonlinear_arith)
                    requires
                        xv == sb * oc - ob * sc,
                ;
                assert(ob * yv == ob * (sc * oa) - ob * (oc * sa)) by (nonlinear_arith)
                    requires
                        yv == sc * oa - oc * sa,
                ;
                assert(oc * dv == oc * (sa * ob) - oc * (oa * sb)) by (nonlinear_arith)
                    requires
                        dv == sa * ob - oa * sb,
                ;
                assert(oa * (sb * oc) == oc * (oa * sb)) by (nonlinear_arith);
                assert(oa * (ob * sc) == ob * (sc * oa)) by (nonlinear_arith);
                assert(ob * (oc * sa) == oc * (sa * ob)) by (nonlinear_arith);
                assert(oa * xv + ob * yv + oc * dv == 0);
                // transfer both zeroes to the normalised point and cancel
                // the determinant.
                assert((sa * p.xn) * dv == sa * (xv * p.den)) by (nonlinear_arith)
                    requires
                        p.xn * dv == xv * p.den,
                ;
                assert((sb * p.yn) * dv == sb * (yv * p.den)) by (nonlinear_arith)
                    requires
                        p.yn * dv == yv * p.den,
                ;
                assert((sc * p.den) * dv == (sc * dv) * p.den) by (nonlinear_arith);
                assert(sa * (xv * p.den) + sb * (yv * p.den) + (sc * dv) * p.den == (sa * xv + sb
                    * yv + sc * dv) * p.den) by (nonlinear_arith);
                assert((sa * p.xn) * dv + (sb * p.yn) * dv + (sc * p.den) * dv == (sa * p.xn + sb
                    * p.yn + sc * p.den) * dv) by (nonlinear_arith);
                assert(line_side_num(self, p) * dv == 0);
                assert((oa * p.xn) * dv == oa * (xv * p.den)) by (nonlinear_arith)
                    requires
                        p.xn * dv == xv * p.den,
                ;
                assert((ob * p.yn) * dv == ob * (yv * p.den)) by (nonlinear_arith)
                    requires
                        p.yn * dv == yv * p.den,
                ;
                assert((oc * p.den) * dv == (oc * dv) * p.den) by (nonlinear_arith);
                assert(oa * (xv * p.den) + ob * (yv * p.den) + (oc * dv) * p.den == (oa * xv + ob
                    * yv + oc * dv) * p.den) by (nonlinear_arith);
                assert((oa * p.xn) * dv + (ob * p.yn) * dv + (oc * p.den) * dv == (oa * p.xn + ob
                    * p.yn + oc * p.den) * dv) by (nonlinear_arith);
                assert(line_side_num(other, p) * dv == 0);
                if det > 0 {
                    lemma_cancel_mul(line_side_num(self, p), 0, dv);
                    lemma_cancel_mul(line_side_num(other, p), 0, dv);
                } else {
                    assert(line_side_num(self, p) * (-dv) == 0) by (nonlinear_arith)
                        requires
                            line_side_num(self, p) * dv == 0,
                    ;
                    assert(line_side_num(other, p) * (-dv) == 0) by (nonlinear_arith)
                        requires
                            line_side_num(other, p) * dv == 0,
                    ;
                    lemma_cancel_mul(line_side_num(self, p), 0, -dv);
                    lemma_cancel_mul(line_side_num(other, p), 0, -dv);
                }
            }
        }
        r
    }

    /// The normal vector `(a, b)` as a point with denominator one.
    pub fn normal(self) -> (r: Point)
        requires
            self.wf(),
        ensures
            r.wf(),
            r.xn == self.a,
            r.yn == self.b,
            r.den == 1,
    {
        Point { xn: self.a, yn: self.b, den: 1 }
    }

    /// The constant coefficient as a rational.
    pub fn get_offset(self) -> (r: Rat)
        requires
            self.wf(),
        ensures
            r.wf(),
            r.num == self.c,
            r.den == 1,
    {
        Rat { num: self.c, den: 1 }
    }

    /// A direction vector of the line, orthogonal to the normal.
    pub fn direction(self) -> (r: Point)
        requires
            self.wf(),
        ensures
            r.wf(),
            r.xn == self.b,
            r.yn == -self.a,
            r.den == 1,
    {
        Point { xn: self.b, yn: -self.a, den: 1 }
    }

    /// The parallel line through the origin: same normal, zero offset.
    pub fn centered_line(self) -> (r: Line)
        requires
            self.wf(),
        ensures
            r.wf(),
            r.a == self.a,
            r.b == self.b,
            r.c == 0,
    {
        Line { a: self.a, b: self.b, c: 0 }
    }

    /// The sign of the side form: 0 exactly on the line, +1 and -1 on the
    /// two open half-planes.
    pub fn side_sign(self, p: Point) -> (r: i32)
        requires
            self.wf(),
            p.wf(),
        ensures
            line_side_num(self, p) > 0 ==> r == 1,
            line_side_num(self, p) == 0 ==> r == 0,
            line_side_num(self, p) < 0 ==> r == -1,
    {
        proof {
            lemma_mul_range(self.a as int, p.xn as int, COORD_LIMIT as int);
            lemma_mul_range(self.b as int, p.yn as int, COORD_LIMIT as int);
            lemma_mul_range(self.c as int, p.den as int, COORD_LIMIT as int);
        }
        let s: i128 = (self.a as i128) * (p.xn as i128) + (self.b as i128) * (p.yn as i128)
            + (self.c as i128) * (p.den as i128);
        if s > 0 {
            1
        } else if s < 0 {
            -1
        } else {
            0
        }
    }

    /// The side form as a rational: zero exactly on the line, and its sign
    /// classifies the half-plane. The magnitude is the Euclidean distance
    /// scaled by the length of the (integer) normal.
    pub fn side(self, p: Point) -> (r: Option<Rat>)
        requires
            self.wf(),
            p.wf(),
        ensures
            r == norm_rat(line_side_num(self, p), p.den as int),
            r matches Some(s) ==> s.wf() && s.num * p.den == line_side_num(self, p) * s.den,
    {
        proof {
            lemma_mul_range(self.a as int, p.xn as int, COORD_LIMIT as int);
            lemma_mul_range(self.b as int, p.yn as int, COORD_LIMIT as int);
            lemma_mul_range(self.c as int, p.den as int, COORD_LIMIT as int);
        }
        let n: i128 = (self.a as i128) * (p.xn as i128) + (self.b as i128) * (p.yn as i128)
            + (self.c as i128) * (p.den as i128);
        let r = norm_rat_exec(n, p.den as i128);
        proof {
            if r is Some {
                lemma_norm_rat_some(n as int, p.den as int);
            }
        }
        r
    }

    /// The absolute side form of `p` as a rational: the Euclidean distance
    /// scaled by the length of the (integer) normal. `None` when the
    /// reduced value leaves the representable range.
    pub fn distance(self, p: Point) -> (r: Option<Rat>)
        requires
            self.wf(),
            p.wf(),
        ensures
            r is Some <==> norm_rat(line_side_num(self, p), p.den as int) is Some,
            r matches Some(d) ==> d.wf() && d.den == norm_rat(
                line_side_num(self, p),
                p.den as int,
            ).unwrap().den && d.num == abs_int(
                norm_rat(line_side_num(self, p), p.den as int).unwrap().num as int,
            ),
    {
        match self.side(p) {
            None => None,
            Some(s) => Some(s.abs()),
        }
    }

    /// Whether `p` lies on the line (decided exactly).
    pub fn contains(self, p: Point) -> (r: bool)
        requires
            self.wf(),
            p.wf(),
        ensures
            r == line_contains(self, p),
    {
        self.side_sign(p) == 0
    }

    /// Whether `p` lies on the line or strictly on the half-plane selected
    /// by the sign of `side`.
    pub fn is_on_side(self, p: Point, side: i32) -> (r: bool)
        requires
            self.wf(),
            p.wf(),
        ensures
            r == line_on_side(self, p, side as int),
    {
        let s = self.side_sign(p);
        s == 0 || (s > 0 && side > 0) || (s < 0 && side < 0)
    }
}

/// Ring identity: distribute three coefficients over a shared factor.
proof fn nl_seg_distrib3(a: int, b: int, c: int, x: int, y: int, z: int, m: int)
    ensures
        a * (x * m) + b * (y * m) + c * (z * m) == (a * x + b * y + c * z) * m,
{
    broadcast use vstd::arithmetic::mul::group_mul_is_commutative_and_distributive,
        vstd::arithmetic::mul::lemma_mul_is_associative;

}

/// Ring identity: collect three products over a shared factor.
proof fn nl_seg_sum3(u: int, v: int, w: int, m: int)
    ensures
        u * m + v * m + w * m == (u + v + w) * m,
{
    broadcast use vstd::arithmetic::mul::group_mul_is_commutative_and_distributive;

}

/// Two representations of the same point get the same side classification
/// from every line.
#[verifier::rlimit(60)]
pub proof fn lemma_on_side_pt_eq(l: Line, p: Point, q: Point, side: int)
    requires
        p.wf(),
        q.wf(),
        pt_eq(p, q),
        line_on_side(l, p, side),
    ensures
        line_on_side(l, q, side),
{
    let la = l.a as int;
    let lb = l.b as int;
    let lc = l.c as int;
    assert((la * p.xn) * q.den == la * (q.xn * p.den)) by (nonlinear_arith)
        requires
            p.xn * q.den == q.xn * p.den,
    ;
    assert((lb * p.yn) * q.den == lb * (q.yn * p.den)) by (nonlinear_arith)
        requires
            p.yn * q.den == q.yn * p.den,
    ;
    assert((lc * p.den) * q.den == lc * (q.den * p.den)) by (nonlinear_arith);
    nl_seg_distrib3(la, lb, lc, q.xn as int, q.yn as int, q.den as int, p.den as int);
    nl_seg_sum3(la * p.xn, lb * p.yn, lc * p.den, q.den as int);
    assert(line_side_num(l, p) * q.den == line_side_num(l, q) * p.den);
    assert({
        let sp = line_side_num(l, p);
        let sq = line_side_num(l, q);
        &&& sp == 0 ==> sq == 0
        &&& sp > 0 ==> sq > 0
        &&& sp < 0 ==> sq < 0
    }) by (nonlinear_arith)
        requires
            line_side_num(l, p) * q.den == line_side_num(l, q) * p.den,
            p.den >= 1,
            q.den >= 1,
    ;
}

/// A normalised point built from a raw triple whose side form vanishes
/// lies on the line.
pub proof fn lemma_norm_point_on_line(l: Line, xr: int, yr: int, dr: int)
    requires
        dr >= 1,
        norm_point(xr, yr, dr) is Some,
        l.a * xr + l.b * yr + l.c * dr == 0,
    ensures
        line_contains(l, norm_point(xr, yr, dr).unwrap()),
{
    lemma_norm_point_some(xr, yr, dr);
    let p = norm_point(xr, yr, dr).unwrap();
    let la = l.a as int;
    let lb = l.b as int;
    let lc = l.c as int;
    assert((la * p.xn) * dr == la * (xr * p.den)) by (nonlinear_arith)
        requires
            p.xn * dr == xr * p.den,
    ;
    assert((lb * p.yn) * dr == lb * (yr * p.den)) by (nonlinear_arith)
        requires
            p.yn * dr == yr * p.den,
    ;
    assert((lc * p.den) * dr == (lc * dr) * p.den) by (nonlinear_arith);
    assert(la * (xr * p.den) + lb * (yr * p.den) + (lc * dr) * p.den == (la * xr + lb * yr + lc
        * dr) * p.den) by (nonlinear_arith);
    assert((la * p.xn) * dr + (lb * p.yn) * dr + (lc * p.den) * dr == (la * p.xn + lb * p.yn + lc
        * p.den) * dr) by (nonlinear_arith);
    assert(line_side_num(l, p) * dr == 0);
    lemma_cancel_mul(line_side_num(l, p), 0, dr);
}

/// Mirror of `Line::point_on_line`: the foot of the perpendicular from the
/// origin.
pub open spec fn line_point_on(l: Line) -> Option<Point> {
    norm_point(-(l.c * l.a), -(l.c * l.b), l.a * l.a + l.b * l.b)
}

/// Mirror of `Line::perpendicular_through`: the line through `p` orthogonal
/// to `l`.
pub open spec fn line_perp_through(l: Line, p: Point) -> Option<Line> {
    norm_line(l.b * p.den, -(l.a * p.den), -(l.b * p.xn - l.a * p.yn))
}

/// Mirror of `Line::closest_point`: the orthogonal projection of `p`.
pub open spec fn line_closest(l: Line, p: Point) -> Option<Point> {
    let s = line_side_num(l, p);
    let n2 = l.a * l.a + l.b * l.b;
    norm_point(p.xn * n2 - s * l.a, p.yn * n2 - s * l.b, p.den * n2)
}

impl Line {
    /// A point of the line: the foot of the perpendicular from the origin.
    pub fn point_on_line(self) -> (r: Option<Point>)
        requires
            self.wf(),
        ensures
            r == line_point_on(self),
            r matches Some(p) ==> p.wf() && line_contains(self, p),
    {
        proof {
            lemma_mul_range(self.c as int, self.a as int, COORD_LIMIT as int);
            lemma_mul_range(self.c as int, self.b as int, COORD_LIMIT as int);
            lemma_mul_range(self.a as int, self.a as int, COORD_LIMIT as int);
            lemma_mul_range(self.b as int, self.b as int, COORD_LIMIT as int);
            assert(self.a as int * self.a + self.b as int * self.b >= 1) by (nonlinear_arith)
                requires
                    !(self.a as int == 0 && self.b as int == 0),
            ;
        }
        let xn: i128 = -((self.c as i128) * (self.a as i128));
        let yn: i128 = -((self.c as i128) * (self.b as i128));
        let d: i128 = (self.a as i128) * (self.a as i128) + (self.b as i128) * (self.b as i128);
        let r = norm_point_exec(xn, yn, d);
        proof {
            if r is Some {
                lemma_norm_point_some(xn as int, yn as int, d as int);
                let la = self.a as int;
                let lb = self.b as int;
                let lc = self.c as int;
                assert(la * (-(lc * la)) + lb * (-(lc * lb)) + lc * (la * la + lb * lb) == 0)
                    by (nonlinear_arith);
                lemma_norm_point_on_line(self, xn as int, yn as int, d as int);
            }
        }
        r
    }

    /// The line through `p` orthogonal to this one.
    pub fn perpendicular_through(self, p: Point) -> (r: Option<Line>)
        requires
            self.wf(),
            p.wf(),
        ensures
            r == line_perp_through(self, p),
            r matches Some(l2) ==> l2.wf() && line_contains(l2, p) && l2.a * self.a + l2.b * self.b
                == 0,
    {
        proof {
            lemma_mul_range(self.b as int, p.den as int, COORD_LIMIT as int);
            lemma_mul_range(self.a as int, p.den as int, COORD_LIMIT as int);
            lemma_mul_range(self.b as int, p.xn as int, COORD_LIMIT as int);
            lemma_mul_range(self.a as int, p.yn as int, COORD_LIMIT as int);
            assert(self.b as int * p.den != 0 || -(self.a as int * p.den) != 0)
                by (nonlinear_arith)
                requires
                    p.den >= 1,
                    !(self.a as int == 0 && self.b as int == 0),
            ;
        }
        let a2: i128 = (self.b as i128) * (p.den as i128);
        let b2: i128 = -((self.a as i128) * (p.den as i128));
        let c2: i128 = -((self.b as i128) * (p.xn as i128) - (self.a as i128) * (p.yn as i128));
        let r = norm_line_exec(a2, b2, c2);
        proof {
            if r is Some {
                let l2 = r.unwrap();
                lemma_norm_line_some(a2 as int, b2 as int, c2 as int);
                lemma_norm_line_side(a2 as int, b2 as int, c2 as int, p);
                let g = gcd(
                    gcd(abs_int(a2 as int) as nat, abs_int(b2 as int) as nat),
                    abs_int(c2 as int) as nat,
                ) as int;
                let la = self.a as int;
                let lb = self.b as int;
                assert(a2 as int * p.xn + b2 as int * p.yn + c2 as int * p.den == 0)
                    by (nonlinear_arith)
                    requires
                        a2 as int == lb * p.den,
                        b2 as int == -(la * p.den),
                        c2 as int == -(lb * p.xn - la * p.yn),
                ;
                assert(line_side_num(l2, p) * g == 0) by (nonlinear_arith)
                    requires
                        g * line_side_num(l2, p) == 0,
                ;
                lemma_cancel_mul(line_side_num(l2, p), 0, g);
                // orthogonality survives the division by the gcd
                assert((a2 as int) * la + (b2 as int) * lb == 0) by (nonlinear_arith)
                    requires
                        a2 as int == lb * p.den,
                        b2 as int == -(la * p.den),
                ;
                assert((g * l2.a) * la + (g * l2.b) * lb == g * (l2.a * la + l2.b * lb))
                    by (nonlinear_arith);
                assert((l2.a * la + l2.b * lb) * g == 0) by (nonlinear_arith)
                    requires
                        g * (l2.a * la + l2.b * lb) == 0,
                ;
                lemma_cancel_mul(l2.a * la + l2.b * lb, 0, g);
            }
        }
        r
    }

    /// The orthogonal projection of `p` onto the line.
    pub fn closest_point(self, p: Point) -> (r: Option<Point>)
        requires
            self.wf(),
            p.wf(),
        ensures
            r == line_closest(self, p),
            r matches Some(q) ==> q.wf() && line_contains(self, q),
    {
        let ghost lm: int = COORD_LIMIT as int;
        proof {
            lemma_mul_range(self.a as int, p.xn as int, lm);
            lemma_mul_range(self.b as int, p.yn as int, lm);
            lemma_mul_range(self.c as int, p.den as int, lm);
            lemma_mul_range(self.a as int, self.a as int, lm);
            lemma_mul_range(self.b as int, self.b as int, lm);
            assert(self.a as int * self.a + self.b as int * self.b >= 1) by (nonlinear_arith)
                requires
                    !(self.a as int == 0 && self.b as int == 0),
            ;
        }
        let s: i128 = (self.a as i128) * (p.xn as i128) + (self.b as i128) * (p.yn as i128)
            + (self.c as i128) * (p.den as i128);
        let n2: i128 = (self.a as i128) * (self.a as i128) + (self.b as i128) * (self.b as i128);
        proof {
            lemma_abs_mul_le(s as int, self.a as int, 3 * (lm * lm), lm);
            lemma_abs_mul_le(s as int, self.b as int, 3 * (lm * lm), lm);
            lemma_abs_mul_le(p.xn as int, n2 as int, lm, 2 * (lm * lm));
            lemma_abs_mul_le(p.yn as int, n2 as int, lm, 2 * (lm * lm));
            lemma_abs_mul_le(p.den as int, n2 as int, lm, 2 * (lm * lm));
            assert(p.den as int * n2 >= 1) by (nonlinear_arith)
                requires
                    p.den >= 1,
                    n2 >= 1,
            ;
        }
        let xn: i128 = (p.xn as i128) * n2 - s * (self.a as i128);
        let yn: i128 = (p.yn as i128) * n2 - s * (self.b as i128);
        let d: i128 = (p.den as i128) * n2;
        let r = norm_point_exec(xn, yn, d);
        proof {
            if r is Some {
                let la = self.a as int;
                let lb = self.b as int;
                let lc = self.c as int;
                let sv = s as int;
                let nv = n2 as int;
                assert(la * (p.xn * nv - sv * la) == (la * p.xn) * nv - (la * la) * sv)
                    by (nonlinear_arith);
                assert(lb * (p.yn * nv - sv * lb) == (lb * p.yn) * nv - (lb * lb) * sv)
                    by (nonlinear_arith);
                assert(lc * (p.den * nv) == (lc * p.den) * nv) by (nonlinear_arith);
                assert((la * p.xn) * nv + (lb * p.yn) * nv + (lc * p.den) * nv == (la * p.xn + lb
                    * p.yn + lc * p.den) * nv) by (nonlinear_arith);
                assert((la * la) * sv + (lb * lb) * sv == (la * la + lb * lb) * sv)
                    by (nonlinear_arith);
                assert(sv * nv == nv * sv) by (nonlinear_arith);
                assert(la * (xn as int) + lb * (yn as int) + lc * (d as int) == 0);
                lemma_norm_point_some(xn as int, yn as int, d as int);
                lemma_norm_point_on_line(self, xn as int, yn as int, d as int);
            }
        }
        r
    }
}

/// Direction numerator of a segment (over the product of the endpoint
/// denominators): the x component of `end - start`.
pub open spec fn seg_dir_x(s: LineSegment) -> int {
    s.end.xn * s.start.den - s.start.xn * s.end.den
}

/// The y component of `end - start`, over the same denominator.
pub open spec fn seg_dir_y(s: LineSegment) -> int {
    s.end.yn * s.start.den - s.start.yn * s.end.den
}

/// Numerator of `p - start` in x, over `p.den * start.den`.
pub open spec fn rel_start_x(s: LineSegment, p: Point) -> int {
    p.xn * s.start.den - s.start.xn * p.den
}

/// Numerator of `p - start` in y.
pub open spec fn rel_start_y(s: LineSegment, p: Point) -> int {
    p.yn * s.start.den - s.start.yn * p.den
}

/// Numerator of `p - end` in x, over `p.den * end.den`.
pub open spec fn rel_end_x(s: LineSegment, p: Point) -> int {
    p.xn * s.end.den - s.end.xn * p.den
}

/// Numerator of `p - end` in y.
pub open spec fn rel_end_y(s: LineSegment, p: Point) -> int {
    p.yn * s.end.den - s.end.yn * p.den
}

/// Cross product of `p - start` with the segment direction: zero exactly
/// when `p` lies on the segment's infinite line (for a nondegenerate
/// segment).
pub open spec fn seg_cross_num(s: LineSegment, p: Point) -> int {
    rel_start_x(s, p) * seg_dir_y(s) - rel_start_y(s, p) * seg_dir_x(s)
}

/// Dot product of `p - start` with the direction: non-negative exactly when
/// the projection of `p` does not fall before `start`.
pub open spec fn seg_span_start(s: LineSegment, p: Point) -> int {
    rel_start_x(s, p) * seg_dir_x(s) + rel_start_y(s, p) * seg_dir_y(s)
}

/// Dot product of `p - end` with the direction: non-positive exactly when
/// the projection of `p` does not fall past `end`.
pub open spec fn seg_span_end(s: LineSegment, p: Point) -> int {
    rel_end_x(s, p) * seg_dir_x(s) + rel_end_y(s, p) * seg_dir_y(s)
}

/// `p` projects into the segment's span: the strip between the two
/// perpendiculars erected at the endpoints.
pub open spec fn seg_on_strip(s: LineSegment, p: Point) -> bool {
    seg_span_start(s, p) >= 0 && seg_span_end(s, p) <= 0
}

/// `p` lies on the segment: on its line and within its span.
pub open spec fn seg_contains(s: LineSegment, p: Point) -> bool {
    seg_cross_num(s, p) == 0 && seg_on_strip(s, p)
}

/// Mirror of `LineSegment::mid_point`.
pub open spec fn seg_mid(s: LineSegment) -> Option<Point> {
    norm_point(
        s.start.xn * s.end.den + s.end.xn * s.start.den,
        s.start.yn * s.end.den + s.end.yn * s.start.den,
        2 * (s.start.den * s.end.den),
    )
}

/// Mirror of `LineSegment::strip_boundaries`: the perpendiculars of the
/// segment's line at its two endpoints.
pub open spec fn seg_strip_boundaries(s: LineSegment) -> Option<(Line, Line)> {
    match line_through(s.start, s.end) {
        None => None,
        Some(l) => match line_perp_through(l, s.start) {
            None => None,
            Some(b0) => match line_perp_through(l, s.end) {
                None => None,
                Some(b1) => Some((b0, b1)),
            },
        },
    }
}

/// Mirror of `LineSegment::split`: cut at the intersection with `l` when it
/// falls inside the segment, otherwise hand the segment back whole.
pub open spec fn seg_split(s: LineSegment, l: Line) -> Seq<LineSegment> {
    match line_through(s.start, s.end) {
        None => seq![s],
        Some(sl) => match line_intersect(sl, l) {
            None => seq![s],
            Some(x) => if seg_contains(s, x) {
                seq![LineSegment { start: s.start, end: x }, LineSegment { start: x, end: s.end }]
            } else {
                seq![s]
            },
        },
    }
}

/// Mirror of `LineSegment::crop_to_halfplane`: of the at most two pieces of
/// the split, the first that lies fully on the kept side.
pub open spec fn seg_crop(s: LineSegment, l: Line, side: int) -> Option<LineSegment> {
    let ps = seg_split(s, l);
    if line_on_side(l, ps[0].start, side) && line_on_side(l, ps[0].end, side) {
        Some(ps[0])
    } else if ps.len() == 2 && line_on_side(l, ps[1].start, side) && line_on_side(
        l,
        ps[1].end,
        side,
    ) {
        Some(ps[1])
    } else {
        None
    }
}

/// Mirror of `LineSegment::interpolate_position`: the weighted point
/// `(w2·start + w1·end) / (w1 + w2)`, for any weights whose sum is not
/// zero.
pub open spec fn seg_interp(s: LineSegment, w1: Rat, w2: Rat) -> Option<Point> {
    let xn = (w2.num * w1.den) * (s.start.xn * s.end.den) + (w1.num * w2.den) * (s.end.xn
        * s.start.den);
    let yn = (w2.num * w1.den) * (s.start.yn * s.end.den) + (w1.num * w2.den) * (s.end.yn
        * s.start.den);
    let d = (s.start.den * s.end.den) * (w1.num * w2.den + w2.num * w1.den);
    if w1.num * w2.den + w2.num * w1.den > 0 {
        norm_point(xn, yn, d)
    } else {
        norm_point(-xn, -yn, -d)
    }
}

/// Mirror of `LineSegment::reflect_over_line`.
pub open spec fn seg_reflect_line(s: LineSegment, l: Line) -> Option<LineSegment> {
    match crate::point::pt_reflect_line(s.start, l) {
        None => None,
        Some(a) => match crate::point::pt_reflect_line(s.end, l) {
            None => None,
            Some(b) => Some(LineSegment { start: a, end: b }),
        },
    }
}

/// Mirror of `LineSegment::reflect_over_point`.
pub open spec fn seg_reflect_point(s: LineSegment, o: Point) -> Option<LineSegment> {
    match crate::point::pt_reflect_point(s.start, o) {
        None => None,
        Some(a) => match crate::point::pt_reflect_point(s.end, o) {
            None => None,
            Some(b) => Some(LineSegment { start: a, end: b }),
        },
    }
}

impl LineSegment {
    /// The segment from `start` to `end`.
    pub fn new(start: Point, end: Point) -> (r: LineSegment)
        requires
            start.wf(),
            end.wf(),
        ensures
            r.wf(),
            r.start == start,
            r.end == end,
    {
        LineSegment { start, end }
    }

    /// Both endpoints, in order.
    pub fn endpoints(self) -> (r: (Point, Point))
        requires
            self.wf(),
        ensures
            r.0 == self.start,
            r.1 == self.end,
    {
        (self.start, self.end)
    }

    /// The midpoint of the segment.
    pub fn mid_point(&self) -> (r: Option<Point>)
        requires
            self.wf(),
        ensures
            r == seg_mid(*self),
            r matches Some(m) ==> m.wf(),
    {
        proof {
            lemma_mul_range(self.start.xn as int, self.end.den as int, COORD_LIMIT as int);
            lemma_mul_range(self.end.xn as int, self.start.den as int, COORD_LIMIT as int);
            lemma_mul_range(self.start.yn as int, self.end.den as int, COORD_LIMIT as int);
            lemma_mul_range(self.end.yn as int, self.start.den as int, COORD_LIMIT as int);
            lemma_mul_range(self.start.den as int, self.end.den as int, COORD_LIMIT as int);
        }
        let xn: i128 = (self.start.xn as i128) * (self.end.den as i128) + (self.end.xn as i128)
            * (self.start.den as i128);
        let yn: i128 = (self.start.yn as i128) * (self.end.den as i128) + (self.end.yn as i128)
            * (self.start.den as i128);
        let d: i128 = 2 * ((self.start.den as i128) * (self.end.den as i128));
        let r = norm_point_exec(xn, yn, d);
        proof {
            if r is Some {
                lemma_norm_point_some(xn as int, yn as int, d as int);
            }
        }
        r
    }

    /// The squared length of the segment.
    pub fn length_squared(&self) -> (r: Option<Rat>)
        requires
            self.wf(),
        ensures
            r == norm_rat(
                seg_dir_x(*self) * seg_dir_x(*self) + seg_dir_y(*self) * seg_dir_y(*self),
                (self.start.den * self.end.den) * (self.start.den * self.end.den),
            ),
            r matches Some(v) ==> v.wf() && v.num >= 0,
    {
        let ghost lm: int = COORD_LIMIT as int;
        proof {
            lemma_mul_range(self.end.xn as int, self.start.den as int, lm);
            lemma_mul_range(self.start.xn as int, self.end.den as int, lm);
            lemma_mul_range(self.end.yn as int, self.start.den as int, lm);
            lemma_mul_range(self.start.yn as int, self.end.den as int, lm);
            lemma_mul_range(self.start.den as int, self.end.den as int, lm);
        }
        let dx: i128 = (self.end.xn as i128) * (self.start.den as i128) - (self.start.xn as i128)
            * (self.end.den as i128);
        let dy: i128 = (self.end.yn as i128) * (self.start.den as i128) - (self.start.yn as i128)
            * (self.end.den as i128);
        let dd: i128 = (self.start.den as i128) * (self.end.den as i128);
        proof {
            lemma_abs_mul_le(dx as int, dx as int, 2 * (lm * lm), 2 * (lm * lm));
            lemma_abs_mul_le(dy as int, dy as int, 2 * (lm * lm), 2 * (lm * lm));
            lemma_abs_mul_le(dd as int, dd as int, lm * lm, lm * lm);
            assert(dd * dd >= 1) by (nonlinear_arith)
                requires
                    dd >= 1,
            ;
            assert(dx * dx >= 0 && dy * dy >= 0) by (nonlinear_arith);
        }
        let n: i128 = dx * dx + dy * dy;
        let d: i128 = dd * dd;
        let r = norm_rat_exec(n, d);
        proof {
            if r is Some {
                lemma_norm_rat_some(n as int, d as int);
                let v = r.unwrap();
                assert(v.num >= 0) by (nonlinear_arith)
                    requires
                        v.num * (d as int) == (n as int) * v.den,
                        n >= 0,
                        d >= 1,
                        v.den >= 1,
                ;
            }
        }
        r
    }

    /// The infinite line through the segment; `None` when the endpoints
    /// coincide.
    pub fn get_line(self) -> (r: Option<Line>)
        requires
            self.wf(),
        ensures
            r == line_through(self.start, self.end),
            r matches Some(l) ==> l.wf() && line_contains(l, self.start) && line_contains(
                l,
                self.end,
            ),
            pt_eq(self.start, self.end) ==> r is None,
    {
        Line::new_through(self.start, self.end)
    }

    /// Whether `p` lies on the segment, decided exactly: on the infinite
    /// line, and projecting between the two endpoints.
    pub fn contains(self, p: Point) -> (r: bool)
        requires
            self.wf(),
            p.wf(),
        ensures
            r == seg_contains(self, p),
    {
        let ghost lm: int = COORD_LIMIT as int;
        proof {
            lemma_mul_range(self.end.xn as int, self.start.den as int, lm);
            lemma_mul_range(self.start.xn as int, self.end.den as int, lm);
            lemma_mul_range(self.end.yn as int, self.start.den as int, lm);
            lemma_mul_range(self.start.yn as int, self.end.den as int, lm);
            lemma_mul_range(p.xn as int, self.start.den as int, lm);
            lemma_mul_range(self.start.xn as int, p.den as int, lm);
            lemma_mul_range(p.yn as int, self.start.den as int, lm);
            lemma_mul_range(self.start.yn as int, p.den as int, lm);
            lemma_mul_range(p.xn as int, self.end.den as int, lm);
            lemma_mul_range(self.end.xn as int, p.den as int, lm);
            lemma_mul_range(p.yn as int, self.end.den as int, lm);
            lemma_mul_range(self.end.yn as int, p.den as int, lm);
        }
        let dx: i128 = (self.end.xn as i128) * (self.start.den as i128) - (self.start.xn as i128)
            * (self.end.den as i128);
        let dy: i128 = (self.end.yn as i128) * (self.start.den as i128) - (self.start.yn as i128)
            * (self.end.den as i128);
        let rsx: i128 = (p.xn as i128) * (self.start.den as i128) - (self.start.xn as i128)
            * (p.den as i128);
        let rsy: i128 = (p.yn as i128) * (self.start.den as i128) - (self.start.yn as i128)
            * (p.den as i128);
        let rex: i128 = (p.xn as i128) * (self.end.den as i128) - (self.end.xn as i128) * (p.den
            as i128);
        let rey: i128 = (p.yn as i128) * (self.end.den as i128) - (self.end.yn as i128) * (p.den
            as i128);
        proof {
            lemma_abs_mul_le(rsx as int, dy as int, 2 * (lm * lm), 2 * (lm * lm));
            lemma_abs_mul_le(rsy as int, dx as int, 2 * (lm * lm), 2 * (lm * lm));
            lemma_abs_mul_le(rsx as int, dx as int, 2 * (lm * lm), 2 * (lm * lm));
            lemma_abs_mul_le(rsy as int, dy as int, 2 * (lm * lm), 2 * (lm * lm));
            lemma_abs_mul_le(rex as int, dx as int, 2 * (lm * lm), 2 * (lm * lm));
            lemma_abs_mul_le(rey as int, dy as int, 2 * (lm * lm), 2 * (lm * lm));
        }
        let cross: i128 = rsx * dy - rsy * dx;
        let span_s: i128 = rsx * dx + rsy * dy;
        let span_e: i128 = rex * dx + rey * dy;
        cross == 0 && span_s >= 0 && span_e <= 0
    }

    /// Whether `p` lies between the two perpendiculars erected at the
    /// endpoints, decided exactly.
    pub fn on_strip(self, p: Point) -> (r: bool)
        requires
            self.wf(),
            p.wf(),
        ensures
            r == seg_on_strip(self, p),
    {
        let ghost lm: int = COORD_LIMIT as int;
        proof {
            lemma_mul_range(self.end.xn as int, self.start.den as int, lm);
            lemma_mul_range(self.start.xn as int, self.end.den as int, lm);
            lemma_mul_range(self.end.yn as int, self.start.den as int, lm);
            lemma_mul_range(self.start.yn as int, self.end.den as int, lm);
            lemma_mul_range(p.xn as int, self.start.den as int, lm);
            lemma_mul_range(self.start.xn as int, p.den as int, lm);
            lemma_mul_range(p.yn as int, self.start.den as int, lm);
            lemma_mul_range(self.start.yn as int, p.den as int, lm);
            lemma_mul_range(p.xn as int, self.end.den as int, lm);
            lemma_mul_range(self.end.xn as int, p.den as int, lm);
            lemma_mul_range(p.yn as int, self.end.den as int, lm);
            lemma_mul_range(self.end.yn as int, p.den as int, lm);
        }
        let dx: i128 = (self.end.xn as i128) * (self.start.den as i128) - (self.start.xn as i128)
            * (self.end.den as i128);
        let dy: i128 = (self.end.yn as i128) * (self.start.den as i128) - (self.start.yn as i128)
            * (self.end.den as i128);
        let rsx: i128 = (p.xn as i128) * (self.start.den as i128) - (self.start.xn as i128)
            * (p.den as i128);
        let rsy: i128 = (p.yn as i128) * (self.start.den as i128) - (self.start.yn as i128)
            * (p.den as i128);
        let rex: i128 = (p.xn as i128) * (self.end.den as i128) - (self.end.xn as i128) * (p.den
            as i128);
        let rey: i128 = (p.yn as i128) * (self.end.den as i128) - (self.end.yn as i128) * (p.den
            as i128);
        proof {
            lemma_abs_mul_le(rsx as int, dx as int, 2 * (lm * lm), 2 * (lm * lm));
            lemma_abs_mul_le(rsy as int, dy as int, 2 * (lm * lm), 2 * (lm * lm));
            lemma_abs_mul_le(rex as int, dx as int, 2 * (lm * lm), 2 * (lm * lm));
            lemma_abs_mul_le(rey as int, dy as int, 2 * (lm * lm), 2 * (lm * lm));
        }
        let span_s: i128 = rsx * dx + rsy * dy;
        let span_e: i128 = rex * dx + rey * dy;
        span_s >= 0 && span_e <= 0
    }

    /// The two perpendiculars at `start` and `end` that bound the strip.
    pub fn strip_boundaries(self) -> (r: Option<(Line, Line)>)
        requires
            self.wf(),
        ensures
            r == seg_strip_boundaries(self),
            r matches Some(bs) ==> ({
                &&& line_through(self.start, self.end) is Some
                &&& bs.0.wf() && bs.1.wf()
                &&& line_contains(bs.0, self.start) && line_contains(bs.1, self.end)
                &&& bs.0.a * line_through(self.start, self.end).unwrap().a + bs.0.b
                    * line_through(self.start, self.end).unwrap().b == 0
                &&& bs.1.a * line_through(self.start, self.end).unwrap().a + bs.1.b
                    * line_through(self.start, self.end).unwrap().b == 0
            }),
    {
        let l = match self.get_line() {
            None => {
                return None;
            },
            Some(l) => l,
        };
        let b0 = match l.perpendicular_through(self.start) {
            None => {
                return None;
            },
            Some(b0) => b0,
        };
        let b1 = match l.perpendicular_through(self.end) {
            None => {
                return None;
            },
            Some(b1) => b1,
        };
        Some((b0, b1))
    }

    /// Cut the segment at its intersection with `line` when that falls
    /// inside the segment; otherwise hand the segment back whole.
    pub fn split(self, line: Line) -> (r: Vec<LineSegment>)
        requires
            self.wf(),
            line.wf(),
        ensures
            r@ == seg_split(self, line),
            1 <= r@.len() <= 2,
            forall|i: int| 0 <= i < r@.len() ==> (#[trigger] r@[i]).wf(),
            r@[0].start == self.start,
            r@[r@.len() - 1].end == self.end,
    {
        let sl = match self.get_line() {
            None => {
                let r = vec![self];
                proof {
                    assert(r@ =~= seg_split(self, line));
                }
                return r;
            },
            Some(sl) => sl,
        };
        let x = match sl.intersect(line) {
            None => {
                let r = vec![self];
                proof {
                    assert(r@ =~= seg_split(self, line));
                }
                return r;
            },
            Some(x) => x,
        };
        if self.contains(x) {
            let r = vec![
                LineSegment { start: self.start, end: x },
                LineSegment { start: x, end: self.end },
            ];
            proof {
                assert(r@ =~= seg_split(self, line));
            }
            r
        } else {
            let r = vec![self];
            proof {
                assert(r@ =~= seg_split(self, line));
            }
            r
        }
    }

    /// Keep whichever piece of the split lies fully on the selected side of
    /// `line`, if any.
    pub fn crop_to_halfplane(&self, line: Line, side: i32) -> (r: Option<LineSegment>)
        requires
            self.wf(),
            line.wf(),
        ensures
            r == seg_crop(*self, line, side as int),
            r matches Some(k) ==> k.wf() && line_on_side(line, k.start, side as int)
                && line_on_side(line, k.end, side as int),
    {
        let pieces = self.split(line);
        let first = pieces[0];
        if line.is_on_side(first.start, side) && line.is_on_side(first.end, side) {
            return Some(first);
        }
        if pieces.len() == 2 {
            let second = pieces[1];
            if line.is_on_side(second.start, side) && line.is_on_side(second.end, side) {
                return Some(second);
            }
        }
        None
    }

    /// The weighted point `(w2·start + w1·end) / (w1 + w2)`, defined for
    /// any weights whose sum is not zero.
    pub fn interpolate_position(&self, w1: Rat, w2: Rat) -> (r: Option<Point>)
        requires
            self.wf(),
            w1.wf(),
            w2.wf(),
            w1.num * w2.den + w2.num * w1.den != 0,
        ensures
            r == seg_interp(*self, w1, w2),
            r matches Some(m) ==> m.wf(),
    {
        let ghost lm: int = COORD_LIMIT as int;
        proof {
            lemma_mul_range(w2.num as int, w1.den as int, lm);
            lemma_mul_range(w1.num as int, w2.den as int, lm);
            lemma_mul_range(self.start.xn as int, self.end.den as int, lm);
            lemma_mul_range(self.end.xn as int, self.start.den as int, lm);
            lemma_mul_range(self.start.yn as int, self.end.den as int, lm);
            lemma_mul_range(self.end.yn as int, self.start.den as int, lm);
            lemma_mul_range(self.start.den as int, self.end.den as int, lm);
        }
        let wa: i128 = (w2.num as i128) * (w1.den as i128);
        let wb: i128 = (w1.num as i128) * (w2.den as i128);
        let sd: i128 = (self.start.den as i128) * (self.end.den as i128);
        proof {
            lemma_abs_mul_le(wa as int, self.start.xn as int * self.end.den, lm * lm, lm * lm);
            lemma_abs_mul_le(wb as int, self.end.xn as int * self.start.den, lm * lm, lm * lm);
            lemma_abs_mul_le(wa as int, self.start.yn as int * self.end.den, lm * lm, lm * lm);
            lemma_abs_mul_le(wb as int, self.end.yn as int * self.start.den, lm * lm, lm * lm);
            lemma_abs_mul_le(sd as int, wb as int + wa, lm * lm, 2 * (lm * lm));
        }
        let xn: i128 = wa * ((self.start.xn as i128) * (self.end.den as i128)) + wb * ((self.end.xn
            as i128) * (self.start.den as i128));
        let yn: i128 = wa * ((self.start.yn as i128) * (self.end.den as i128)) + wb * ((self.end.yn
            as i128) * (self.start.den as i128));
        let d: i128 = sd * (wb + wa);
        let r = if wb + wa > 0 {
            proof {
                assert(d >= 1) by (nonlinear_arith)
                    requires
                        sd >= 1,
                        d == sd * (wb + wa),
                        wb + wa >= 1,
                ;
            }
            norm_point_exec(xn, yn, d)
        } else {
            proof {
                assert(-d >= 1) by (nonlinear_arith)
                    requires
                        sd >= 1,
                        d == sd * (wb + wa),
                        wb + wa <= -1,
                ;
            }
            norm_point_exec(-xn, -yn, -d)
        };
        proof {
            if r is Some {
                if wb + wa > 0 {
                    lemma_norm_point_some(xn as int, yn as int, d as int);
                } else {
                    lemma_norm_point_some(-xn as int, -yn as int, -d as int);
                }
            }
        }
        r
    }

    /// Reflect both endpoints across the line.
    pub fn reflect_over_line(&self, line: Line) -> (r: Option<LineSegment>)
        requires
            self.wf(),
            line.wf(),
        ensures
            r == seg_reflect_line(*self, line),
            r matches Some(t) ==> t.wf(),
    {
        let a = match self.start.reflect_over_line(line) {
            None => {
                return None;
            },
            Some(a) => a,
        };
        let b = match self.end.reflect_over_line(line) {
            None => {
                return None;
            },
            Some(b) => b,
        };
        proof {
            let s = line.a * self.start.xn + line.b * self.start.yn + line.c * self.start.den;
            let n2 = line.a * line.a + line.b * line.b;
            assert(self.start.den * n2 >= 1) by (nonlinear_arith)
                requires
                    self.start.den >= 1,
                    n2 == line.a * line.a + line.b * line.b,
                    !(line.a == 0 && line.b == 0),
            ;
            crate::point::lemma_norm_point_some(
                self.start.xn * n2 - 2 * (s * line.a),
                self.start.yn * n2 - 2 * (s * line.b),
                self.start.den * n2,
            );
            let se = line.a * self.end.xn + line.b * self.end.yn + line.c * self.end.den;
            assert(self.end.den * n2 >= 1) by (nonlinear_arith)
                requires
                    self.end.den >= 1,
                    n2 == line.a * line.a + line.b * line.b,
                    !(line.a == 0 && line.b == 0),
            ;
            crate::point::lemma_norm_point_some(
                self.end.xn * n2 - 2 * (se * line.a),
                self.end.yn * n2 - 2 * (se * line.b),
                self.end.den * n2,
            );
        }
        Some(LineSegment { start: a, end: b })
    }

    /// Reflect both endpoints through the point `origin`.
    pub fn reflect_over_point(&self, origin: Point) -> (r: Option<LineSegment>)
        requires
            self.wf(),
            origin.wf(),
        ensures
            r == seg_reflect_point(*self, origin),
            r matches Some(t) ==> t.wf(),
    {
        let a = match self.start.reflect_over_point(origin) {
            None => {
                return None;
            },
            Some(a) => a,
        };
        let b = match self.end.reflect_over_point(origin) {
            None => {
                return None;
            },
            Some(b) => b,
        };
        proof {
            lemma_mul_range(self.start.den as int, origin.den as int, COORD_LIMIT as int);
            crate::point::lemma_norm_point_some(
                2 * (origin.xn * self.start.den) - self.start.xn * origin.den,
                2 * (origin.yn * self.start.den) - self.start.yn * origin.den,
                self.start.den * origin.den,
            );
            lemma_mul_range(self.end.den as int, origin.den as int, COORD_LIMIT as int);
            crate::point::lemma_norm_point_some(
                2 * (origin.xn * self.end.den) - self.end.xn * origin.den,
                2 * (origin.yn * self.end.den) - self.end.yn * origin.den,
                self.end.den * origin.den,
            );
        }
        Some(LineSegment { start: a, end: b })
    }
}

/// Mirror of `sample_count`: twenty samples per unit of (rounded) length,
/// at least twenty and at most two hundred.
pub open spec fn sample_count_spec(s: LineSegment) -> Option<int> {
    match norm_rat(
        seg_dir_x(s) * seg_dir_x(s) + seg_dir_y(s) * seg_dir_y(s),
        (s.start.den * s.end.den) * (s.start.den * s.end.den),
    ) {
        None => None,
        Some(l2) => {
            let ceil2 = (l2.num + (l2.den - 1)) as int / l2.den as int;
            let c = if ceil2 < 0 {
                0int
            } else if ceil2 > 0xffff_ffff {
                0xffff_ffffint
            } else {
                ceil2
            };
            let root = crate::utils::isqrt_spec(c);
            let nn = 20 * (root + 1);
            if nn > 200 {
                Some(200int)
            } else {
                Some(nn)
            }
        },
    }
}

/// Mirror of the inner equal-weight walk of `weighted_split`: emit every
/// multiple of `step` that falls within the current table cell, as the
/// correspondingly weighted point of the current piece.
pub open spec fn wsplit_inner(
    piece: LineSegment,
    lo: Rat,
    hi: Rat,
    step: Rat,
    m: int,
    p1: int,
    res: Seq<Point>,
) -> Option<(int, Seq<Point>)>
    decreases m + 1 - p1,
{
    if p1 > m {
        Some((p1, res))
    } else {
        match crate::rat::rat_mul(step, Rat { num: p1 as i64, den: 1 }) {
            None => None,
            Some(curr) => if !crate::rat::rat_le(curr, hi) {
                Some((p1, res))
            } else {
                match crate::rat::rat_sub(curr, lo) {
                    None => None,
                    Some(w1) => match crate::rat::rat_sub(hi, curr) {
                        None => None,
                        Some(w2) => if w1.num >= 0 && w2.num >= 0 && w1.num + w2.num >= 1 {
                            match seg_interp(piece, w1, w2) {
                                None => None,
                                Some(x) => wsplit_inner(
                                    piece,
                                    lo,
                                    hi,
                                    step,
                                    m,
                                    p1 + 1,
                                    res.push(x),
                                ),
                            }
                        } else {
                            wsplit_inner(piece, lo, hi, step, m, p1 + 1, res)
                        },
                    },
                }
            },
        }
    }
}

/// Mirror of the outer edge walk of `weighted_split`: each piece of the
/// segment is handed to the inner walk together with its cell of the
/// cumulative weight table.
pub open spec fn wsplit_outer(
    seg: LineSegment,
    table: Seq<Rat>,
    step: Rat,
    m: int,
    n: int,
    p2: int,
    p1: int,
    res: Seq<Point>,
) -> Option<Seq<Point>>
    decreases n - p2,
{
    if p2 >= n {
        Some(res)
    } else {
        match seg_interp(seg, Rat { num: p2 as i64, den: 1 }, Rat { num: (n - p2) as i64, den: 1 }) {
            None => None,
            Some(a) => match seg_interp(
                seg,
                Rat { num: (p2 + 1) as i64, den: 1 },
                Rat { num: (n - p2 - 1) as i64, den: 1 },
            ) {
                None => None,
                Some(b) => match wsplit_inner(
                    LineSegment { start: a, end: b },
                    table[p2],
                    table[p2 + 1],
                    step,
                    m,
                    p1,
                    res,
                ) {
                    None => None,
                    Some(st) => wsplit_outer(seg, table, step, m, n, p2 + 1, st.0, st.1),
                },
            },
        }
    }
}

/// Mirror of `LineSegment::weighted_split`: the weight table is built,
/// its total shared into `num_splits + 1` equal steps, and the walk emits
/// one point per step boundary.
pub open spec fn weighted_split_spec(seg: LineSegment, center: Point, num_splits: int) -> Option<
    Seq<Point>,
> {
    match sample_count_spec(seg) {
        None => None,
        Some(nv) => match crate::utils::integrate_table(seg, center, nv, nv) {
            None => None,
            Some(table) => {
                let total = table[table.len() - 1];
                if total.num == 0 {
                    Some(Seq::empty())
                } else {
                    match crate::rat::rat_div(
                        total,
                        Rat { num: (num_splits + 1) as i64, den: 1 },
                    ) {
                        None => None,
                        Some(step) => wsplit_outer(
                            seg,
                            table,
                            step,
                            num_splits + 1,
                            nv,
                            0,
                            0,
                            Seq::empty(),
                        ),
                    }
                }
            },
        },
    }
}

impl LineSegment {
    /// A per-edge sample count proportional to the segment's length,
    /// capped at `MAX_EDGE_SAMPLES`. `None` when the squared length
    /// leaves the representable range.
    pub(crate) fn sample_count(&self) -> (r: Option<usize>)
        requires
            self.wf(),
        ensures
            r is Some <==> sample_count_spec(*self) is Some,
            r matches Some(n) ==> Some(n as int) == sample_count_spec(*self),
            r matches Some(n) ==> 1 <= n <= crate::utils::MAX_EDGE_SAMPLES,
    {
        let l2 = match self.length_squared() {
            None => {
                return None;
            },
            Some(l2) => l2,
        };
        // ceiling of the squared length, clamped into u64 range
        let num = l2.num;
        let den = l2.den;
        let ceil2: i64 = (num + (den - 1)) / den;
        let c: u64 = if ceil2 < 0 {
            0
        } else if ceil2 > 0xffff_ffff {
            0xffff_ffff
        } else {
            ceil2 as u64
        };
        let s = crate::utils::isqrt_u128(c as u128);
        proof {
            assert(s < 0x1_0000) by (nonlinear_arith)
                requires
                    (s as int) * (s as int) <= c,
                    c <= 0xffff_ffff,
                    s >= 0,
            ;
        }
        let n: u64 = 20 * (s + 1);
        if n > 200 {
            Some(200)
        } else {
            Some(n as usize)
        }
    }

    /// Split the segment into sample points that each carry an equal share
    /// of the accumulated resampling weight around `center`: samples
    /// crowd where the weight is largest. The result holds at most
    /// `num_splits + 2` well-formed points; `None` when a value leaves the
    /// representable range, and an empty list when the segment carries no
    /// weight at all.
    pub fn weighted_split(self, center: Point, num_splits: usize) -> (r: Option<Vec<Point>>)
        requires
            self.wf(),
            center.wf(),
            num_splits <= crate::utils::MAX_EDGE_SAMPLES,
        ensures
            r is Some <==> weighted_split_spec(self, center, num_splits as int) is Some,
            r matches Some(ps) ==> Some(ps@) == weighted_split_spec(
                self,
                center,
                num_splits as int,
            ),
            r matches Some(ps) ==> ps@.len() <= num_splits + 2 && (forall|i: int|
                0 <= i < ps@.len() ==> (#[trigger] ps@[i]).wf()),
    {
        let n = match self.sample_count() {
            None => {
                return None;
            },
            Some(n) => n,
        };
        let intermediate = match crate::utils::num_integrate(self, n, center) {
            None => {
                return None;
            },
            Some(v) => v,
        };
        let total = intermediate[intermediate.len() - 1];
        if total.num == 0 {
            let empty: Vec<Point> = Vec::new();
            proof {
                assert(empty@ =~= Seq::<Point>::empty());
            }
            return Some(empty);
        }
        let m: usize = num_splits + 1;
        let mrat = Rat::from_int(m as i64);
        proof {
            assert(mrat == (Rat { num: (num_splits + 1) as i64, den: 1 }));
        }
        let step = match total.div(mrat) {
            None => {
                return None;
            },
            Some(s) => s,
        };
        let mut res: Vec<Point> = Vec::new();
        let mut p1: usize = 0;
        let mut p2: usize = 0;
        let ghost goal = wsplit_outer(
            self,
            intermediate@,
            step,
            m as int,
            n as int,
            0,
            0,
            Seq::empty(),
        );
        proof {
            assert(res@ =~= Seq::<Point>::empty());
            assert(weighted_split_spec(self, center, num_splits as int) == goal);
        }
        while p2 < n
            invariant
                self.wf(),
                center.wf(),
                n <= crate::utils::MAX_EDGE_SAMPLES,
                num_splits <= crate::utils::MAX_EDGE_SAMPLES,
                m == num_splits + 1,
                step.wf(),
                intermediate@.len() == n + 1,
                forall|i: int| 0 <= i < intermediate@.len() ==> (#[trigger] intermediate@[i]).wf()
                    && intermediate@[i].num >= 0,
                p2 <= n,
                p1 <= m + 1,
                res@.len() <= p1,
                forall|i: int| 0 <= i < res@.len() ==> (#[trigger] res@[i]).wf(),
                wsplit_outer(
                    self,
                    intermediate@,
                    step,
                    m as int,
                    n as int,
                    p2 as int,
                    p1 as int,
                    res@,
                ) == goal,
                weighted_split_spec(self, center, num_splits as int) == goal,
            decreases n - p2,
        {
            let w1a = Rat::from_int(p2 as i64);
            let w2a = Rat::from_int((n - p2) as i64);
            proof {
                assert(w1a.num * w2a.den + w2a.num * w1a.den >= 1);
                assert(w1a == (Rat { num: p2 as i64, den: 1 }));
                assert(w2a == (Rat { num: (n - p2) as i64, den: 1 }));
            }
            let a = match self.interpolate_position(w1a, w2a) {
                None => {
                    return None;
                },
                Some(a) => a,
            };
            let w1b = Rat::from_int((p2 + 1) as i64);
            let w2b = Rat::from_int((n - p2 - 1) as i64);
            proof {
                assert(w1b.num * w2b.den + w2b.num * w1b.den >= 1);
                assert(w1b == (Rat { num: (p2 + 1) as i64, den: 1 }));
                assert(w2b == (Rat { num: (n - p2 - 1) as i64, den: 1 }));
            }
            let b = match self.interpolate_position(w1b, w2b) {
                None => {
                    return None;
                },
                Some(b) => b,
            };
            let piece = LineSegment { start: a, end: b };
            let lo = intermediate[p2];
            let hi = intermediate[p2 + 1];
            let ghost op1: int = p1 as int;
            let ghost ores = res@;
            let ghost ti = wsplit_inner(piece, lo, hi, step, m as int, op1, ores);
            proof {
                assert(ti is None ==> wsplit_outer(
                    self,
                    intermediate@,
                    step,
                    m as int,
                    n as int,
                    p2 as int,
                    op1,
                    ores,
                ) is None);
            }
            loop
                invariant
                    piece.wf(),
                    step.wf(),
                    lo.wf(),
                    hi.wf(),
                    m == num_splits + 1,
                    m <= 401,
                    p1 <= m + 1,
                    res@.len() <= p1,
                    forall|i: int| 0 <= i < res@.len() ==> (#[trigger] res@[i]).wf(),
                    wsplit_inner(piece, lo, hi, step, m as int, p1 as int, res@) == ti,
                    ti is None ==> weighted_split_spec(self, center, num_splits as int) is None,
                ensures
                    p1 <= m + 1,
                    res@.len() <= p1,
                    forall|i: int| 0 <= i < res@.len() ==> (#[trigger] res@[i]).wf(),
                    ti == Some((p1 as int, res@)),
                decreases m + 1 - p1,
            {
                if p1 > m {
                    break ;
                }
                let pr = Rat::from_int(p1 as i64);
                proof {
                    assert(pr == (Rat { num: p1 as i64, den: 1 }));
                }
                let curr = match step.mul(pr) {
                    None => {
                        proof {
                            assert(ti is None);
                        }
                        return None;
                    },
                    Some(c) => c,
                };
                if !curr.le(hi) {
                    break ;
                }
                let w1 = match curr.sub(lo) {
                    None => {
                        proof {
                            assert(ti is None);
                        }
                        return None;
                    },
                    Some(w) => w,
                };
                let w2 = match hi.sub(curr) {
                    None => {
                        proof {
                            assert(ti is None);
                        }
                        return None;
                    },
                    Some(w) => w,
                };
                if w1.num >= 0 && w2.num >= 0 && w1.num + w2.num >= 1 {
                    proof {
                        assert(w1.num * w2.den + w2.num * w1.den >= 1) by (nonlinear_arith)
                            requires
                                w1.num >= 0,
                                w2.num >= 0,
                                w1.num + w2.num >= 1,
                                w1.den >= 1,
                                w2.den >= 1,
                        ;
                    }
                    let x = match piece.interpolate_position(w1, w2) {
                        None => {
                            proof {
                                assert(ti is None);
                            }
                            return None;
                        },
                        Some(x) => x,
                    };
                    res.push(x);
                }
                p1 = p1 + 1;
            }
            p2 = p2 + 1;
        }
        proof {
            assert(res@.len() <= num_splits + 2);
        }
        Some(res)
    }

    /// Invert the segment in a circle: resample it by accumulated weight,
    /// invert every sample, and join consecutive images. `None` when a
    /// value leaves the representable range.
    pub fn invert_over_circle(&self, circle: crate::circle::Circle) -> (r: Option<
        Vec<LineSegment>,
    >)
        requires
            self.wf(),
            circle.wf(),
        ensures
            r is Some <==> seg_invert_spec(*self, circle) is Some,
            r matches Some(segs) ==> Some(segs@) == seg_invert_spec(*self, circle),
            r matches Some(segs) ==> forall|i: int|
                0 <= i < segs@.len() ==> (#[trigger] segs@[i]).wf(),
    {
        let points = match self.weighted_split(circle.center(), 30) {
            None => {
                return None;
            },
            Some(ps) => ps,
        };
        let mut out: Vec<LineSegment> = Vec::new();
        let mut prev: Option<Point> = None;
        let mut i: usize = 0;
        let ghost chain = seg_invert_chain(points@, circle, 0, None, Seq::empty());
        proof {
            assert(out@ =~= Seq::<LineSegment>::empty());
        }
        while i < points.len()
            invariant
                circle.wf(),
                i <= points@.len(),
                forall|k: int| 0 <= k < points@.len() ==> (#[trigger] points@[k]).wf(),
                forall|k: int| 0 <= k < out@.len() ==> (#[trigger] out@[k]).wf(),
                prev matches Some(p) ==> p.wf(),
                seg_invert_chain(points@, circle, i as int, prev, out@) == chain,
            decreases points@.len() - i,
        {
            let x = points[i];
            match x.invert_over_circle(circle) {
                None => {},
                Some(q) => {
                    match prev {
                        None => {},
                        Some(p) => {
                            out.push(LineSegment { start: p, end: q });
                        },
                    }
                    prev = Some(q);
                },
            }
            i = i + 1;
        }
        proof {
            assert(seg_invert_spec(*self, circle) == Some(chain));
        }
        Some(out)
    }
}

/// The fold that joins consecutive inverted samples into segments,
/// skipping samples whose inversion is undefined or out of range.
pub open spec fn seg_invert_chain(
    points: Seq<Point>,
    circle: crate::circle::Circle,
    k: int,
    prev: Option<Point>,
    out: Seq<LineSegment>,
) -> Seq<LineSegment>
    decreases points.len() - k,
{
    if k >= points.len() {
        out
    } else {
        match crate::point::pt_invert(points[k], circle) {
            None => seg_invert_chain(points, circle, k + 1, prev, out),
            Some(q) => match prev {
                None => seg_invert_chain(points, circle, k + 1, Some(q), out),
                Some(p) => seg_invert_chain(
                    points,
                    circle,
                    k + 1,
                    Some(q),
                    out.push(LineSegment { start: p, end: q }),
                ),
            },
        }
    }
}

/// Mirror of `LineSegment::invert_over_circle`: resample, invert every
/// sample, join consecutive images.
pub open spec fn seg_invert_spec(s: LineSegment, circle: crate::circle::Circle) -> Option<
    Seq<LineSegment>,
> {
    match weighted_split_spec(s, circle.center, 30) {
        None => None,
        Some(ps) => Some(seg_invert_chain(ps, circle, 0, None, Seq::empty())),
    }
}

/// Reflecting a segment twice across the same line restores both endpoints.
pub proof fn lemma_segment_reflect_line_involution(
    s: LineSegment,
    l: Line,
    t: LineSegment,
    u: LineSegment,
)
    requires
        s.wf(),
        l.wf(),
        seg_reflect_line(s, l) == Some(t),
        seg_reflect_line(t, l) == Some(u),
    ensures
        pt_eq(u.start, s.start),
        pt_eq(u.end, s.end),
{
    crate::point::lemma_reflect_line_involution(s.start, l, t.start, u.start);
    crate::point::lemma_reflect_line_involution(s.end, l, t.end, u.end);
}

/// Reflecting a segment twice through the same point restores both
/// endpoints.
pub proof fn lemma_segment_reflect_point_involution(
    s: LineSegment,
    o: Point,
    t: LineSegment,
    u: LineSegment,
)
    requires
        s.wf(),
        o.wf(),
        seg_reflect_point(s, o) == Some(t),
        seg_reflect_point(t, o) == Some(u),
    ensures
        pt_eq(u.start, s.start),
        pt_eq(u.end, s.end),
{
    crate::point::lemma_reflect_point_involution(s.start, o, t.start, u.start);
    crate::point::lemma_reflect_point_involution(s.end, o, t.end, u.end);
}

} // verus!
