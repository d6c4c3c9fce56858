//! Exact points of the plane.
//!
//! A `Point` stores both coordinates over one shared positive denominator:
//! `(xn / den, yn / den)`. The shared denominator keeps every geometric
//! predicate (side of a line, containment in a segment's span) decidable in
//! 128-bit arithmetic without any rounding. Operations that produce new
//! points normalise through `norm_point` and report `None` when the exact
//! result no longer fits the coordinate bound.

use vstd::prelude::*;

verus! {

use crate::rat::{
    Rat, COORD_LIMIT, RAW_LIMIT, abs_int, gcd, norm_rat, norm_rat_exec, gcd_u128,
    lemma_gcd_divides, lemma_div_exact, lemma_div_neg_exact, lemma_divides_trans,
    lemma_mul_range, lemma_abs_mul_le, lemma_norm_rat_some, lemma_cancel_mul,
};

/// An exact point `(xn / den, yn / den)` with `1 <= den`.
#[derive(Clone, Copy, Debug, PartialEq, Eq, Structural)]
pub struct Point {
    pub xn: i64,
    pub yn: i64,
    pub den: i64,
}

impl Point {
    /// Fields bounded and the shared denominator positive.
    pub open spec fn wf(self) -> bool {
        &&& 1 <= self.den <= COORD_LIMIT
        &&& -COORD_LIMIT <= self.xn <= COORD_LIMIT
        &&& -COORD_LIMIT <= self.yn <= COORD_LIMIT
    }
}

/// `p` and `q` denote the same point of the plane.
pub open spec fn pt_eq(p: Point, q: Point) -> bool {
    &&& p.xn * q.den == q.xn * p.den
    &&& p.yn * q.den == q.yn * p.den
}

/// Reduce `(xn / d, yn / d)` by the common gcd and keep it only if it fits.
pub open spec fn norm_point(xn: int, yn: int, d: int) -> Option<Point>
    recommends
        d >= 1,
{
    let g = gcd(gcd(abs_int(xn) as nat, abs_int(yn) as nat), d as nat) as int;
    let rx = xn / g;
    let ry = yn / g;
    let rd = d / g;
    if -COORD_LIMIT <= rx <= COORD_LIMIT && -COORD_LIMIT <= ry <= COORD_LIMIT && rd <= COORD_LIMIT {
        Some(Point { xn: rx as i64, yn: ry as i64, den: rd as i64 })
    } else {
        None
    }
}

/// A successful point normalisation is well formed and keeps both values.
pub proof fn lemma_norm_point_some(xn: int, yn: int, d: int)
    requires
        d >= 1,
        norm_point(xn, yn, d) is Some,
    ensures
        norm_point(xn, yn, d).unwrap().wf(),
        norm_point(xn, yn, d).unwrap().xn * d == xn * norm_point(xn, yn, d).unwrap().den,
        norm_point(xn, yn, d).unwrap().yn * d == yn * norm_point(xn, yn, d).unwrap().den,
{
    let g1 = gcd(abs_int(xn) as nat, abs_int(yn) as nat);
    let g = gcd(g1, d as nat) as int;
    lemma_gcd_divides(g1, d as nat);
    assert(g >= 1);
    lemma_gcd_divides(abs_int(xn) as nat, abs_int(yn) as nat);
    if g1 > 0 {
        lemma_divides_trans(g, g1 as int, abs_int(xn));
        lemma_divides_trans(g, g1 as int, abs_int(yn));
    } else {
        assert(xn == 0 && yn == 0);
    }
    if xn < 0 {
        lemma_div_neg_exact(xn, g);
    }
    if yn < 0 {
        lemma_div_neg_exact(yn, g);
    }
    lemma_div_exact(xn, g);
    lemma_div_exact(yn, g);
    lemma_div_exact(d, g);
    let rx = xn / g;
    let ry = yn / g;
    let rd = d / g;
    assert(rd >= 1) by (nonlinear_arith)
        requires
            d == g * rd,
            d >= 1,
            g >= 1,
    ;
    assert(rx * d == xn * rd && ry * d == yn * rd) by (nonlinear_arith)
        requires
            xn == g * rx,
            yn == g * ry,
            d == g * rd,
    ;
}

/// Normalise the exact point `(xn / d, yn / d)` into a bounded `Point`.
pub fn norm_point_exec(xn: i128, yn: i128, d: i128) -> (r: Option<Point>)
    requires
        1 <= d <= RAW_LIMIT,
        -RAW_LIMIT <= xn <= RAW_LIMIT,
        -RAW_LIMIT <= yn <= RAW_LIMIT,
    ensures
        r == norm_point(xn as int, yn as int, d as int),
{
    let ux: u128 = if xn < 0 {
        (-xn) as u128
    } else {
        xn as u128
    };
    let uy: u128 = if yn < 0 {
        (-yn) as u128
    } else {
        yn as u128
    };
    let ud: u128 = d as u128;
    let g1: u128 = gcd_u128(ux, uy);
    let g: u128 = gcd_u128(g1, ud);
    proof {
        lemma_gcd_divides(g1 as nat, ud as nat);
        lemma_gcd_divides(ux as nat, uy as nat);
        if g1 > 0 {
            lemma_divides_trans(g as int, g1 as int, ux as int);
            lemma_divides_trans(g as int, g1 as int, uy as int);
        }
        lemma_div_exact(ud as int, g as int);
        assert(ud as int / g as int >= 1) by (nonlinear_arith)
            requires
                ud as int == g as int * (ud as int / g as int),
                ud >= 1,
                g >= 1,
        ;
        if xn < 0 {
            lemma_div_neg_exact(xn as int, g as int);
        }
        if yn < 0 {
            lemma_div_neg_exact(yn as int, g as int);
        }
    }
    let rx: u128 = ux / g;
    let ry: u128 = uy / g;
    let rd: u128 = ud / g;
    if rx > COORD_LIMIT as u128 || ry > COORD_LIMIT as u128 || rd > COORD_LIMIT as u128 {
        None
    } else {
        let nx: i64 = if xn < 0 {
            -(rx as i64)
        } else {
            rx as i64
        };
        let ny: i64 = if yn < 0 {
            -(ry as i64)
        } else {
            ry as i64
        };
        Some(Point { xn: nx, yn: ny, den: rd as i64 })
    }
}

/// Mirror of `Point::add`.
pub open spec fn pt_add(p: Point, q: Point) -> Option<Point> {
    norm_point(p.xn * q.den + q.xn * p.den, p.yn * q.den + q.yn * p.den, p.den * q.den)
}

/// Mirror of `Point::sub`.
pub open spec fn pt_sub(p: Point, q: Point) -> Option<Point> {
    norm_point(p.xn * q.den - q.xn * p.den, p.yn * q.den - q.yn * p.den, p.den * q.den)
}

/// Mirror of `Point::scale`.
pub open spec fn pt_scale(p: Point, s: Rat) -> Option<Point> {
    norm_point(p.xn * s.num, p.yn * s.num, p.den * s.den)
}

/// Mirror of `Point::dot`.
pub open spec fn pt_dot(p: Point, q: Point) -> Option<Rat> {
    norm_rat(p.xn * q.xn + p.yn * q.yn, p.den * q.den)
}

/// Mirror of `Point::reflect_over_point`: the image of `p` under the point
/// reflection with centre `o`, that is `2·o - p`.
pub open spec fn pt_reflect_point(p: Point, o: Point) -> Option<Point> {
    norm_point(
        2 * (o.xn * p.den) - p.xn * o.den,
        2 * (o.yn * p.den) - p.yn * o.den,
        p.den * o.den,
    )
}

impl Point {
    /// The point `(x, y)` with integer coordinates.
    pub fn from_ints(x: i64, y: i64) -> (r: Point)
        requires
            -COORD_LIMIT <= x <= COORD_LIMIT,
            -COORD_LIMIT <= y <= COORD_LIMIT,
        ensures
            r.wf(),
            r.xn == x,
            r.yn == y,
            r.den == 1,
    {
        Point { xn: x, yn: y, den: 1 }
    }

    /// The point with the given rational coordinates.
    pub fn new(x: Rat, y: Rat) -> (r: Option<Point>)
        requires
            x.wf(),
            y.wf(),
        ensures
            r == norm_point(x.num * y.den as int, y.num * x.den as int, x.den * y.den as int),
            r matches Some(p) ==> p.wf() && p.xn * x.den == x.num * p.den && p.yn * y.den == y.num
                * p.den,
    {
        proof {
            lemma_mul_range(x.num as int, y.den as int, COORD_LIMIT as int);
            lemma_mul_range(y.num as int, x.den as int, COORD_LIMIT as int);
            lemma_mul_range(x.den as int, y.den as int, COORD_LIMIT as int);
        }
        let xn: i128 = (x.num as i128) * (y.den as i128);
        let yn: i128 = (y.num as i128) * (x.den as i128);
        let d: i128 = (x.den as i128) * (y.den as i128);
        let r = norm_point_exec(xn, yn, d);
        proof {
            if r is Some {
                lemma_norm_point_some(xn as int, yn as int, d as int);
                let p = r.unwrap();
                assert(p.xn * x.den == x.num * p.den && p.yn * y.den == y.num * p.den)
                    by (nonlinear_arith)
                    requires
                        p.xn * d == xn * p.den,
                        p.yn * d == yn * p.den,
                        xn == x.num * y.den,
                        yn == y.num * x.den,
                        d == x.den * y.den,
                        x.den >= 1,
                        y.den >= 1,
                        p.den >= 1,
                ;
            }
        }
        r
    }

    /// The first coordinate as a rational.
    pub fn x(&self) -> (r: Rat)
        requires
            self.wf(),
        ensures
            r.wf(),
            r.num == self.xn,
            r.den == self.den,
    {
        Rat { num: self.xn, den: self.den }
    }

    /// The second coordinate as a rational.
    pub fn y(&self) -> (r: Rat)
        requires
            self.wf(),
        ensures
            r.wf(),
            r.num == self.yn,
            r.den == self.den,
    {
        Rat { num: self.yn, den: self.den }
    }

    /// Exact vector sum.
    pub fn add(self, q: Point) -> (r: Option<Point>)
        requires
            self.wf(),
            q.wf(),
        ensures
            r == pt_add(self, q),
            r matches Some(s) ==> s.wf() && s.xn * (self.den * q.den) == (self.xn * q.den + q.xn
                * self.den) * s.den && s.yn * (self.den * q.den) == (self.yn * q.den + q.yn
                * self.den) * s.den,
    {
        proof {
            lemma_mul_range(self.xn as int, q.den as int, COORD_LIMIT as int);
            lemma_mul_range(q.xn as int, self.den as int, COORD_LIMIT as int);
            lemma_mul_range(self.yn as int, q.den as int, COORD_LIMIT as int);
            lemma_mul_range(q.yn as int, self.den as int, COORD_LIMIT as int);
            lemma_mul_range(self.den as int, q.den as int, COORD_LIMIT as int);
        }
        let xn: i128 = (self.xn as i128) * (q.den as i128) + (q.xn as i128) * (self.den as i128);
        let yn: i128 = (self.yn as i128) * (q.den as i128) + (q.yn as i128) * (self.den as i128);
        let d: i128 = (self.den as i128) * (q.den as i128);
        let r = norm_point_exec(xn, yn, d);
        proof {
            if r is Some {
                lemma_norm_point_some(xn as int, yn as int, d as int);
            }
        }
        r
    }

    /// Exact vector difference.
    pub fn sub(self, q: Point) -> (r: Option<Point>)
        requires
            self.wf(),
            q.wf(),
        ensures
            r == pt_sub(self, q),
            r matches Some(s) ==> s.wf() && s.xn * (self.den * q.den) == (self.xn * q.den - q.xn
                * self.den) * s.den && s.yn * (self.den * q.den) == (self.yn * q.den - q.yn
                * self.den) * s.den,
    {
        proof {
            lemma_mul_range(self.xn as int, q.den as int, COORD_LIMIT as int);
            lemma_mul_range(q.xn as int, self.den as int, COORD_LIMIT as int);
            lemma_mul_range(self.yn as int, q.den as int, COORD_LIMIT as int);
            lemma_mul_range(q.yn as int, self.den as int, COORD_LIMIT as int);
            lemma_mul_range(self.den as int, q.den as int, COORD_LIMIT as int);
        }
        let xn: i128 = (self.xn as i128) * (q.den as i128) - (q.xn as i128) * (self.den as i128);
        let yn: i128 = (self.yn as i128) * (q.den as i128) - (q.yn as i128) * (self.den as i128);
        let d: i128 = (self.den as i128) * (q.den as i128);
        let r = norm_point_exec(xn, yn, d);
        proof {
            if r is Some {
                lemma_norm_point_some(xn as int, yn as int, d as int);
            }
        }
        r
    }

    /// Exact scaling by a rational factor.
    pub fn scale(self, s: Rat) -> (r: Option<Point>)
        requires
            self.wf(),
            s.wf(),
        ensures
            r == pt_scale(self, s),
            r matches Some(p) ==> p.wf() && p.xn * (self.den * s.den) == (self.xn * s.num) * p.den
                && p.yn * (self.den * s.den) == (self.yn * s.num) * p.den,
    {
        proof {
            lemma_mul_range(self.xn as int, s.num as int, COORD_LIMIT as int);
            lemma_mul_range(self.yn as int, s.num as int, COORD_LIMIT as int);
            lemma_mul_range(self.den as int, s.den as int, COORD_LIMIT as int);
        }
        let xn: i128 = (self.xn as i128) * (s.num as i128);
        let yn: i128 = (self.yn as i128) * (s.num as i128);
        let d: i128 = (self.den as i128) * (s.den as i128);
        let r = norm_point_exec(xn, yn, d);
        proof {
            if r is Some {
                lemma_norm_point_some(xn as int, yn as int, d as int);
            }
        }
        r
    }

    /// Exact dot product.
    pub fn dot(self, q: Point) -> (r: Option<Rat>)
        requires
            self.wf(),
            q.wf(),
        ensures
            r == pt_dot(self, q),
            r matches Some(s) ==> s.wf() && s.num * (self.den * q.den) == (self.xn * q.xn + self.yn
                * q.yn) * s.den,
    {
        proof {
            lemma_mul_range(self.xn as int, q.xn as int, COORD_LIMIT as int);
            lemma_mul_range(self.yn as int, q.yn as int, COORD_LIMIT as int);
            lemma_mul_range(self.den as int, q.den as int, COORD_LIMIT as int);
        }
        let n: i128 = (self.xn as i128) * (q.xn as i128) + (self.yn as i128) * (q.yn as i128);
        let d: i128 = (self.den as i128) * (q.den as i128);
        let r = norm_rat_exec(n, d);
        proof {
            if r is Some {
                lemma_norm_rat_some(n as int, d as int);
            }
        }
        r
    }

    /// Exact equality as points of the plane, whatever the representation.
    pub fn eq_pt(self, q: Point) -> (r: bool)
        requires
            self.wf(),
            q.wf(),
        ensures
            r == pt_eq(self, q),
    {
        proof {
            lemma_mul_range(self.xn as int, q.den as int, COORD_LIMIT as int);
            lemma_mul_range(q.xn as int, self.den as int, COORD_LIMIT as int);
            lemma_mul_range(self.yn as int, q.den as int, COORD_LIMIT as int);
            lemma_mul_range(q.yn as int, self.den as int, COORD_LIMIT as int);
        }
        (self.xn as i128) * (q.den as i128) == (q.xn as i128) * (self.den as i128)
            && (self.yn as i128) * (q.den as i128) == (q.yn as i128) * (self.den as i128)
    }

    /// Reflect this point through the point `origin`: `2·origin - self`.
    pub fn reflect_over_point(&self, origin: Point) -> (r: Option<Point>)
        requires
            self.wf(),
            origin.wf(),
        ensures
            r == pt_reflect_point(*self, origin),
            r matches Some(q) ==> q.wf() && q.xn * (self.den * origin.den) == (2 * (origin.xn
                * self.den) - self.xn * origin.den) * q.den && q.yn * (self.den * origin.den) == (2
                * (origin.yn * self.den) - self.yn * origin.den) * q.den,
    {
        proof {
            lemma_mul_range(origin.xn as int, self.den as int, COORD_LIMIT as int);
            lemma_mul_range(origin.yn as int, self.den as int, COORD_LIMIT as int);
            lemma_mul_range(self.xn as int, origin.den as int, COORD_LIMIT as int);
            lemma_mul_range(self.yn as int, origin.den as int, COORD_LIMIT as int);
            lemma_mul_range(self.den as int, origin.den as int, COORD_LIMIT as int);
        }
        let xn: i128 = 2 * ((origin.xn as i128) * (self.den as i128)) - (self.xn as i128) * (origin.den as i128);
        let yn: i128 = 2 * ((origin.yn as i128) * (self.den as i128)) - (self.yn as i128) * (origin.den as i128);
        let d: i128 = (self.den as i128) * (origin.den as i128);
        let r = norm_point_exec(xn, yn, d);
        proof {
            if r is Some {
                lemma_norm_point_some(xn as int, yn as int, d as int);
            }
        }
        r
    }
}

/// Mirror of `Point::reflect_over_line`: the image of `p` under reflection
/// across the line `l`, that is `p - 2·(p·n + c)/(n·n) · n` for the normal
/// `n = (l.a, l.b)`, cleared of denominators.
pub open spec fn pt_reflect_line(p: Point, l: crate::segments::Line) -> Option<Point> {
    let s = l.a * p.xn + l.b * p.yn + l.c * p.den;
    let n2 = l.a * l.a + l.b * l.b;
    norm_point(p.xn * n2 - 2 * (s * l.a), p.yn * n2 - 2 * (s * l.b), p.den * n2)
}

impl Point {
    /// Reflect this point across the given line.
    pub fn reflect_over_line(&self, line: crate::segments::Line) -> (r: Option<Point>)
        requires
            self.wf(),
            line.wf(),
        ensures
            r == pt_reflect_line(*self, line),
            r matches Some(q) ==> q.wf() && ({
                let s = line.a * self.xn + line.b * self.yn + line.c * self.den;
                let n2 = line.a * line.a + line.b * line.b;
                &&& q.xn * (self.den * n2) == (self.xn * n2 - 2 * (s * line.a)) * q.den
                &&& q.yn * (self.den * n2) == (self.yn * n2 - 2 * (s * line.b)) * q.den
            }),
    {
        let ghost lm: int = COORD_LIMIT as int;
        proof {
            lemma_mul_range(line.a as int, self.xn as int, lm);
            lemma_mul_range(line.b as int, self.yn as int, lm);
            lemma_mul_range(line.c as int, self.den as int, lm);
            lemma_mul_range(line.a as int, line.a as int, lm);
            lemma_mul_range(line.b as int, line.b as int, lm);
            assert(line.a as int * line.a + line.b as int * line.b >= 1) by (nonlinear_arith)
                requires
                    !(line.a as int == 0 && line.b as int == 0),
            ;
        }
        let s: i128 = (line.a as i128) * (self.xn as i128) + (line.b as i128) * (self.yn as i128)
            + (line.c as i128) * (self.den as i128);
        let n2: i128 = (line.a as i128) * (line.a as i128) + (line.b as i128) * (line.b as i128);
        proof {
            lemma_abs_mul_le(s as int, line.a as int, 3 * (lm * lm), lm);
            lemma_abs_mul_le(s as int, line.b as int, 3 * (lm * lm), lm);
            lemma_abs_mul_le(self.xn as int, n2 as int, lm, 2 * (lm * lm));
            lemma_abs_mul_le(self.yn as int, n2 as int, lm, 2 * (lm * lm));
            lemma_abs_mul_le(self.den as int, n2 as int, lm, 2 * (lm * lm));
            assert(self.den as int * n2 >= 1) by (nonlinear_arith)
                requires
                    self.den >= 1,
                    n2 >= 1,
            ;
        }
        let xn: i128 = (self.xn as i128) * n2 - 2 * (s * (line.a as i128));
        let yn: i128 = (self.yn as i128) * n2 - 2 * (s * (line.b as i128));
        let d: i128 = (self.den as i128) * n2;
        let r = norm_point_exec(xn, yn, d);
        proof {
            if r is Some {
                lemma_norm_point_some(xn as int, yn as int, d as int);
            }
        }
        r
    }
}

/// Mirror of `Point::invert_over_circle`: the image of `p` under inversion
/// in the circle `c`, that is `centre + (p - centre)·r²/|p - centre|²`,
/// undefined at the centre itself.
pub open spec fn pt_invert(p: Point, c: crate::circle::Circle) -> Option<Point> {
    match pt_sub(p, c.center) {
        None => None,
        Some(df) => if df.xn == 0 && df.yn == 0 {
            None
        } else {
            match pt_dot(df, df) {
                None => None,
                Some(d2) => match crate::rat::rat_mul(c.radius, c.radius) {
                    None => None,
                    Some(r2) => match crate::rat::rat_div(r2, d2) {
                        None => None,
                        Some(f) => match pt_scale(df, f) {
                            None => None,
                            Some(sc) => pt_add(c.center, sc),
                        },
                    },
                },
            }
        },
    }
}

impl Point {
    /// Invert this point in the given circle. `None` when the point is the
    /// centre (the map has no finite image there) or the exact result no
    /// longer fits the coordinate bound.
    pub fn invert_over_circle(&self, circle: crate::circle::Circle) -> (r: Option<Point>)
        requires
            self.wf(),
            circle.wf(),
        ensures
            r == pt_invert(*self, circle),
            r matches Some(q) ==> q.wf(),
    {
        let center = circle.center();
        let df = match self.sub(center) {
            None => {
                return None;
            },
            Some(df) => df,
        };
        if df.xn == 0 && df.yn == 0 {
            return None;
        }
        let d2 = match df.dot(df) {
            None => {
                return None;
            },
            Some(d2) => d2,
        };
        proof {
            lemma_mul_range(df.den as int, df.den as int, COORD_LIMIT as int);
            lemma_norm_rat_some(
                df.xn * df.xn + df.yn * df.yn,
                df.den * df.den,
            );
            assert(df.xn * df.xn + df.yn * df.yn >= 1) by (nonlinear_arith)
                requires
                    !(df.xn == 0 && df.yn == 0),
            ;
            assert(d2.num >= 1) by (nonlinear_arith)
                requires
                    d2.num * (df.den * df.den) == (df.xn * df.xn + df.yn * df.yn) * d2.den,
                    df.xn * df.xn + df.yn * df.yn >= 1,
                    d2.den >= 1,
                    df.den * df.den >= 1,
            ;
        }
        let radius = circle.radius();
        let r2 = match radius.mul(radius) {
            None => {
                return None;
            },
            Some(r2) => r2,
        };
        let f = match r2.div(d2) {
            None => {
                return None;
            },
            Some(f) => f,
        };
        let sc = match df.scale(f) {
            None => {
                return None;
            },
            Some(sc) => sc,
        };
        center.add(sc)
    }
}

/// Ring identity: distribute a three-term sum over a factor.
proof fn nl_distrib3(a: int, b: int, c: int, x: int, y: int, z: int, m: int)
    ensures
        (a * x + b * y + c * z) * m == a * (x * m) + b * (y * m) + c * (z * m),
{
    broadcast use vstd::arithmetic::mul::group_mul_is_commutative_and_distributive,
        vstd::arithmetic::mul::lemma_mul_is_associative;

}

/// Ring identity: distribute a three-term sum of products over a factor.
proof fn nl_distrib_sum3(u: int, v: int, w: int, m: int)
    by (nonlinear_arith)
    ensures
        (u + v + w) * m == u * m + v * m + w * m,
{
}

/// Ring identity: distribute a two-term sum of products over a factor.
proof fn nl_distrib_sum2(u: int, v: int, m: int)
    by (nonlinear_arith)
    ensures
        (u + v) * m == u * m + v * m,
{
}

/// Ring identity: expand one reflected coordinate times its coefficient.
proof fn nl_refl_expand(a: int, px: int, n2: int, s: int, qd: int)
    ensures
        a * ((px * n2 - 2 * (s * a)) * qd) == (a * px) * (n2 * qd) - 2 * ((a * a) * (s * qd)),
{
    broadcast use vstd::arithmetic::mul::group_mul_is_commutative_and_distributive,
        vstd::arithmetic::mul::lemma_mul_is_associative;

}

/// Ring identity: regroup a four-factor product.
proof fn nl_swap4(c: int, qd: int, pd: int, n2: int)
    by (nonlinear_arith)
    ensures
        c * (qd * (pd * n2)) == (c * pd) * (n2 * qd),
{
}

/// Ring identity: rotate a three-factor product.
proof fn nl_rot(s: int, n2: int, qd: int)
    by (nonlinear_arith)
    ensures
        s * (n2 * qd) == n2 * (s * qd),
{
}

/// Ring identity: push a negation through a product.
proof fn nl_neg(s: int, n2: int, qd: int)
    by (nonlinear_arith)
    ensures
        -(s * n2) * qd == -(s * (n2 * qd)),
{
}

/// Ring identity: expand the second reflection times the first denominator.
proof fn nl_axis_expand(qx: int, n2: int, sp: int, a: int, rd: int, m1: int)
    ensures
        ((qx * n2 - 2 * (sp * a)) * rd) * m1 == (qx * m1) * (n2 * rd) - 2 * ((a * rd) * (sp
            * m1)),
{
    broadcast use vstd::arithmetic::mul::group_mul_is_commutative_and_distributive,
        vstd::arithmetic::mul::lemma_mul_is_associative;

}

/// Ring identity: the negated side form absorbed into the cross factor.
proof fn nl_axis_neg(a: int, rd: int, s: int, n2: int, qd: int)
    by (nonlinear_arith)
    ensures
        (a * rd) * (-(s * n2) * qd) == -((s * a) * (qd * (n2 * rd))),
{
}

/// Ring identity: associativity of multiplication.
proof fn nl_assoc(x: int, y: int, z: int)
    by (nonlinear_arith)
    ensures
        (x * y) * z == x * (y * z),
{
}

/// Ring identity: distribute a difference over a factor.
proof fn nl_sub_distrib(u: int, v: int, k: int)
    by (nonlinear_arith)
    ensures
        (u - 2 * v) * k == u * k - 2 * (v * k),
{
}

/// Ring identity: exchange a denominator for a numerator across squares.
proof fn nl_ac5(px: int, n2: int, qd: int, rd: int)
    by (nonlinear_arith)
    ensures
        (px * n2) * (qd * (n2 * rd)) == (px * rd) * (qd * (n2 * n2)),
{
}

/// Ring identity: regroup the five-factor product on the left-hand side.
proof fn nl_ac5b(rx: int, qd: int, n2: int, pd: int)
    by (nonlinear_arith)
    ensures
        (rx * (qd * n2)) * (pd * n2) == (rx * pd) * (qd * (n2 * n2)),
{
}

/// A product of positives is positive.
proof fn nl_pos(qd: int, n2: int)
    by (nonlinear_arith)
    requires
        qd >= 1,
        n2 >= 1,
    ensures
        qd * (n2 * n2) >= 1,
{
}

/// The side form of the once-reflected point is the negation of the side
/// form of the original, scaled by the positive factors introduced.
proof fn lemma_reflect_line_side(
    a: int,
    b: int,
    c: int,
    px: int,
    py: int,
    pd: int,
    qx: int,
    qy: int,
    qd: int,
    s: int,
    sp: int,
    n2: int,
)
    requires
        s == a * px + b * py + c * pd,
        sp == a * qx + b * qy + c * qd,
        n2 == a * a + b * b,
        qx * (pd * n2) == (px * n2 - 2 * (s * a)) * qd,
        qy * (pd * n2) == (py * n2 - 2 * (s * b)) * qd,
    ensures
        sp * (pd * n2) == -(s * n2) * qd,
{
    nl_distrib3(a, b, c, qx, qy, qd, pd * n2);
    assert(sp * (pd * n2) == a * (qx * (pd * n2)) + b * (qy * (pd * n2)) + c * (qd * (pd * n2)));
    nl_refl_expand(a, px, n2, s, qd);
    nl_refl_expand(b, py, n2, s, qd);
    nl_swap4(c, qd, pd, n2);
    nl_distrib_sum3(a * px, b * py, c * pd, n2 * qd);
    assert((a * px + b * py + c * pd) * (n2 * qd) == s * (n2 * qd));
    nl_distrib_sum2(a * a, b * b, s * qd);
    assert((a * a + b * b) * (s * qd) == n2 * (s * qd));
    nl_rot(s, n2, qd);
    nl_neg(s, n2, qd);
    assert(sp * (pd * n2) == s * (n2 * qd) - 2 * (n2 * (s * qd)));
}

/// One coordinate of a double line reflection: with the side form negated
/// once, the second reflection lands back on the original coordinate.
proof fn lemma_reflect_line_axis(
    px: int,
    pd: int,
    a: int,
    s: int,
    sp: int,
    n2: int,
    qx: int,
    qd: int,
    rx: int,
    rd: int,
)
    requires
        qx * (pd * n2) == (px * n2 - 2 * (s * a)) * qd,
        rx * (qd * n2) == (qx * n2 - 2 * (sp * a)) * rd,
        sp * (pd * n2) == -(s * n2) * qd,
        pd >= 1,
        qd >= 1,
        n2 >= 1,
    ensures
        rx * pd == px * rd,
{
    nl_axis_expand(qx, n2, sp, a, rd, pd * n2);
    assert((rx * (qd * n2)) * (pd * n2) == (qx * (pd * n2)) * (n2 * rd) - 2 * ((a * rd) * (sp
        * (pd * n2))));
    nl_axis_neg(a, rd, s, n2, qd);
    assert((rx * (qd * n2)) * (pd * n2) == ((px * n2 - 2 * (s * a)) * qd) * (n2 * rd) + 2 * ((s
        * a) * (qd * (n2 * rd))));
    nl_assoc(px * n2 - 2 * (s * a), qd, n2 * rd);
    nl_sub_distrib(px * n2, s * a, qd * (n2 * rd));
    nl_ac5(px, n2, qd, rd);
    assert((rx * (qd * n2)) * (pd * n2) == (px * rd) * (qd * (n2 * n2)));
    nl_ac5b(rx, qd, n2, pd);
    assert((rx * pd) * (qd * (n2 * n2)) == (px * rd) * (qd * (n2 * n2)));
    nl_pos(qd, n2);
    lemma_cancel_mul(rx * pd, px * rd, qd * (n2 * n2));
}

/// Reflecting twice across the same line restores the original point.
pub proof fn lemma_reflect_line_involution(
    p: Point,
    l: crate::segments::Line,
    q: Point,
    r: Point,
)
    requires
        p.wf(),
        l.wf(),
        pt_reflect_line(p, l) == Some(q),
        pt_reflect_line(q, l) == Some(r),
    ensures
        pt_eq(r, p),
{
    let s: int = l.a * p.xn + l.b * p.yn + l.c * p.den;
    let sp: int = l.a * q.xn + l.b * q.yn + l.c * q.den;
    let n2: int = l.a * l.a + l.b * l.b;
    assert(n2 >= 1) by (nonlinear_arith)
        requires
            !(l.a == 0 && l.b == 0),
            n2 == l.a * l.a + l.b * l.b,
    ;
    assert(p.den * n2 >= 1) by (nonlinear_arith)
        requires
            p.den >= 1,
            n2 >= 1,
    ;
    lemma_norm_point_some(p.xn * n2 - 2 * (s * l.a), p.yn * n2 - 2 * (s * l.b), p.den * n2);
    assert(q.den * n2 >= 1) by (nonlinear_arith)
        requires
            q.den >= 1,
            n2 >= 1,
    ;
    lemma_norm_point_some(q.xn * n2 - 2 * (sp * l.a), q.yn * n2 - 2 * (sp * l.b), q.den * n2);
    lemma_reflect_line_side(
        l.a as int,
        l.b as int,
        l.c as int,
        p.xn as int,
        p.yn as int,
        p.den as int,
        q.xn as int,
        q.yn as int,
        q.den as int,
        s,
        sp,
        n2,
    );
    lemma_reflect_line_axis(
        p.xn as int,
        p.den as int,
        l.a as int,
        s,
        sp,
        n2,
        q.xn as int,
        q.den as int,
        r.xn as int,
        r.den as int,
    );
    lemma_reflect_line_axis(
        p.yn as int,
        p.den as int,
        l.b as int,
        s,
        sp,
        n2,
        q.yn as int,
        q.den as int,
        r.yn as int,
        r.den as int,
    );
}

/// One coordinate of a double point reflection: the two reflection
/// characterisations force the final coordinate back onto the original.
#[verifier::rlimit(50)]
proof fn lemma_reflect_point_axis(
    px: int,
    pd: int,
    ox: int,
    od: int,
    qx: int,
    qd: int,
    rx: int,
    rd: int,
)
    requires
        qx * (pd * od) == (2 * (ox * pd) - px * od) * qd,
        rx * (qd * od) == (2 * (ox * qd) - qx * od) * rd,
        pd >= 1,
        od >= 1,
        qd >= 1,
    ensures
        rx * pd == px * rd,
{
    let u = 2 * (ox * pd) - px * od;
    let t = 2 * (ox * qd) - qx * od;
    let m = qd * (od * rd);
    assert(rx * (qd * od) * (pd * od) == t * rd * (pd * od)) by (nonlinear_arith)
        requires
            rx * (qd * od) == t * rd,
    ;
    assert(t * rd * (pd * od) == 2 * (ox * qd) * (rd * (pd * od)) - (qx * (pd * od)) * (od * rd))
        by (nonlinear_arith)
        requires
            t == 2 * (ox * qd) - qx * od,
    ;
    assert((qx * (pd * od)) * (od * rd) == (u * qd) * (od * rd)) by (nonlinear_arith)
        requires
            qx * (pd * od) == u * qd,
    ;
    assert((u * qd) * (od * rd) == u * m) by (nonlinear_arith)
        requires
            m == qd * (od * rd),
    ;
    assert(u * m == 2 * (ox * pd) * m - (px * od) * m) by (nonlinear_arith)
        requires
            u == 2 * (ox * pd) - px * od,
    ;
    assert(2 * (ox * qd) * (rd * (pd * od)) == 2 * (ox * pd) * m) by (nonlinear_arith)
        requires
            m == qd * (od * rd),
    ;
    assert((px * od) * m == (px * rd) * (qd * (od * od))) by (nonlinear_arith)
        requires
            m == qd * (od * rd),
    ;
    assert(rx * (qd * od) * (pd * od) == (rx * pd) * (qd * (od * od))) by (nonlinear_arith);
    assert((rx * pd) * (qd * (od * od)) == (px * rd) * (qd * (od * od)));
    assert(qd * (od * od) >= 1) by (nonlinear_arith)
        requires
            od >= 1,
            qd >= 1,
    ;
    lemma_cancel_mul(rx * pd, px * rd, qd * (od * od));
}

/// Reflecting twice through the same point restores the original point.
pub proof fn lemma_reflect_point_involution(p: Point, o: Point, q: Point, r: Point)
    requires
        p.wf(),
        o.wf(),
        pt_reflect_point(p, o) == Some(q),
        pt_reflect_point(q, o) == Some(r),
    ensures
        pt_eq(r, p),
{
    lemma_mul_range(p.den as int, o.den as int, COORD_LIMIT as int);
    lemma_norm_point_some(
        2 * (o.xn * p.den) - p.xn * o.den,
        2 * (o.yn * p.den) - p.yn * o.den,
        p.den * o.den,
    );
    lemma_mul_range(q.den as int, o.den as int, COORD_LIMIT as int);
    lemma_norm_point_some(
        2 * (o.xn * q.den) - q.xn * o.den,
        2 * (o.yn * q.den) - q.yn * o.den,
        q.den * o.den,
    );
    lemma_reflect_point_axis(
        p.xn as int,
        p.den as int,
        o.xn as int,
        o.den as int,
        q.xn as int,
        q.den as int,
        r.xn as int,
        r.den as int,
    );
    lemma_reflect_point_axis(
        p.yn as int,
        p.den as int,
        o.yn as int,
        o.den as int,
        q.yn as int,
        q.den as int,
        r.yn as int,
        r.den as int,
    );
}


/// Multiplying both sides of an equality by the same factor keeps it.
proof fn lemma_mul_both(a: int, b: int, t: int)
    requires
        a == b,
    ensures
        a * t == b * t,
{
}

/// Scaling a product characterisation by a factor on the left.
proof fn lemma_scale_eq(a: int, b: int, c: int, d: int, t: int)
    requires
        a * b == c * d,
    ensures
        (t * a) * b == (t * c) * d,
{
    assert((t * a) * b == t * (a * b)) by (nonlinear_arith);
    assert((t * c) * d == t * (c * d)) by (nonlinear_arith);
}

/// Eliminate the shared positive factor `s` between two product
/// characterisations: from `x·s == y·k` and `y·m == z·s`, `x·m == z·k`.
proof fn lemma_exchange0(x: int, s: int, y: int, k: int, m: int, z: int)
    requires
        x * s == y * k,
        y * m == z * s,
        s >= 1,
    ensures
        x * m == z * k,
{
    lemma_mul_both(x * s, y * k, m);
    assert((y * k) * m == (y * m) * k) by (nonlinear_arith);
    lemma_mul_both(y * m, z * s, k);
    assert((x * s) * m == (x * m) * s) by (nonlinear_arith);
    assert((z * s) * k == (z * k) * s) by (nonlinear_arith);
    lemma_cancel_mul(x * m, z * k, s);
}

/// Eliminate the shared positive factor `s`, carrying the passenger `w`:
/// from `x·(s·w) == y·k` and `y·m == z·s`, `x·(w·m) == z·k`.
proof fn lemma_exchange(x: int, s: int, w: int, y: int, k: int, m: int, z: int)
    requires
        x * (s * w) == y * k,
        y * m == z * s,
        s >= 1,
    ensures
        x * (w * m) == z * k,
{
    lemma_mul_both(x * (s * w), y * k, m);
    assert((y * k) * m == (y * m) * k) by (nonlinear_arith);
    lemma_mul_both(y * m, z * s, k);
    assert((x * (s * w)) * m == (x * (w * m)) * s) by (nonlinear_arith);
    assert((z * s) * k == (z * k) * s) by (nonlinear_arith);
    lemma_cancel_mul(x * (w * m), z * k, s);
}

/// The algebraic heart of one circle inversion, for one coordinate axis:
/// chaining the stage characterisations and cancelling every intermediate
/// denominator leaves the closed form relating `q - c` to `p - c`.
proof fn lemma_invert_axis_core(
    px: int,
    py: int,
    pd: int,
    cx: int,
    cy: int,
    cd: int,
    rn: int,
    rd: int,
    dfx: int,
    dfy: int,
    dfd: int,
    d2n: int,
    d2d: int,
    r2n: int,
    r2d: int,
    fnum: int,
    fden: int,
    scx: int,
    scd: int,
    qx: int,
    qd: int,
)
    requires
        dfx * (pd * cd) == (px * cd - cx * pd) * dfd,
        dfy * (pd * cd) == (py * cd - cy * pd) * dfd,
        d2n * (dfd * dfd) == (dfx * dfx + dfy * dfy) * d2d,
        r2n * (rd * rd) == (rn * rn) * r2d,
        fnum * (r2d * d2n) == (r2n * d2d) * fden,
        scx * (dfd * fden) == (dfx * fnum) * scd,
        qx * (cd * scd) == (cx * scd + scx * cd) * qd,
        dfx != 0 || dfy != 0,
        pd >= 1,
        cd >= 1,
        dfd >= 1,
        d2d >= 1,
        r2d >= 1,
        fden >= 1,
        scd >= 1,
        qd >= 1,
    ensures
        (qx * cd - cx * qd) * ((rd * rd) * ((px * cd - cx * pd) * (px * cd - cx * pd) + (py * cd
            - cy * pd) * (py * cd - cy * pd))) == ((px * cd - cx * pd) * (rn * rn)) * ((pd * cd)
            * (cd * qd)),
{
    let dpx = px * cd - cx * pd;
    let dpy = py * cd - cy * pd;
    let sp = dpx * dpx + dpy * dpy;
    let sdf = dfx * dfx + dfy * dfy;
    let dfd2 = dfd * dfd;
    let pdcd = pd * cd;
    let pp = pdcd * pdcd;
    let nn = rn * rn;
    let aa = rd * rd;
    let dqx = qx * cd - cx * qd;
    // positivity of the factors to be cancelled
    assert(sdf >= 1) by (nonlinear_arith)
        requires
            sdf == dfx * dfx + dfy * dfy,
            dfx != 0 || dfy != 0,
    ;
    assert(d2n >= 1) by (nonlinear_arith)
        requires
            d2n * (dfd * dfd) == sdf * d2d,
            sdf >= 1,
            d2d >= 1,
            dfd >= 1,
    ;
    assert(pdcd >= 1) by (nonlinear_arith)
        requires
            pdcd == pd * cd,
            pd >= 1,
            cd >= 1,
    ;
    // the translation characterisation, rearranged around q - c
    assert(qx * (cd * scd) == (qx * cd) * scd) by (nonlinear_arith);
    assert((cx * scd + scx * cd) * qd == (cx * qd) * scd + scx * (cd * qd)) by (nonlinear_arith);
    assert((qx * cd - cx * qd) * scd == (qx * cd) * scd - (cx * qd) * scd) by (nonlinear_arith);
    assert(dqx * scd == scx * (cd * qd));
    // eliminate the scaled point: q - c is df scaled by f, up to
    // denominators
    lemma_exchange0(dqx, scd, scx, cd * qd, dfd * fden, dfx * fnum);
    // eliminate the squared radius from the ratio characterisation
    assert((r2n * d2d) * aa == (nn * d2d) * r2d) by (nonlinear_arith)
        requires
            r2n * aa == nn * r2d,
    ;
    lemma_exchange(fnum, r2d, d2n, r2n * d2d, fden, aa, nn * d2d);
    // eliminate the squared distance value
    lemma_scale_eq(d2n, dfd2, sdf, d2d, nn);
    assert((nn * d2d) * sdf == (nn * d2n) * dfd2) by (nonlinear_arith)
        requires
            (nn * d2n) * dfd2 == (nn * sdf) * d2d,
    ;
    assert((nn * d2d) * sdf == ((nn * dfd2)) * d2n) by (nonlinear_arith)
        requires
            (nn * d2d) * sdf == (nn * d2n) * dfd2,
    ;
    lemma_exchange(fnum, d2n, aa, nn * d2d, fden, sdf, nn * dfd2);
    // push the ratio through the scaled difference
    lemma_scale_eq(fnum, aa * sdf, nn * dfd2, fden, dfx);
    assert(dqx * (fden * dfd) == dqx * (dfd * fden)) by (nonlinear_arith);
    assert((dfx * fnum) * (aa * sdf) == (dfx * (nn * dfd2)) * fden) by (nonlinear_arith)
        requires
            (dfx * fnum) * (aa * sdf) == (dfx * (nn * dfd2)) * fden,
    ;
    lemma_exchange(dqx, fden, dfd, dfx * fnum, cd * qd, aa * sdf, dfx * (nn * dfd2));
    // replace the difference numerator by its exact value
    lemma_scale_eq(dfx, pdcd, dpx, dfd, nn * dfd2);
    lemma_exchange(dqx, dfd, aa * sdf, dfx * (nn * dfd2), cd * qd, pdcd, (nn * dfd2) * dpx);
    // the squared distances of the raw and the reduced difference agree
    lemma_mul_both(dfx * pdcd, dpx * dfd, dfx * pdcd);
    assert((dfx * pdcd) * (dfx * pdcd) == (dfx * dfx) * pp) by (nonlinear_arith)
        requires
            pp == pdcd * pdcd,
    ;
    assert((dpx * dfd) * (dfx * pdcd) == (dpx * dfd) * (dpx * dfd)) by {
        lemma_mul_both(dfx * pdcd, dpx * dfd, dpx * dfd);
        assert((dfx * pdcd) * (dpx * dfd) == (dpx * dfd) * (dfx * pdcd)) by (nonlinear_arith);
    }
    assert((dpx * dfd) * (dpx * dfd) == (dpx * dpx) * dfd2) by (nonlinear_arith)
        requires
            dfd2 == dfd * dfd,
    ;
    assert((dfx * dfx) * pp == (dpx * dpx) * dfd2);
    lemma_mul_both(dfy * pdcd, dpy * dfd, dfy * pdcd);
    assert((dfy * pdcd) * (dfy * pdcd) == (dfy * dfy) * pp) by (nonlinear_arith)
        requires
            pp == pdcd * pdcd,
    ;
    assert((dpy * dfd) * (dfy * pdcd) == (dpy * dfd) * (dpy * dfd)) by {
        lemma_mul_both(dfy * pdcd, dpy * dfd, dpy * dfd);
        assert((dfy * pdcd) * (dpy * dfd) == (dpy * dfd) * (dfy * pdcd)) by (nonlinear_arith);
    }
    assert((dpy * dfd) * (dpy * dfd) == (dpy * dpy) * dfd2) by (nonlinear_arith)
        requires
            dfd2 == dfd * dfd,
    ;
    assert((dfy * dfy) * pp == (dpy * dpy) * dfd2);
    assert((dfx * dfx) * pp + (dfy * dfy) * pp == sdf * pp) by (nonlinear_arith)
        requires
            sdf == dfx * dfx + dfy * dfy,
    ;
    assert((dpx * dpx) * dfd2 + (dpy * dpy) * dfd2 == sp * dfd2) by (nonlinear_arith)
        requires
            sp == dpx * dpx + dpy * dpy,
    ;
    assert(sdf * pp == sp * dfd2);
    // trade the raw squared distance for the reduced one
    assert(((nn * dfd2) * dpx) * sp == (dpx * nn) * (sp * dfd2)) by (nonlinear_arith);
    lemma_mul_both(sp * dfd2, sdf * pp, dpx * nn);
    assert((dpx * nn) * (sp * dfd2) == (sp * dfd2) * (dpx * nn)) by (nonlinear_arith);
    assert((sdf * pp) * (dpx * nn) == ((dpx * nn) * pp) * sdf) by (nonlinear_arith);
    assert(((nn * dfd2) * dpx) * sp == ((dpx * nn) * pp) * sdf);
    assert(dqx * ((aa * sdf) * pdcd) == dqx * (sdf * (aa * pdcd))) by (nonlinear_arith);
    lemma_exchange(dqx, sdf, aa * pdcd, (nn * dfd2) * dpx, cd * qd, sp, (dpx * nn) * pp);
    // cancel the shared denominator of p and c
    assert(dqx * ((aa * pdcd) * sp) == (dqx * (aa * sp)) * pdcd) by (nonlinear_arith);
    assert(((dpx * nn) * pp) * (cd * qd) == ((dpx * nn) * (pdcd * (cd * qd))) * pdcd)
        by (nonlinear_arith)
        requires
            pp == pdcd * pdcd,
    ;
    lemma_cancel_mul(dqx * (aa * sp), (dpx * nn) * (pdcd * (cd * qd)), pdcd);
}


/// What one inversion guarantees, in closed form: for each axis, the
/// reduced image satisfies `(q - c)·rd²·|p - c|² == (p - c)·rn²·(pd·cd)·(cd·qd)`,
/// the cross-multiplied statement of `q - c == (p - c)·r²/|p - c|²`.
pub proof fn lemma_invert_char(p: Point, c: crate::circle::Circle, q: Point)
    requires
        p.wf(),
        c.wf(),
        pt_invert(p, c) == Some(q),
    ensures
        q.wf(),
        ({
            let dpx = p.xn * c.center.den - c.center.xn * p.den;
            let dpy = p.yn * c.center.den - c.center.yn * p.den;
            let sp = dpx * dpx + dpy * dpy;
            &&& sp >= 1
            &&& (q.xn * c.center.den - c.center.xn * q.den) * ((c.radius.den * c.radius.den) * sp)
                == (dpx * (c.radius.num * c.radius.num)) * ((p.den * c.center.den) * (c.center.den
                * q.den))
            &&& (q.yn * c.center.den - c.center.yn * q.den) * ((c.radius.den * c.radius.den) * sp)
                == (dpy * (c.radius.num * c.radius.num)) * ((p.den * c.center.den) * (c.center.den
                * q.den))
        }),
{
    let ctr = c.center;
    let rad = c.radius;
    lemma_mul_range(p.den as int, ctr.den as int, COORD_LIMIT as int);
    let df = pt_sub(p, ctr).unwrap();
    lemma_norm_point_some(
        p.xn * ctr.den - ctr.xn * p.den,
        p.yn * ctr.den - ctr.yn * p.den,
        p.den * ctr.den,
    );
    assert(!(df.xn == 0 && df.yn == 0));
    lemma_mul_range(df.den as int, df.den as int, COORD_LIMIT as int);
    let d2 = pt_dot(df, df).unwrap();
    lemma_norm_rat_some(df.xn * df.xn + df.yn * df.yn, df.den * df.den);
    lemma_mul_range(rad.den as int, rad.den as int, COORD_LIMIT as int);
    let r2 = crate::rat::rat_mul(rad, rad).unwrap();
    lemma_norm_rat_some(rad.num * rad.num, rad.den * rad.den);
    assert(df.xn * df.xn + df.yn * df.yn >= 1) by (nonlinear_arith)
        requires
            !(df.xn == 0 && df.yn == 0),
    ;
    assert(d2.num >= 1) by (nonlinear_arith)
        requires
            d2.num * (df.den * df.den) == (df.xn * df.xn + df.yn * df.yn) * d2.den,
            df.xn * df.xn + df.yn * df.yn >= 1,
            d2.den >= 1,
            df.den >= 1,
    ;
    let f = crate::rat::rat_div(r2, d2).unwrap();
    assert(r2.den * d2.num >= 1) by (nonlinear_arith)
        requires
            r2.den >= 1,
            d2.num >= 1,
    ;
    lemma_norm_rat_some(r2.num * d2.den, r2.den * d2.num);
    lemma_mul_range(df.den as int, f.den as int, COORD_LIMIT as int);
    let sc = pt_scale(df, f).unwrap();
    lemma_norm_point_some(df.xn * f.num, df.yn * f.num, df.den * f.den);
    lemma_mul_range(ctr.den as int, sc.den as int, COORD_LIMIT as int);
    lemma_norm_point_some(
        ctr.xn * sc.den + sc.xn * ctr.den,
        ctr.yn * sc.den + sc.yn * ctr.den,
        ctr.den * sc.den,
    );
    let dpx = p.xn * ctr.den - ctr.xn * p.den;
    let dpy = p.yn * ctr.den - ctr.yn * p.den;
    assert(dpx != 0 || dpy != 0) by (nonlinear_arith)
        requires
            df.xn * (p.den * ctr.den) == dpx * df.den,
            df.yn * (p.den * ctr.den) == dpy * df.den,
            !(df.xn == 0 && df.yn == 0),
            p.den * ctr.den >= 1,
    ;
    assert(dpx * dpx + dpy * dpy >= 1) by (nonlinear_arith)
        requires
            dpx != 0 || dpy != 0,
    ;
    lemma_invert_axis_core(
        p.xn as int,
        p.yn as int,
        p.den as int,
        ctr.xn as int,
        ctr.yn as int,
        ctr.den as int,
        rad.num as int,
        rad.den as int,
        df.xn as int,
        df.yn as int,
        df.den as int,
        d2.num as int,
        d2.den as int,
        r2.num as int,
        r2.den as int,
        f.num as int,
        f.den as int,
        sc.xn as int,
        sc.den as int,
        q.xn as int,
        q.den as int,
    );
    lemma_invert_axis_core(
        p.yn as int,
        p.xn as int,
        p.den as int,
        ctr.yn as int,
        ctr.xn as int,
        ctr.den as int,
        rad.num as int,
        rad.den as int,
        df.yn as int,
        df.xn as int,
        df.den as int,
        d2.num as int,
        d2.den as int,
        r2.num as int,
        r2.den as int,
        f.num as int,
        f.den as int,
        sc.yn as int,
        sc.den as int,
        q.yn as int,
        q.den as int,
    );
}

/// Ring identity: the square of a grouped product, regrouped.
proof fn nl_sq_group(a: int, b: int, c: int)
    ensures
        ((a * b) * c) * ((a * b) * c) == (a * a) * ((b * c) * (b * c)),
{
    broadcast use vstd::arithmetic::mul::group_mul_is_commutative_and_distributive,
        vstd::arithmetic::mul::lemma_mul_is_associative;

}

/// Ring identity: the square of a two-factor product, regrouped.
proof fn nl_sq_group2(x: int, m: int)
    ensures
        (x * m) * (x * m) == (x * x) * (m * m),
{
    broadcast use vstd::arithmetic::mul::group_mul_is_commutative_and_distributive,
        vstd::arithmetic::mul::lemma_mul_is_associative;

}

/// Squaring and summing the two axis characterisations of one inversion:
/// the squared difference values transform with the square of the factor.
proof fn lemma_invert_square_sum(
    dpx: int,
    dpy: int,
    dqx: int,
    dqy: int,
    aa: int,
    nn: int,
    k1: int,
)
    requires
        dqx * (aa * (dpx * dpx + dpy * dpy)) == (dpx * nn) * k1,
        dqy * (aa * (dpx * dpx + dpy * dpy)) == (dpy * nn) * k1,
    ensures
        (dqx * dqx + dqy * dqy) * ((aa * (dpx * dpx + dpy * dpy)) * (aa * (dpx * dpx + dpy
            * dpy))) == (dpx * dpx + dpy * dpy) * ((nn * k1) * (nn * k1)),
{
    let sp = dpx * dpx + dpy * dpy;
    let m = aa * sp;
    lemma_mul_both(dqx * m, (dpx * nn) * k1, dqx * m);
    lemma_mul_both((dpx * nn) * k1, dqx * m, (dpx * nn) * k1);
    assert((dqx * m) * (dqx * m) == ((dpx * nn) * k1) * ((dpx * nn) * k1));
    nl_sq_group2(dqx, m);
    nl_sq_group(dpx, nn, k1);
    assert((dqx * dqx) * (m * m) == (dpx * dpx) * ((nn * k1) * (nn * k1)));
    lemma_mul_both(dqy * m, (dpy * nn) * k1, dqy * m);
    lemma_mul_both((dpy * nn) * k1, dqy * m, (dpy * nn) * k1);
    assert((dqy * m) * (dqy * m) == ((dpy * nn) * k1) * ((dpy * nn) * k1));
    nl_sq_group2(dqy, m);
    nl_sq_group(dpy, nn, k1);
    assert((dqy * dqy) * (m * m) == (dpy * dpy) * ((nn * k1) * (nn * k1)));
    assert((dqx * dqx + dqy * dqy) * (m * m) == (dqx * dqx) * (m * m) + (dqy * dqy) * (m * m))
        by (nonlinear_arith);
    assert((dpx * dpx + dpy * dpy) * ((nn * k1) * (nn * k1)) == (dpx * dpx) * ((nn * k1) * (nn
        * k1)) + (dpy * dpy) * ((nn * k1) * (nn * k1))) by (nonlinear_arith);
}

/// Ring identity: regroup the right-hand side of the second-stage chain
/// around the shared positive factor.
proof fn nl_regroup_g(dpx: int, nn: int, k1: int, k2: int, m: int)
    ensures
        ((dpx * nn) * k1) * ((nn * k2) * m) == (dpx * k2) * (m * (nn * (nn * k1))),
{
    broadcast use vstd::arithmetic::mul::group_mul_is_commutative_and_distributive,
        vstd::arithmetic::mul::lemma_mul_is_associative;

}

/// Cancel the circle denominators out of the doubled-inversion closed
/// form, one axis at a time.
proof fn lemma_cancel_axis(rx: int, rdn: int, px: int, pdn: int, cxn: int, cdn: int, qdn: int)
    requires
        (rx * cdn - cxn * rdn) * ((pdn * cdn) * (cdn * qdn)) == (px * cdn - cxn * pdn) * ((qdn
            * cdn) * (cdn * rdn)),
        cdn >= 1,
        qdn >= 1,
    ensures
        rx * pdn == px * rdn,
{
    let h = cdn * (cdn * qdn);
    assert((rx * cdn - cxn * rdn) * ((pdn * cdn) * (cdn * qdn)) == ((rx * cdn - cxn * rdn) * pdn)
        * h) by (nonlinear_arith)
        requires
            h == cdn * (cdn * qdn),
    ;
    assert((px * cdn - cxn * pdn) * ((qdn * cdn) * (cdn * rdn)) == ((px * cdn - cxn * pdn) * rdn)
        * h) by (nonlinear_arith)
        requires
            h == cdn * (cdn * qdn),
    ;
    assert(h >= 1) by (nonlinear_arith)
        requires
            cdn >= 1,
            qdn >= 1,
            h == cdn * (cdn * qdn),
    ;
    lemma_cancel_mul((rx * cdn - cxn * rdn) * pdn, (px * cdn - cxn * pdn) * rdn, h);
    assert((rx * cdn - cxn * rdn) * pdn == (rx * pdn) * cdn - cxn * (rdn * pdn))
        by (nonlinear_arith);
    assert((px * cdn - cxn * pdn) * rdn == (px * rdn) * cdn - cxn * (pdn * rdn))
        by (nonlinear_arith);
    assert(cxn * (rdn * pdn) == cxn * (pdn * rdn)) by (nonlinear_arith);
    assert((rx * pdn) * cdn == (px * rdn) * cdn);
    lemma_cancel_mul(rx * pdn, px * rdn, cdn);
}

/// One axis of a double inversion: the two characterisations and the
/// squared-sum relation force the final difference back onto the original.
proof fn lemma_invert_second_axis(
    dpx: int,
    sp: int,
    dqx: int,
    sq: int,
    drx: int,
    nn: int,
    aa: int,
    k1: int,
    k2: int,
)
    requires
        dqx * (aa * sp) == (dpx * nn) * k1,
        drx * (aa * sq) == (dqx * nn) * k2,
        sq * ((aa * sp) * (aa * sp)) == sp * ((nn * k1) * (nn * k1)),
        aa >= 1,
        sp >= 1,
        nn >= 1,
        k1 >= 1,
    ensures
        drx * k1 == dpx * k2,
{
    let m = aa * sp;
    let w = (nn * k1) * (nn * k1);
    lemma_mul_both(drx * (aa * sq), (dqx * nn) * k2, m * m);
    assert((drx * (aa * sq)) * (m * m) == (drx * aa) * (sq * (m * m))) by (nonlinear_arith);
    lemma_mul_both(sq * (m * m), sp * w, drx * aa);
    assert((drx * aa) * (sq * (m * m)) == (sq * (m * m)) * (drx * aa)) by (nonlinear_arith);
    assert((sp * w) * (drx * aa) == (drx * aa) * (sp * w)) by (nonlinear_arith);
    assert((drx * (aa * sq)) * (m * m) == (drx * aa) * (sp * w));
    assert(((dqx * nn) * k2) * (m * m) == (dqx * m) * ((nn * k2) * m)) by (nonlinear_arith);
    lemma_mul_both(dqx * m, (dpx * nn) * k1, (nn * k2) * m);
    assert(dqx * m == dqx * (aa * sp)) by (nonlinear_arith)
        requires
            m == aa * sp,
    ;
    assert((drx * aa) * (sp * w) == ((dpx * nn) * k1) * ((nn * k2) * m));
    // both sides share the positive factor aa·sp·nn·(nn·k1)
    let g = (aa * sp) * (nn * (nn * k1));
    assert((drx * aa) * (sp * w) == (drx * k1) * g) by (nonlinear_arith)
        requires
            w == (nn * k1) * (nn * k1),
            g == (aa * sp) * (nn * (nn * k1)),
    ;
    nl_regroup_g(dpx, nn, k1, k2, m);
    assert(g == m * (nn * (nn * k1)));
    assert(((dpx * nn) * k1) * ((nn * k2) * m) == (dpx * k2) * g);
    assert(g >= 1) by (nonlinear_arith)
        requires
            aa >= 1,
            sp >= 1,
            nn >= 1,
            k1 >= 1,
            g == (aa * sp) * (nn * (nn * k1)),
    ;
    lemma_cancel_mul(drx * k1, dpx * k2, g);
}

/// Inverting a point twice in the same circle of positive radius restores
/// the original point.
pub proof fn lemma_invert_involution(p: Point, c: crate::circle::Circle, q: Point, r: Point)
    requires
        p.wf(),
        c.wf(),
        c.radius.num >= 1,
        pt_invert(p, c) == Some(q),
        pt_invert(q, c) == Some(r),
    ensures
        pt_eq(r, p),
{
    lemma_invert_char(p, c, q);
    lemma_invert_char(q, c, r);
    let cx = c.center.xn as int;
    let cy = c.center.yn as int;
    let cd = c.center.den as int;
    let nn = c.radius.num * c.radius.num;
    let aa = c.radius.den * c.radius.den;
    let dpx = p.xn * cd - cx * p.den;
    let dpy = p.yn * cd - cy * p.den;
    let sp = dpx * dpx + dpy * dpy;
    let dqx = q.xn * cd - cx * q.den;
    let dqy = q.yn * cd - cy * q.den;
    let sq = dqx * dqx + dqy * dqy;
    let drx = r.xn * cd - cx * r.den;
    let dry = r.yn * cd - cy * r.den;
    let k1 = (p.den * cd) * (cd * q.den);
    let k2 = (q.den * cd) * (cd * r.den);
    assert(nn >= 1) by (nonlinear_arith)
        requires
            c.radius.num >= 1,
            nn == c.radius.num * c.radius.num,
    ;
    assert(aa >= 1) by (nonlinear_arith)
        requires
            c.radius.den >= 1,
            aa == c.radius.den * c.radius.den,
    ;
    assert(k1 >= 1) by (nonlinear_arith)
        requires
            p.den >= 1,
            cd >= 1,
            q.den >= 1,
            k1 == (p.den * cd) * (cd * q.den),
    ;
    lemma_invert_square_sum(dpx, dpy, dqx, dqy, aa, nn, k1);
    lemma_invert_second_axis(dpx, sp, dqx, sq, drx, nn, aa, k1, k2);
    lemma_invert_second_axis(dpy, sp, dqy, sq, dry, nn, aa, k1, k2);
    // unfold the difference numerators and cancel the circle denominators
    lemma_cancel_axis(
        r.xn as int,
        r.den as int,
        p.xn as int,
        p.den as int,
        cx,
        cd,
        q.den as int,
    );
    lemma_cancel_axis(
        r.yn as int,
        r.den as int,
        p.yn as int,
        p.den as int,
        cy,
        cd,
        q.den as int,
    );
}

} // verus!
