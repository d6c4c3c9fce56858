//! Exact rational scalars.
//!
//! A `Rat` holds a numerator and a positive denominator, both bounded by
//! `COORD_LIMIT`. Arithmetic is performed exactly in 128-bit intermediates,
//! reduced by the greatest common divisor, and handed back only when the
//! reduced form fits the bound again; otherwise the operation reports `None`.
//! Every executable operation is pinned to a specification-level mirror
//! (`rat_add`, `rat_mul`, ...), so callers reason about exact values only.

use vstd::prelude::*;

verus! {

use vstd::arithmetic::div_mod::{
    lemma_fundamental_div_mod,
    lemma_fundamental_div_mod_converse,
};

/// Bound on every stored numerator, denominator and line coefficient.
pub const COORD_LIMIT: i64 = 0x4000_0000;

/// Bound accepted by the normalisation routines for raw 128-bit values.
pub const RAW_LIMIT: i128 = 0x4000_0000_0000_0000_0000_0000_0000_0000;

pub open spec fn abs_int(x: int) -> int {
    if x < 0 {
        -x
    } else {
        x
    }
}

/// Greatest common divisor of two natural numbers (Euclid).
pub open spec fn gcd(a: nat, b: nat) -> nat
    decreases b,
{
    if b == 0 {
        a
    } else {
        gcd(b, a % b)
    }
}

/// |x·y| <= bx·by whenever |x| <= bx and |y| <= by.
pub proof fn lemma_abs_mul_le(x: int, y: int, bx: int, by: int)
    by (nonlinear_arith)
    requires
        abs_int(x) <= bx,
        abs_int(y) <= by,
    ensures
        abs_int(x * y) <= bx * by,
{
}

/// Range of a product of two values bounded by `b`.
pub proof fn lemma_mul_range(x: int, y: int, b: int)
    by (nonlinear_arith)
    requires
        -b <= x <= b,
        -b <= y <= b,
        b >= 0,
    ensures
        -(b * b) <= x * y <= b * b,
        x >= 1 && y >= 1 ==> x * y >= 1,
        x >= 0 && y >= 0 ==> x * y >= 0,
{
}

/// The gcd of two naturals divides both, and is positive unless both are zero.
pub proof fn lemma_gcd_divides(a: nat, b: nat)
    ensures
        a > 0 || b > 0 ==> gcd(a, b) > 0,
        gcd(a, b) > 0 ==> a as int % (gcd(a, b) as int) == 0,
        gcd(a, b) > 0 ==> b as int % (gcd(a, b) as int) == 0,
    decreases b,
{
    if b == 0 {
        if a > 0 {
            assert(a as int % (a as int) == 0) by {
                lemma_fundamental_div_mod_converse(a as int, a as int, 1, 0);
            }
        }
    } else {
        let r = a % b;
        lemma_gcd_divides(b, r);
        let g = gcd(b, r);
        assert(gcd(a, b) == g);
        assert(g > 0);
        // a == b * (a / b) + a % b
        lemma_fundamental_div_mod(a as int, b as int);
        let q = a as int / b as int;
        // b and r are both multiples of g, hence so is a.
        lemma_div_exact(b as int, g as int);
        lemma_div_exact(r as int, g as int);
        let kb = b as int / g as int;
        let kr = r as int / g as int;
        assert(a as int == g as int * (kb * q + kr)) by (nonlinear_arith)
            requires
                a as int == b as int * q + r as int,
                b as int == g as int * kb,
                r as int == g as int * kr,
        ;
        lemma_mul_mod_zero(a as int, g as int, kb * q + kr);
    }
}

/// If x % g == 0 with g >= 1 then x == g * (x / g).
pub proof fn lemma_div_exact(x: int, g: int)
    requires
        g >= 1,
        x % g == 0,
    ensures
        x == g * (x / g),
{
    lemma_fundamental_div_mod(x, g);
}

/// If x == g * k with g >= 1 then x % g == 0 and x / g == k.
pub proof fn lemma_mul_mod_zero(x: int, g: int, k: int)
    requires
        g >= 1,
        x == g * k,
    ensures
        x % g == 0,
        x / g == k,
{
    assert(x == k * g + 0) by (nonlinear_arith)
        requires
            x == g * k,
    ;
    lemma_fundamental_div_mod_converse(x, g, k, 0);
}

/// Exact division mirrors on magnitudes: for g >= 1 dividing |x| exactly,
/// Euclidean division of x by g negates along with x.
pub proof fn lemma_div_neg_exact(x: int, g: int)
    requires
        g >= 1,
        x <= 0,
        (-x) % g == 0,
    ensures
        x % g == 0,
        x / g == -((-x) / g),
{
    let k = (-x) / g;
    lemma_div_exact(-x, g);
    assert(x == g * (-k)) by (nonlinear_arith)
        requires
            -x == g * k,
    ;
    lemma_mul_mod_zero(x, g, -k);
}

/// Divisibility is transitive: if a divides b and b divides c, a divides c.
pub proof fn lemma_divides_trans(a: int, b: int, c: int)
    requires
        a >= 1,
        b >= 1,
        b % a == 0,
        c % b == 0,
    ensures
        c % a == 0,
{
    lemma_div_exact(b, a);
    lemma_div_exact(c, b);
    let m = b / a;
    let k = c / b;
    assert(c == a * (m * k)) by (nonlinear_arith)
        requires
            b == a * m,
            c == b * k,
    ;
    lemma_mul_mod_zero(c, a, m * k);
}

/// Cancel a positive common factor on both sides of an equality.
pub proof fn lemma_cancel_mul(x: int, y: int, m: int)
    by (nonlinear_arith)
    requires
        m >= 1,
        x * m == y * m,
    ensures
        x == y,
{
}

/// An exact rational scalar: `num / den` with `1 <= den`.
///
/// Well-formed values keep both fields within `COORD_LIMIT`.
#[derive(Clone, Copy, Debug, PartialEq, Eq, Structural)]
pub struct Rat {
    pub num: i64,
    pub den: i64,
}

impl Rat {
    /// Both fields bounded and the denominator positive.
    pub open spec fn wf(self) -> bool {
        &&& 1 <= self.den <= COORD_LIMIT
        &&& -COORD_LIMIT <= self.num <= COORD_LIMIT
    }
}

/// `a` and `b` denote the same rational value.
pub open spec fn rat_eq(a: Rat, b: Rat) -> bool {
    a.num * b.den == b.num * a.den
}

/// The value of `a` is at most the value of `b` (denominators positive).
pub open spec fn rat_le(a: Rat, b: Rat) -> bool {
    a.num * b.den <= b.num * a.den
}

/// Reduce `n / d` by the gcd and keep it only if it fits the bound.
pub open spec fn norm_rat(n: int, d: int) -> Option<Rat>
    recommends
        d >= 1,
{
    let g = gcd(abs_int(n) as nat, d as nat) as int;
    let rn = n / g;
    let rd = d / g;
    if -COORD_LIMIT <= rn <= COORD_LIMIT && rd <= COORD_LIMIT {
        Some(Rat { num: rn as i64, den: rd as i64 })
    } else {
        None
    }
}

/// What a successful normalisation guarantees: a well-formed result denoting
/// exactly `n / d`.
pub proof fn lemma_norm_rat_some(n: int, d: int)
    requires
        d >= 1,
        norm_rat(n, d) is Some,
    ensures
        norm_rat(n, d).unwrap().wf(),
        norm_rat(n, d).unwrap().num * d == n * norm_rat(n, d).unwrap().den,
{
    let g = gcd(abs_int(n) as nat, d as nat) as int;
    lemma_gcd_divides(abs_int(n) as nat, d as nat);
    assert(g >= 1);
    lemma_div_exact(d, g);
    if n < 0 {
        lemma_div_neg_exact(n, g);
    }
    lemma_div_exact(n, g);
    let rn = n / g;
    let rd = d / g;
    assert(n == g * rn && d == g * rd);
    assert(rd >= 1) by (nonlinear_arith)
        requires
            d == g * rd,
            d >= 1,
            g >= 1,
    ;
    assert(rn * d == n * rd) by (nonlinear_arith)
        requires
            n == g * rn,
            d == g * rd,
    ;
}

/// Euclid's algorithm; the result equals the specification-level `gcd`.
pub fn gcd_u128(a: u128, b: u128) -> (g: u128)
    ensures
        g as nat == gcd(a as nat, b as nat),
{
    let mut x: u128 = a;
    let mut y: u128 = b;
    while y != 0
        invariant
            gcd(x as nat, y as nat) == gcd(a as nat, b as nat),
        decreases y,
    {
        let t: u128 = x % y;
        assert(gcd(x as nat, y as nat) == gcd(y as nat, t as nat));
        x = y;
        y = t;
    }
    x
}

/// Normalise the exact value `n / d` into a bounded `Rat`.
pub fn norm_rat_exec(n: i128, d: i128) -> (r: Option<Rat>)
    requires
        1 <= d <= RAW_LIMIT,
        -RAW_LIMIT <= n <= RAW_LIMIT,
    ensures
        r == norm_rat(n as int, d as int),
{
    let neg: bool = n < 0;
    let un: u128 = if neg {
        (-n) as u128
    } else {
        n as u128
    };
    let ud: u128 = d as u128;
    let g: u128 = gcd_u128(un, ud);
    proof {
        lemma_gcd_divides(un as nat, ud as nat);
    }
    assert(g >= 1);
    let rn: u128 = un / g;
    let rd: u128 = ud / g;
    proof {
        lemma_div_exact(ud as int, g as int);
        assert(rd >= 1) by (nonlinear_arith)
            requires
                ud as int == g as int * (rd as int),
                ud >= 1,
                g >= 1,
        ;
        if neg {
            lemma_div_neg_exact(n as int, g as int);
        }
    }
    if rn > COORD_LIMIT as u128 || rd > COORD_LIMIT as u128 {
        None
    } else {
        let num: i64 = if neg {
            -(rn as i64)
        } else {
            rn as i64
        };
        Some(Rat { num, den: rd as i64 })
    }
}

/// Mirror of `Rat::add`: the exact sum, normalised.
pub open spec fn rat_add(a: Rat, b: Rat) -> Option<Rat> {
    norm_rat(a.num * b.den + b.num * a.den, a.den * b.den)
}

/// Mirror of `Rat::sub`: the exact difference, normalised.
pub open spec fn rat_sub(a: Rat, b: Rat) -> Option<Rat> {
    norm_rat(a.num * b.den - b.num * a.den, a.den * b.den)
}

/// Mirror of `Rat::mul`: the exact product, normalised.
pub open spec fn rat_mul(a: Rat, b: Rat) -> Option<Rat> {
    norm_rat(a.num * b.num, a.den * b.den)
}

/// Mirror of `Rat::div`: the exact quotient, normalised.
pub open spec fn rat_div(a: Rat, b: Rat) -> Option<Rat>
    recommends
        b.num != 0,
{
    if b.num > 0 {
        norm_rat(a.num * b.den, a.den * b.num)
    } else {
        norm_rat(-(a.num * b.den), -(a.den * b.num))
    }
}

impl Rat {
    /// The rational zero.
    pub fn zero() -> (r: Rat)
        ensures
            r == (Rat { num: 0, den: 1 }),
    {
        Rat { num: 0, den: 1 }
    }

    /// The integer `n` as a rational.
    pub fn from_int(n: i64) -> (r: Rat)
        requires
            -COORD_LIMIT <= n <= COORD_LIMIT,
        ensures
            r.wf(),
            r.num == n,
            r.den == 1,
    {
        Rat { num: n, den: 1 }
    }

    /// Build the value `num / den` in lowest terms; `den` may be negative.
    pub fn new(num: i64, den: i64) -> (r: Option<Rat>)
        requires
            den != 0,
        ensures
            r == (if den > 0 {
                norm_rat(num as int, den as int)
            } else {
                norm_rat(-num as int, -den as int)
            }),
    {
        let n128: i128 = num as i128;
        let d128: i128 = den as i128;
        if d128 > 0 {
            norm_rat_exec(n128, d128)
        } else {
            norm_rat_exec(-n128, -d128)
        }
    }

    /// Exact sum, or `None` if it leaves the representable range.
    pub fn add(self, rhs: Rat) -> (r: Option<Rat>)
        requires
            self.wf(),
            rhs.wf(),
        ensures
            r == rat_add(self, rhs),
            r matches Some(c) ==> c.wf() && c.num * (self.den * rhs.den) == (self.num * rhs.den
                + rhs.num * self.den) * c.den,
    {
        proof {
            lemma_mul_range(self.num as int, rhs.den as int, COORD_LIMIT as int);
            lemma_mul_range(rhs.num as int, self.den as int, COORD_LIMIT as int);
            lemma_mul_range(self.den as int, rhs.den as int, COORD_LIMIT as int);
        }
        let n: i128 = (self.num as i128) * (rhs.den as i128) + (rhs.num as i128) * (self.den as i128);
        let d: i128 = (self.den as i128) * (rhs.den as i128);
        let r = norm_rat_exec(n, d);
        proof {
            if r is Some {
                lemma_norm_rat_some(n as int, d as int);
            }
        }
        r
    }

    /// Exact difference, or `None` if it leaves the representable range.
    pub fn sub(self, rhs: Rat) -> (r: Option<Rat>)
        requires
            self.wf(),
            rhs.wf(),
        ensures
            r == rat_sub(self, rhs),
            r matches Some(c) ==> c.wf() && c.num * (self.den * rhs.den) == (self.num * rhs.den
                - rhs.num * self.den) * c.den,
    {
        proof {
            lemma_mul_range(self.num as int, rhs.den as int, COORD_LIMIT as int);
            lemma_mul_range(rhs.num as int, self.den as int, COORD_LIMIT as int);
            lemma_mul_range(self.den as int, rhs.den as int, COORD_LIMIT as int);
        }
        let n: i128 = (self.num as i128) * (rhs.den as i128) - (rhs.num as i128) * (self.den as i128);
        let d: i128 = (self.den as i128) * (rhs.den as i128);
        let r = norm_rat_exec(n, d);
        proof {
            if r is Some {
                lemma_norm_rat_some(n as int, d as int);
            }
        }
        r
    }

    /// Exact product, or `None` if it leaves the representable range.
    pub fn mul(self, rhs: Rat) -> (r: Option<Rat>)
        requires
            self.wf(),
            rhs.wf(),
        ensures
            r == rat_mul(self, rhs),
            r matches Some(c) ==> c.wf() && c.num * (self.den * rhs.den) == (self.num * rhs.num)
                * c.den,
    {
        proof {
            lemma_mul_range(self.num as int, rhs.num as int, COORD_LIMIT as int);
            lemma_mul_range(self.den as int, rhs.den as int, COORD_LIMIT as int);
        }
        let n: i128 = (self.num as i128) * (rhs.num as i128);
        let d: i128 = (self.den as i128) * (rhs.den as i128);
        let r = norm_rat_exec(n, d);
        proof {
            if r is Some {
                lemma_norm_rat_some(n as int, d as int);
            }
        }
        r
    }

    /// Exact quotient, or `None` if it leaves the representable range.
    pub fn div(self, rhs: Rat) -> (r: Option<Rat>)
        requires
            self.wf(),
            rhs.wf(),
            rhs.num != 0,
        ensures
            r == rat_div(self, rhs),
            r matches Some(c) ==> c.wf() && c.num * (self.den * rhs.num) == (self.num * rhs.den)
                * c.den,
    {
        proof {
            lemma_mul_range(self.num as int, rhs.den as int, COORD_LIMIT as int);
            lemma_mul_range(self.den as int, rhs.num as int, COORD_LIMIT as int);
            assert((rhs.num >= 1 ==> self.den * rhs.num >= 1) && (rhs.num <= -1
                ==> self.den * rhs.num <= -1)) by (nonlinear_arith)
                requires
                    self.den >= 1,
            ;
        }
        let n: i128 = (self.num as i128) * (rhs.den as i128);
        let d: i128 = (self.den as i128) * (rhs.num as i128);
        let r = if rhs.num > 0 {
            norm_rat_exec(n, d)
        } else {
            norm_rat_exec(-n, -d)
        };
        proof {
            if r is Some {
                if rhs.num > 0 {
                    lemma_norm_rat_some(n as int, d as int);
                } else {
                    lemma_norm_rat_some(-n as int, -d as int);
                    let c = r.unwrap();
                    assert(c.num * (self.den * rhs.num) == (self.num * rhs.den) * c.den)
                        by (nonlinear_arith)
                        requires
                            c.num * (-d as int) == (-n as int) * c.den,
                            n == self.num * rhs.den,
                            d == self.den * rhs.num,
                    ;
                }
            }
        }
        r
    }

    /// Exact negation; always representable.
    pub fn neg(self) -> (r: Rat)
        requires
            self.wf(),
        ensures
            r.wf(),
            r.num == -self.num,
            r.den == self.den,
    {
        Rat { num: -self.num, den: self.den }
    }

    /// Exact absolute value; always representable.
    pub fn abs(self) -> (r: Rat)
        requires
            self.wf(),
        ensures
            r.wf(),
            r.num == abs_int(self.num as int),
            r.den == self.den,
    {
        if self.num < 0 {
            Rat { num: -self.num, den: self.den }
        } else {
            self
        }
    }

    /// Exact comparison: `self <= rhs` as rational values.
    pub fn le(self, rhs: Rat) -> (r: bool)
        requires
            self.wf(),
            rhs.wf(),
        ensures
            r == rat_le(self, rhs),
    {
        proof {
            lemma_mul_range(self.num as int, rhs.den as int, COORD_LIMIT as int);
            lemma_mul_range(rhs.num as int, self.den as int, COORD_LIMIT as int);
        }
        (self.num as i128) * (rhs.den as i128) <= (rhs.num as i128) * (self.den as i128)
    }

    /// Exact comparison: `self < rhs` as rational values.
    pub fn lt(self, rhs: Rat) -> (r: bool)
        requires
            self.wf(),
            rhs.wf(),
        ensures
            r == !rat_le(rhs, self),
    {
        proof {
            lemma_mul_range(self.num as int, rhs.den as int, COORD_LIMIT as int);
            lemma_mul_range(rhs.num as int, self.den as int, COORD_LIMIT as int);
        }
        (self.num as i128) * (rhs.den as i128) < (rhs.num as i128) * (self.den as i128)
    }

    /// Exact value equality, independent of the representation.
    pub fn eq_val(self, rhs: Rat) -> (r: bool)
        requires
            self.wf(),
            rhs.wf(),
        ensures
            r == rat_eq(self, rhs),
    {
        proof {
            lemma_mul_range(self.num as int, rhs.den as int, COORD_LIMIT as int);
            lemma_mul_range(rhs.num as int, self.den as int, COORD_LIMIT as int);
        }
        (self.num as i128) * (rhs.den as i128) == (rhs.num as i128) * (self.den as i128)
    }

    /// Sign of the value: -1, 0 or 1.
    pub fn sign(self) -> (r: i32)
        requires
            self.wf(),
        ensures
            self.num > 0 ==> r == 1,
            self.num == 0 ==> r == 0,
            self.num < 0 ==> r == -1,
    {
        if self.num > 0 {
            1
        } else if self.num < 0 {
            -1
        } else {
            0
        }
    }
}

} // verus!
