use vstd::prelude::*;
use vstd::arithmetic::div_mod::lemma_fundamental_div_mod;

verus! {

/// For a positive divisor, `n / d` (floor division) is the largest `t`
/// with `t * d <= n`.
pub proof fn lemma_floor_char(n: int, d: int, t: int)
    requires
        d > 0,
    ensures
        (t * d <= n) == (t <= n / d),
{
    lemma_fundamental_div_mod(n, d);
    let q = n / d;
    let r = n % d;
    assert(n == d * q + r && 0 <= r < d);
    if t <= q {
        assert(t * d <= d * q) by (nonlinear_arith)
            requires t <= q, d > 0;
    } else {
        assert(t * d >= d * q + d) by (nonlinear_arith)
            requires t >= q + 1, d > 0;
    }
}

/// Floor division of an `i64` by a positive `i64`, dividing only
/// non-negative values.
pub fn floor_div(n: i64, d: i64) -> (r: i64)
    requires
        0 < d <= 0x1000_0000_0000_0000,
        -0x1000_0000_0000_0000 <= n <= 0x1000_0000_0000_0000,
    ensures
        r == n / d,
        -0x1000_0000_0000_0000 <= r <= 0x1000_0000_0000_0000,
{
    proof {
        let b: int = 0x1000_0000_0000_0000;
        lemma_floor_char(n as int, d as int, -b);
        lemma_floor_char(n as int, d as int, b + 1);
        assert((-b) * d <= -b) by (nonlinear_arith)
            requires d >= 1, b >= 0;
        assert((b + 1) * d >= b + 1) by (nonlinear_arith)
            requires d >= 1, b >= 0;
    }
    if n >= 0 {
        n / d
    } else {
        let m: i64 = -n;
        let q: i64 = (m + d - 1) / d;
        proof {
            let md: int = m + d - 1;
            lemma_fundamental_div_mod(md, d as int);
            lemma_fundamental_div_mod(n as int, d as int);
            let q2: int = n as int / d as int;
            let r1: int = md % (d as int);
            let r2: int = n as int % d as int;
            assert(q == md / (d as int));
            assert(d * (q + q2) == d - 1 - r1 - r2) by (nonlinear_arith)
                requires md == d * q + r1, md == m + d - 1, n == d * q2 + r2, m == -n;
            assert(q + q2 == 0) by (nonlinear_arith)
                requires d * (q + q2) == d - 1 - r1 - r2, 0 <= r1 < d, 0 <= r2 < d, d > 0;
        }
        -q
    }
}

/// A ray parameter, the fraction `num / den`; well formed when `den > 0`.
#[derive(Clone, Copy, Debug, PartialEq, Eq, Structural)]
pub struct Frac {
    pub num: i64,
    pub den: i64,
}

impl Frac {
    pub open spec fn wf(self) -> bool {
        self.den > 0
    }

    /// `self <= other` as fractions with positive denominators.
    pub open spec fn le(self, other: Frac) -> bool {
        self.num * other.den <= other.num * self.den
    }

    pub fn new(num: i64, den: i64) -> (r: Frac)
        ensures
            r == (Frac { num, den }),
    {
        Frac { num, den }
    }

    /// Whether `self <= other`, compared exactly by cross-multiplying.
    pub fn at_most(&self, other: &Frac) -> (r: bool)
        ensures
            r == self.le(*other),
    {
        proof {
            let b: int = 0x8000_0000_0000_0000;
            assert(-b * b <= (self.num as int) * (other.den as int) <= b * b) by (nonlinear_arith)
                requires -b <= self.num < b, -b <= other.den < b;
            assert(-b * b <= (other.num as int) * (self.den as int) <= b * b) by (nonlinear_arith)
                requires -b <= other.num < b, -b <= self.den < b;
        }
        (self.num as i128) * (other.den as i128) <= (other.num as i128) * (self.den as i128)
    }
}

pub proof fn lemma_le_trans(a: Frac, b: Frac, c: Frac)
    requires
        a.wf(),
        b.wf(),
        c.wf(),
        a.le(b),
        b.le(c),
    ensures
        a.le(c),
{
    let (an, ad, bn, bd, cn, cd) = (a.num as int, a.den as int, b.num as int, b.den as int, c.num as int, c.den as int);
    assert(an * bd * cd <= bn * ad * cd) by (nonlinear_arith)
        requires an * bd <= bn * ad, cd > 0;
    assert(bn * cd * ad <= cn * bd * ad) by (nonlinear_arith)
        requires bn * cd <= cn * bd, ad > 0;
    assert((an * cd) * bd <= (cn * ad) * bd) by (nonlinear_arith)
        requires an * bd * cd <= bn * ad * cd, bn * cd * ad <= cn * bd * ad;
    assert(an * cd <= cn * ad) by (nonlinear_arith)
        requires (an * cd) * bd <= (cn * ad) * bd, bd > 0;
}

} // verus!
