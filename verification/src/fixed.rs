use vstd::prelude::*;
use vstd::arithmetic::div_mod::*;
use crate::err::PlanError;

verus! {

/// Scale of the fixed-point representation: a `Fixed` with raw value `r`
/// stands for the number `r / SCALE`, giving fifteen decimal places.
pub const SCALE: i64 = 1_000_000_000_000_000;

/// Largest raw magnitude a well-formed `Fixed` may hold (about 4000.0).
/// Keeping two units of headroom below `i64::MAX` lets sums of two
/// well-formed values be computed before the range check.
pub const MAX_RAW: i64 = 4_000_000_000_000_000_000;

/// Magnitudes up to 2^126 are safe in the 128-bit intermediate arithmetic.
pub const BIG_128: u128 = 85070591730234615865843651857942052864;

/// Integer magnitude.
pub open spec fn mag(a: int) -> int {
    if a >= 0 {
        a
    } else {
        -a
    }
}

/// Rounded division by a positive divisor: the nearest integer to `a / b`,
/// halves rounded away from zero.
pub open spec fn rdiv_pos(a: int, b: int) -> int
    recommends
        b > 0,
{
    if a >= 0 {
        (2 * a + b) / (2 * b)
    } else {
        -((2 * (-a) + b) / (2 * b))
    }
}

/// Rounded division by any nonzero divisor.
pub open spec fn rdiv(a: int, b: int) -> int
    recommends
        b != 0,
{
    if b > 0 {
        rdiv_pos(a, b)
    } else {
        -rdiv_pos(a, -b)
    }
}

/// Raw result of multiplying two fixed-point values.
pub open spec fn fmul(a: int, b: int) -> int {
    rdiv_pos(a * b, SCALE as int)
}

/// Raw result of dividing fixed-point `a` by fixed-point `b` (`b != 0`).
pub open spec fn fdiv(a: int, b: int) -> int {
    rdiv(a * SCALE, b)
}

/// Whether a raw value lies in the well-formed range.
pub open spec fn fits(a: int) -> bool {
    -(MAX_RAW as int) <= a && a <= MAX_RAW as int
}

/// Unit-magnitude sign with zero counted as positive, as a raw value.
/// This convention (`sgn(0) == +1`) is a deliberate tie-break used by the
/// root solver and must not be replaced by an ordinary signum.
pub open spec fn sgn_of(a: int) -> int {
    if a >= 0 {
        SCALE as int
    } else {
        -(SCALE as int)
    }
}

/// Rounded division lands within half a divisor of the exact quotient.
pub proof fn lemma_rdiv_pos_close(a: int, b: int)
    requires
        b > 0,
    ensures
        -b <= 2 * (rdiv_pos(a, b) * b - a),
        2 * (rdiv_pos(a, b) * b - a) <= b,
{
    if a >= 0 {
        let q = (2 * a + b) / (2 * b);
        let r = (2 * a + b) % (2 * b);
        lemma_fundamental_div_mod(2 * a + b, 2 * b);
        lemma_mod_bound(2 * a + b, 2 * b);
        assert(2 * (q * b - a) == b - r) by (nonlinear_arith)
            requires
                2 * a + b == 2 * b * q + r,
        ;
    } else {
        let a2 = -a;
        let q2 = (2 * a2 + b) / (2 * b);
        let r = (2 * a2 + b) % (2 * b);
        lemma_fundamental_div_mod(2 * a2 + b, 2 * b);
        lemma_mod_bound(2 * a2 + b, 2 * b);
        assert(2 * (q2 * b - a2) == b - r) by (nonlinear_arith)
            requires
                2 * a2 + b == 2 * b * q2 + r,
        ;
        assert(rdiv_pos(a, b) == -q2);
        assert(2 * ((-q2) * b - a) == -(2 * (q2 * b - a2))) by (nonlinear_arith)
            requires
                a == -a2,
        ;
    }
}

/// Rounded division keeps the sign of the dividend and never grows its
/// magnitude (for divisors of at least one).
pub proof fn lemma_rdiv_pos_le(a: int, b: int)
    requires
        b >= 1,
    ensures
        a >= 0 ==> 0 <= rdiv_pos(a, b) <= a,
        a < 0 ==> a <= rdiv_pos(a, b) <= 0,
{
    if a >= 0 {
        lemma_div_pos_is_pos(2 * a + b, 2 * b);
        assert(2 * a + b <= 2 * b * a + (2 * b - 1)) by (nonlinear_arith)
            requires
                b >= 1,
                a >= 0,
        ;
        lemma_div_is_ordered(2 * a + b, 2 * b * a + (2 * b - 1), 2 * b);
        lemma_div_multiples_vanish_fancy(a, 2 * b - 1, 2 * b);
    } else {
        let a2 = -a;
        lemma_div_pos_is_pos(2 * a2 + b, 2 * b);
        assert(2 * a2 + b <= 2 * b * a2 + (2 * b - 1)) by (nonlinear_arith)
            requires
                b >= 1,
                a2 >= 0,
        ;
        lemma_div_is_ordered(2 * a2 + b, 2 * b * a2 + (2 * b - 1), 2 * b);
        lemma_div_multiples_vanish_fancy(a2, 2 * b - 1, 2 * b);
    }
}

/// Rounded division is monotone in the dividend.
pub proof fn lemma_rdiv_pos_mono(a1: int, a2: int, b: int)
    requires
        b > 0,
        a1 <= a2,
    ensures
        rdiv_pos(a1, b) <= rdiv_pos(a2, b),
{
    if a1 >= 0 {
        lemma_div_is_ordered(2 * a1 + b, 2 * a2 + b, 2 * b);
    } else if a2 < 0 {
        lemma_div_is_ordered(2 * (-a2) + b, 2 * (-a1) + b, 2 * b);
    } else {
        lemma_div_pos_is_pos(2 * (-a1) + b, 2 * b);
        lemma_div_pos_is_pos(2 * a2 + b, 2 * b);
    }
}

/// Rounded division is exact on exact multiples.
pub proof fn lemma_rdiv_pos_exact(a: int, b: int, k: int)
    requires
        b > 0,
        a == k * b,
    ensures
        rdiv_pos(a, b) == k,
{
    lemma_rdiv_pos_close(a, b);
    let q = rdiv_pos(a, b);
    assert(2 * (q * b - k * b) == 2 * (q - k) * b) by (nonlinear_arith);
    if q > k {
        assert(2 * (q - k) * b >= 2 * b) by (nonlinear_arith)
            requires
                q - k >= 1,
                b > 0,
        ;
    }
    if q < k {
        assert(2 * (q - k) * b <= -2 * b) by (nonlinear_arith)
            requires
                q - k <= -1,
                b > 0,
        ;
    }
}

/// Signed rounded division: same bounds, any nonzero divisor.
pub proof fn lemma_rdiv_le(a: int, b: int)
    requires
        b != 0,
    ensures
        mag(rdiv(a, b)) <= mag(a),
{
    if b > 0 {
        lemma_rdiv_pos_le(a, b);
    } else {
        lemma_rdiv_pos_le(a, -b);
    }
}

/// Signed rounded division lands within half the divisor's magnitude of
/// the exact quotient.
pub proof fn lemma_rdiv_close(a: int, b: int)
    requires
        b != 0,
    ensures
        -mag(b) <= 2 * (rdiv(a, b) * b - a),
        2 * (rdiv(a, b) * b - a) <= mag(b),
{
    if b > 0 {
        lemma_rdiv_pos_close(a, b);
    } else {
        lemma_rdiv_pos_close(a, -b);
        let q = rdiv_pos(a, -b);
        assert((-q) * b == q * (-b)) by (nonlinear_arith);
    }
}

/// Signed rounded division is exact on exact multiples.
pub proof fn lemma_rdiv_exact(a: int, b: int, k: int)
    requires
        b != 0,
        a == k * b,
    ensures
        rdiv(a, b) == k,
{
    if b > 0 {
        lemma_rdiv_pos_exact(a, b, k);
    } else {
        assert(a == (-k) * (-b)) by (nonlinear_arith)
            requires
                a == k * b,
        ;
        lemma_rdiv_pos_exact(a, -b, -k);
    }
}

/// The rounded-down square root of a fixed-point value, at raw scale: the
/// unique nonnegative `s` with `s^2 <= v*SCALE < (s+1)^2`.  Naming it as a
/// function of the value lets every caller's result be pinned exactly.
pub open spec fn sqrt_val(v: int) -> int {
    choose|s: int| s >= 0 && #[trigger] (s * s) <= v * SCALE && v * SCALE < (s + 1) * (s + 1)
}

/// Any witness of the square-root bracket is the square root.
pub proof fn lemma_sqrt_val_unique(v: int, s: int)
    requires
        0 <= s,
        s * s <= v * SCALE,
        v * SCALE < (s + 1) * (s + 1),
    ensures
        sqrt_val(v) == s,
{
    let s2 = sqrt_val(v);
    assert(s2 >= 0 && s2 * s2 <= v * SCALE && v * SCALE < (s2 + 1) * (s2 + 1));
    if s2 < s {
        assert((s2 + 1) * (s2 + 1) <= s * s) by (nonlinear_arith)
            requires
                0 <= s2 < s,
        ;
        assert(false);
    }
    if s2 > s {
        assert((s + 1) * (s + 1) <= s2 * s2) by (nonlinear_arith)
            requires
                0 <= s < s2,
        ;
        assert(false);
    }
}

/// Multiplying by a whole-number constant is exact.
pub proof fn lemma_fmul_scale(k: int, x: int)
    ensures
        fmul(k * SCALE, x) == k * x,
{
    assert((k * (SCALE as int)) * x == (k * x) * (SCALE as int)) by (nonlinear_arith);
    lemma_rdiv_pos_exact((k * (SCALE as int)) * x, SCALE as int, k * x);
}

/// Multiplying by a unit sign is exact.
pub proof fn lemma_fmul_sgn(a: int, l: int)
    ensures
        fmul(sgn_of(a), l) == if a >= 0 {
            l
        } else {
            -l
        },
{
    if a >= 0 {
        assert((SCALE as int) * l == l * (SCALE as int)) by (nonlinear_arith);
        lemma_rdiv_pos_exact((SCALE as int) * l, SCALE as int, l);
    } else {
        assert((-(SCALE as int)) * l == (-l) * (SCALE as int)) by (nonlinear_arith);
        lemma_rdiv_pos_exact((-(SCALE as int)) * l, SCALE as int, -l);
    }
}

/// Multiplying by a negated unit sign is exact.
pub proof fn lemma_fmul_neg_sgn(a: int, l: int)
    ensures
        fmul(-sgn_of(a), l) == if a >= 0 {
            -l
        } else {
            l
        },
{
    if a >= 0 {
        assert((-(SCALE as int)) * l == (-l) * (SCALE as int)) by (nonlinear_arith);
        lemma_rdiv_pos_exact((-(SCALE as int)) * l, SCALE as int, -l);
    } else {
        assert((SCALE as int) * l == l * (SCALE as int)) by (nonlinear_arith);
        lemma_rdiv_pos_exact((SCALE as int) * l, SCALE as int, l);
    }
}

/// Rounded division half-away from zero on 128-bit magnitudes.
fn rdiv_pos_u128(n: u128, d: u128) -> (q: u128)
    requires
        1 <= d <= BIG_128,
        n <= BIG_128,
    ensures
        q as int == rdiv_pos(n as int, d as int),
        q <= n,
{
    proof {
        lemma_rdiv_pos_le(n as int, d as int);
    }
    (2 * n + d) / (2 * d)
}

/// Signed rounded division on 128-bit intermediates.
fn rdiv_i128(n: i128, d: i128) -> (q: i128)
    requires
        d != 0,
        -(BIG_128 as i128) <= n <= BIG_128 as i128,
        -(BIG_128 as i128) <= d <= BIG_128 as i128,
    ensures
        q as int == rdiv(n as int, d as int),
        mag(q as int) <= mag(n as int),
{
    let nn: u128 = if n >= 0 {
        n as u128
    } else {
        (-n) as u128
    };
    let dd: u128 = if d >= 0 {
        d as u128
    } else {
        (-d) as u128
    };
    let qm = rdiv_pos_u128(nn, dd);
    let qi = qm as i128;
    proof {
        lemma_rdiv_pos_le(nn as int, dd as int);
    }
    if (n >= 0) == (d >= 0) {
        qi
    } else {
        -qi
    }
}

/// Integer square root on 128-bit values by bisection.
fn isqrt_u128(n: u128) -> (r: u128)
    ensures
        (r as int) * (r as int) <= n as int,
        (n as int) < (r as int + 1) * (r as int + 1),
        r <= 18446744073709551615u128,
{
    let mut lo: u128 = 0;
    let mut hi: u128 = 18446744073709551616;
    proof {
        assert((hi as int) * (hi as int) > n as int) by (nonlinear_arith)
            requires
                hi as int == 18446744073709551616int,
                n as int <= 340282366920938463463374607431768211455int,
        ;
    }
    while lo + 1 < hi
        invariant
            lo < hi,
            hi <= 18446744073709551616,
            (lo as int) * (lo as int) <= n as int,
            (n as int) < (hi as int) * (hi as int),
        decreases hi - lo,
    {
        let mid = lo + (hi - lo) / 2;
        proof {
            assert((mid as int) * (mid as int) <= 340282366920938463463374607431768211455int)
                by (nonlinear_arith)
                requires
                    mid as int <= 18446744073709551615int,
                    mid as int >= 0,
            ;
        }
        if mid * mid <= n {
            lo = mid;
        } else {
            hi = mid;
        }
    }
    lo
}

/// Exact decimal fixed-point scalar with fifteen places.
///
/// All planner arithmetic happens on this type; each operation rounds to
/// the nearest representable value (halves away from zero) and reports a
/// `Numeric` error instead of overflowing.
#[derive(Clone, Copy, Debug, PartialEq, Eq, Structural, Hash)]
pub struct Fixed {
    raw: i64,
}

impl View for Fixed {
    type V = int;

    closed spec fn view(&self) -> int {
        self.raw as int
    }
}

impl Fixed {
    /// Raw value within the representable range.
    pub open spec fn wf(self) -> bool {
        fits(self@)
    }

    /// The raw scaled integer.
    pub fn raw(self) -> (r: i64)
        ensures
            r as int == self@,
    {
        self.raw
    }

    /// Zero.
    pub fn zero() -> (r: Fixed)
        ensures
            r@ == 0,
            r.wf(),
    {
        Fixed { raw: 0 }
    }

    /// Build from a raw scaled integer known to be in range.
    pub fn of_raw(raw: i64) -> (r: Fixed)
        requires
            fits(raw as int),
        ensures
            r@ == raw as int,
            r.wf(),
    {
        Fixed { raw }
    }

    /// Build from a raw scaled integer, rejecting out-of-range input.
    pub fn from_raw(raw: i64) -> (r: Option<Fixed>)
        ensures
            match r {
                Some(f) => f@ == raw as int && f.wf(),
                None => !fits(raw as int),
            },
    {
        if -MAX_RAW <= raw && raw <= MAX_RAW {
            Some(Fixed { raw })
        } else {
            None
        }
    }

    /// Build from an integer number of whole units.
    pub fn from_int(i: i64) -> (r: Option<Fixed>)
        ensures
            match r {
                Some(f) => f@ == i * SCALE && f.wf(),
                None => !fits(i * SCALE),
            },
    {
        if -4000 <= i && i <= 4000 {
            Some(Fixed { raw: i * SCALE })
        } else {
            proof {
                if i > 4000 {
                    assert(i * SCALE > MAX_RAW) by (nonlinear_arith)
                        requires
                            i >= 4001,
                    ;
                } else {
                    assert(i * SCALE < -MAX_RAW) by (nonlinear_arith)
                        requires
                            i <= -4001,
                    ;
                }
            }
            None
        }
    }

    /// Build the nearest representable value of `num / den`.
    pub fn from_ratio(num: i64, den: i64) -> (r: Option<Fixed>)
        ensures
            match r {
                Some(f) => den != 0 && f@ == rdiv(num * SCALE, den as int) && f.wf(),
                None => den == 0 || !fits(rdiv(num * SCALE, den as int)),
            },
    {
        if den == 0 {
            return None;
        }
        let p: i128 = (num as i128) * (SCALE as i128);
        let q = rdiv_i128(p, den as i128);
        if -(MAX_RAW as i128) <= q && q <= MAX_RAW as i128 {
            Some(Fixed { raw: q as i64 })
        } else {
            None
        }
    }

    /// Sum; `Numeric` when the result leaves the representable range.
    pub fn add(self, o: Fixed) -> (r: Result<Fixed, PlanError>)
        requires
            self.wf(),
            o.wf(),
        ensures
            match r {
                Ok(f) => f@ == self@ + o@ && f.wf(),
                Err(e) => e == PlanError::Numeric && !fits(self@ + o@),
            },
    {
        let s = self.raw + o.raw;
        if -MAX_RAW <= s && s <= MAX_RAW {
            Ok(Fixed { raw: s })
        } else {
            Err(PlanError::Numeric)
        }
    }

    /// Difference; `Numeric` when the result leaves the range.
    pub fn sub(self, o: Fixed) -> (r: Result<Fixed, PlanError>)
        requires
            self.wf(),
            o.wf(),
        ensures
            match r {
                Ok(f) => f@ == self@ - o@ && f.wf(),
                Err(e) => e == PlanError::Numeric && !fits(self@ - o@),
            },
    {
        let s = self.raw - o.raw;
        if -MAX_RAW <= s && s <= MAX_RAW {
            Ok(Fixed { raw: s })
        } else {
            Err(PlanError::Numeric)
        }
    }

    /// Negation (always in range for well-formed input).
    pub fn neg(self) -> (r: Fixed)
        requires
            self.wf(),
        ensures
            r@ == -self@,
            r.wf(),
    {
        Fixed { raw: -self.raw }
    }

    /// Magnitude.
    pub fn abs(self) -> (r: Fixed)
        requires
            self.wf(),
        ensures
            r@ == mag(self@),
            r.wf(),
    {
        if self.raw < 0 {
            Fixed { raw: -self.raw }
        } else {
            self
        }
    }

    /// Unit sign with zero counted as positive: `+1.0` for `raw >= 0`,
    /// `-1.0` otherwise.
    pub fn signum_unit(self) -> (r: Fixed)
        ensures
            r@ == sgn_of(self@),
            r.wf(),
    {
        if self.raw >= 0 {
            Fixed { raw: SCALE }
        } else {
            Fixed { raw: -SCALE }
        }
    }

    /// Rounded product; `Numeric` when the result leaves the range.
    pub fn mul(self, o: Fixed) -> (r: Result<Fixed, PlanError>)
        requires
            self.wf(),
            o.wf(),
        ensures
            match r {
                Ok(f) => f@ == fmul(self@, o@) && f.wf(),
                Err(e) => e == PlanError::Numeric && !fits(fmul(self@, o@)),
            },
    {
        proof {
            assert((self@) * (o@) <= BIG_128 as int && -(BIG_128 as int) <= (self@) * (o@))
                by (nonlinear_arith)
                requires
                    -(MAX_RAW as int) <= self@ <= MAX_RAW as int,
                    -(MAX_RAW as int) <= o@ <= MAX_RAW as int,
            ;
        }
        let p: i128 = (self.raw as i128) * (o.raw as i128);
        let q = rdiv_i128(p, SCALE as i128);
        if -(MAX_RAW as i128) <= q && q <= MAX_RAW as i128 {
            Ok(Fixed { raw: q as i64 })
        } else {
            Err(PlanError::Numeric)
        }
    }

    /// Exact product with a small nonnegative integer; `Numeric` when
    /// the result leaves the range.
    pub fn mul_int(self, k: i64) -> (r: Result<Fixed, PlanError>)
        requires
            self.wf(),
            0 <= k <= 10000,
        ensures
            match r {
                Ok(f) => f@ == k * self@ && f.wf(),
                Err(e) => e == PlanError::Numeric && !fits(k * self@),
            },
    {
        proof {
            assert(-(BIG_128 as int) <= k * self@ <= BIG_128 as int) by (nonlinear_arith)
                requires
                    -(MAX_RAW as int) <= self@ <= MAX_RAW as int,
                    0 <= k <= 10000,
            ;
        }
        let p: i128 = (k as i128) * (self.raw as i128);
        if -(MAX_RAW as i128) <= p && p <= MAX_RAW as i128 {
            Ok(Fixed { raw: p as i64 })
        } else {
            Err(PlanError::Numeric)
        }
    }

    /// `k * fmul(self, self)` as a wide integer, exact for any
    /// well-formed value.
    pub fn square_times(self, k: i64) -> (r: i128)
        requires
            self.wf(),
            0 <= k <= 10000,
        ensures
            r as int == k * fmul(self@, self@),
    {
        proof {
            assert(0 <= (self@) * (self@) <= 16000000000000000000000000000000000000int)
                by (nonlinear_arith)
                requires
                    -(MAX_RAW as int) <= self@ <= MAX_RAW as int,
            ;
            lemma_rdiv_pos_le((self@) * (self@), SCALE as int);
            lemma_rdiv_pos_close((self@) * (self@), SCALE as int);
        }
        let p: i128 = (self.raw as i128) * (self.raw as i128);
        let q = rdiv_i128(p, SCALE as i128);
        proof {
            assert(q as int <= 17000000000000000000000int) by (nonlinear_arith)
                requires
                    2 * ((q as int) * (SCALE as int) - (self@) * (self@)) <= SCALE as int,
                    (self@) * (self@) <= 16000000000000000000000000000000000000int,
                    0 <= q as int,
                    SCALE as int == 1000000000000000int,
            ;
            assert(0 <= (k as int) * (q as int) <= 170000000000000000000000000000int)
                by (nonlinear_arith)
                requires
                    0 <= k <= 10000,
                    0 <= q as int <= 17000000000000000000000int,
            ;
        }
        (k as i128) * q
    }

    /// `k * fmul(fmul(self, self), self)` as a wide integer; `None` when
    /// the magnitude is too large for the wide product.
    pub fn cube_times(self, k: i64) -> (r: Option<i128>)
        requires
            self.wf(),
            0 <= k <= 10000,
        ensures
            match r {
                Some(v) => v as int == k * fmul(fmul(self@, self@), self@),
                None => mag(self@) > 400000000000000000,
            },
    {
        if self.raw > 400000000000000000 || self.raw < -400000000000000000 {
            return None;
        }
        proof {
            assert(0 <= (self@) * (self@) <= 160000000000000000000000000000000000int)
                by (nonlinear_arith)
                requires
                    -400000000000000000 <= self@ <= 400000000000000000,
            ;
            lemma_rdiv_pos_le((self@) * (self@), SCALE as int);
            lemma_rdiv_pos_close((self@) * (self@), SCALE as int);
        }
        let p: i128 = (self.raw as i128) * (self.raw as i128);
        let t = rdiv_i128(p, SCALE as i128);
        proof {
            assert(t as int <= 170000000000000000000int) by (nonlinear_arith)
                requires
                    2 * ((t as int) * (SCALE as int) - (self@) * (self@)) <= SCALE as int,
                    (self@) * (self@) <= 160000000000000000000000000000000000int,
                    0 <= t as int,
                    SCALE as int == 1000000000000000int,
            ;
            assert(-(BIG_128 as int) <= (t as int) * (self@) <= BIG_128 as int)
                by (nonlinear_arith)
                requires
                    0 <= t as int <= 170000000000000000000int,
                    -400000000000000000 <= self@ <= 400000000000000000,
            ;
        }
        let t2: i128 = t * (self.raw as i128);
        let u = rdiv_i128(t2, SCALE as i128);
        proof {
            lemma_rdiv_close(t2 as int, SCALE as int);
            assert(-(90000000000000000000000int) <= u as int <= 90000000000000000000000int)
                by (nonlinear_arith)
                requires
                    2 * ((u as int) * (SCALE as int) - (t2 as int)) <= SCALE as int,
                    -(SCALE as int) <= 2 * ((u as int) * (SCALE as int) - (t2 as int)),
                    -(BIG_128 as int) <= t2 as int <= BIG_128 as int,
                    SCALE as int == 1000000000000000int,
                    BIG_128 as int == 85070591730234615865843651857942052864int,
            ;
            assert(-(900000000000000000000000000int) <= (k as int) * (u as int) <= 900000000000000000000000000int)
                by (nonlinear_arith)
                requires
                    0 <= k <= 10000,
                    -(90000000000000000000000int) <= u as int <= 90000000000000000000000int,
            ;
        }
        Some((k as i128) * u)
    }

    /// Rounded quotient; `Numeric` on a zero divisor or an out-of-range
    /// result.
    pub fn div(self, o: Fixed) -> (r: Result<Fixed, PlanError>)
        requires
            self.wf(),
            o.wf(),
        ensures
            match r {
                Ok(f) => o@ != 0 && f@ == fdiv(self@, o@) && f.wf(),
                Err(e) => e == PlanError::Numeric && (o@ == 0 || !fits(fdiv(self@, o@))),
            },
    {
        if o.raw == 0 {
            return Err(PlanError::Numeric);
        }
        let p: i128 = (self.raw as i128) * (SCALE as i128);
        let q = rdiv_i128(p, o.raw as i128);
        if -(MAX_RAW as i128) <= q && q <= MAX_RAW as i128 {
            Ok(Fixed { raw: q as i64 })
        } else {
            Err(PlanError::Numeric)
        }
    }

    /// Rounded division by a positive integer constant (always in range).
    pub fn div_int(self, k: i64) -> (r: Fixed)
        requires
            self.wf(),
            1 <= k,
        ensures
            r@ == rdiv(self@, k as int),
            r.wf(),
    {
        let q = rdiv_i128(self.raw as i128, k as i128);
        proof {
            lemma_rdiv_le(self@, k as int);
        }
        Fixed { raw: q as i64 }
    }

    /// Less-than on values.
    pub fn lt(self, o: Fixed) -> (b: bool)
        ensures
            b == (self@ < o@),
    {
        self.raw < o.raw
    }

    /// At-most on values.
    pub fn le(self, o: Fixed) -> (b: bool)
        ensures
            b == (self@ <= o@),
    {
        self.raw <= o.raw
    }

    /// Whether the value is exactly zero.
    pub fn is_zero(self) -> (b: bool)
        ensures
            b == (self@ == 0),
    {
        self.raw == 0
    }

    /// Rounded-to-quantum square root; `Numeric` on negative input.
    ///
    /// The result `f` satisfies `f^2 <= self < (f + quantum)^2` at raw
    /// scale, so it is below the true square root by less than one
    /// fifteen-place quantum.
    pub fn sqrt(self) -> (r: Result<Fixed, PlanError>)
        requires
            self.wf(),
        ensures
            match r {
                Ok(f) => {
                    &&& self@ >= 0
                    &&& f.wf()
                    &&& 0 <= f@ <= 100000000000000000
                    &&& f@ * f@ <= self@ * SCALE
                    &&& self@ * SCALE < (f@ + 1) * (f@ + 1)
                    &&& f@ == sqrt_val(self@)
                },
                Err(e) => e == PlanError::Numeric && self@ < 0,
            },
    {
        if self.raw < 0 {
            return Err(PlanError::Numeric);
        }
        let p: u128 = (self.raw as u128) * (SCALE as u128);
        let r = isqrt_u128(p);
        proof {
            assert(p as int <= 4000000000000000000000000000000000int) by (nonlinear_arith)
                requires
                    0 <= self.raw as int <= MAX_RAW as int,
                    p as int == (self.raw as int) * (SCALE as int),
            ;
            if r as int > 100000000000000000int {
                assert((r as int) * (r as int) > 4000000000000000000000000000000000int)
                    by (nonlinear_arith)
                    requires
                        r as int > 100000000000000000int,
                ;
            }
            lemma_sqrt_val_unique(self@, r as int);
        }
        Ok(Fixed { raw: r as i64 })
    }
}

} // verus!
