use vstd::prelude::*;
use crate::err::PlanError;
use crate::fixed::{Fixed, SCALE, fits, fmul, fdiv, rdiv, sgn_of, sqrt_val};

verus! {

/// Rounded fixed-point evaluation of the monic cubic
/// `x^3 + a*x^2 + b*x + c`, in the nested form the solver computes.
pub open spec fn cubic_at(a: int, b: int, c: int, x: int) -> int {
    fmul(fmul(x + a, x) + b, x) + c
}

/// Whether `r` sits within one quantum of a sign change of the rounded
/// cubic inside `[lo, hi]`: the bisection postcondition.
pub open spec fn near_cubic_root(a: int, b: int, c: int, lo: int, hi: int, r: int) -> bool {
    exists|l: int, h: int|
        #![trigger cubic_at(a, b, c, l), cubic_at(a, b, c, h)]
        {
            &&& lo <= l <= r <= h <= hi
            &&& h - l <= 2
            &&& cubic_at(a, b, c, l) * cubic_at(a, b, c, h) <= 0
        }
}

/// Whether every intermediate of the rounded cubic evaluation at `x`
/// stays in the representable range.
pub open spec fn monic_fits(a: int, b: int, c: int, x: int) -> bool {
    &&& fits(x + a)
    &&& fits(fmul(x + a, x))
    &&& fits(fmul(x + a, x) + b)
    &&& fits(fmul(fmul(x + a, x) + b, x))
    &&& fits(cubic_at(a, b, c, x))
}

/// The quantity `a^2 - 3*b` the cubic solver computes (rounded).
pub open spec fn cub_q(a: int, b: int) -> int {
    fmul(a, a) - 3 * b
}

/// The quantity `2*a^3 - 9*a*b + 27*c` the cubic solver computes
/// (rounded).
pub open spec fn cub_r(a: int, b: int, c: int) -> int {
    2 * fmul(fmul(a, a), a) - 9 * fmul(a, b) + 27 * c
}

/// What the cubic solver returns for the monic cubic
/// `x^3 + a*x^2 + b*x + c`, by discriminant case: an exact triple root,
/// the closed-form double-root pair, or one or three bisection roots
/// each within a quantum of a sign change of the cubic.
pub open spec fn cubic_roots_ok(a: int, b: int, c: int, roots: Seq<int>) -> bool {
    let q = cub_q(a, b);
    let rr = cub_r(a, b, c);
    let qq = rdiv(q, 9);
    let bigr = rdiv(rr, 54);
    let cr2 = 729 * fmul(rr, rr);
    let cq3 = 2916 * fmul(fmul(q, q), q);
    let t = rdiv(a, 3);
    &&& (roots.len() == 1 || roots.len() == 3)
    &&& (roots.len() == 3 ==> (roots[0] <= roots[1] && roots[1] <= roots[2]))
    &&& ((bigr == 0 && qq == 0) ==> roots =~= seq![-t, -t, -t])
    &&& ((!(bigr == 0 && qq == 0) && cr2 == cq3) ==> (roots.len() == 3 && {
        let s = sqrt_val(qq);
        if bigr > 0 {
            roots =~= seq![-2 * s - t, s - t, s - t]
        } else {
            roots =~= seq![-s - t, -s - t, 2 * s - t]
        }
    }))
    &&& ((!(bigr == 0 && qq == 0) && cr2 != cq3) ==> forall|i: int|
        0 <= i < roots.len() ==> #[trigger] near_cubic_root(
            a,
            b,
            c,
            -(crate::fixed::MAX_RAW as int),
            crate::fixed::MAX_RAW as int,
            roots[i],
        ))
}

/// Named conditions under which the monic cubic solver reports a
/// numeric failure: an intermediate of the discriminant computation
/// leaves the range, a magnitude exceeds the wide-product domain, a
/// closed-form root leaves the range, or the bisection branches cannot
/// establish their brackets (the cubic overflows somewhere in the root
/// bound, a bracket fails to change sign, or the stationary points are
/// out of order).
/// Named conditions under which the bisection stage of the cubic
/// solver cannot run: the root bound cannot be formed or is too wide,
/// the cubic overflows somewhere inside it, a bracket fails to change
/// sign, or the stationary points cannot be found or are out of order.
#[verifier::opaque]
pub open spec fn cubic_bisect_err(a: int, b: int, c: int) -> bool {
    let q = cub_q(a, b);
    let rr = cub_r(a, b, c);
    let qq = rdiv(q, 9);
    let bigr = rdiv(rr, 54);
    let s = sqrt_val(qq);
    let bound = SCALE + crate::fixed::mag(a) + crate::fixed::mag(b) + crate::fixed::mag(c);
    ||| !fits(SCALE + crate::fixed::mag(a))
    ||| !fits(SCALE + crate::fixed::mag(a) + crate::fixed::mag(b))
    ||| !fits(bound)
    ||| bound > 2000000000000000000
    ||| !monic_fits(a, b, c, -bound)
    ||| !monic_fits(a, b, c, bound)
    ||| crate::fixed::mag(qq) > 400000000000000000
    ||| (exists|z: int|
        #![trigger monic_fits(a, b, c, z)]
        (-bound <= z <= bound && !monic_fits(a, b, c, z)))
    ||| (fmul(bigr, bigr) >= fmul(fmul(qq, qq), qq) && cubic_at(a, b, c, -bound) * cubic_at(
        a,
        b,
        c,
        bound,
    ) > 0)
    ||| (fmul(bigr, bigr) < fmul(fmul(qq, qq), qq) && {
        ||| !fits(2 * a)
        ||| quad_err(3 * SCALE, 2 * a, b)
        ||| quad_disc(3 * SCALE, 2 * a, b) < 0
        ||| (exists|x0: int, x1: int|
            #![trigger cubic_at(a, b, c, x0), cubic_at(a, b, c, x1)]
            {
                &&& x0 <= x1
                &&& ({
                    ||| quad_two_roots(
                        3 * SCALE,
                        2 * a,
                        b,
                        sqrt_val(quad_disc(3 * SCALE, 2 * a, b)),
                        x0,
                        x1,
                    )
                    ||| (quad_disc(3 * SCALE, 2 * a, b) > 0 && 2 * a == 0 && x0 == -sqrt_val(
                        fdiv(-b, 3 * SCALE),
                    ) && x1 == sqrt_val(fdiv(-b, 3 * SCALE)))
                    ||| (quad_disc(3 * SCALE, 2 * a, b) == 0 && x0 == fdiv(
                        rdiv(-(2 * a), 2),
                        3 * SCALE,
                    ) && x1 == x0)
                })
                &&& ({
                    ||| !(-bound <= x0 && x0 <= x1 && x1 <= bound)
                    ||| cubic_at(a, b, c, -bound) * cubic_at(a, b, c, x0) > 0
                    ||| cubic_at(a, b, c, x0) * cubic_at(a, b, c, x1) > 0
                    ||| cubic_at(a, b, c, x1) * cubic_at(a, b, c, bound) > 0
                })
            })
    })
}

/// Named conditions under which the monic cubic solver reports a
/// numeric failure: an intermediate of the discriminant computation
/// leaves the range, a magnitude exceeds the wide-product domain, a
/// closed-form root leaves the range, or the bisection stage is
/// blocked.
#[verifier::opaque]
pub open spec fn cubic_err(a: int, b: int, c: int) -> bool {
    let q = cub_q(a, b);
    let rr = cub_r(a, b, c);
    let qq = rdiv(q, 9);
    let bigr = rdiv(rr, 54);
    let cr2 = 729 * fmul(rr, rr);
    let cq3 = 2916 * fmul(fmul(q, q), q);
    let t = rdiv(a, 3);
    let s = sqrt_val(qq);
    ||| !fits(fmul(a, a))
    ||| !fits(3 * b)
    ||| !fits(q)
    ||| !fits(fmul(fmul(a, a), a))
    ||| !fits(fmul(a, b))
    ||| !fits(2 * fmul(fmul(a, a), a))
    ||| !fits(9 * fmul(a, b))
    ||| !fits(27 * c)
    ||| !fits(2 * fmul(fmul(a, a), a) - 9 * fmul(a, b))
    ||| !fits(rr)
    ||| crate::fixed::mag(q) > 400000000000000000
    ||| (!(bigr == 0 && qq == 0) && cr2 == cq3 && {
        ||| qq < 0
        ||| (bigr > 0 && (!fits(-2 * s - t) || !fits(s - t)))
        ||| (bigr <= 0 && (!fits(-s - t) || !fits(2 * s - t)))
    })
    ||| (!(bigr == 0 && qq == 0) && cr2 != cq3 && cubic_bisect_err(a, b, c))
}

/// The smaller root the quadratic solver returns when the discriminant
/// is nonnegative (`a != 0`), as a function of the inputs.
pub open spec fn quad_root_lo(a: int, b: int, c: int) -> int
    recommends
        a != 0,
        quad_disc(a, b, c) >= 0,
{
    let d = quad_disc(a, b, c);
    if d > 0 && b != 0 {
        let temp = rdiv(-(b + fmul(sgn_of(b), sqrt_val(d))), 2);
        let ra = fdiv(temp, a);
        let rb = fdiv(c, temp);
        if ra <= rb {
            ra
        } else {
            rb
        }
    } else if d > 0 && b == 0 {
        -sqrt_val(fdiv(-c, a))
    } else {
        fdiv(rdiv(-b, 2), a)
    }
}

/// The larger root the quadratic solver returns when the discriminant
/// is nonnegative (`a != 0`), as a function of the inputs.
pub open spec fn quad_root_hi(a: int, b: int, c: int) -> int
    recommends
        a != 0,
        quad_disc(a, b, c) >= 0,
{
    let d = quad_disc(a, b, c);
    if d > 0 && b != 0 {
        let temp = rdiv(-(b + fmul(sgn_of(b), sqrt_val(d))), 2);
        let ra = fdiv(temp, a);
        let rb = fdiv(c, temp);
        if ra <= rb {
            rb
        } else {
            ra
        }
    } else if d > 0 && b == 0 {
        sqrt_val(fdiv(-c, a))
    } else {
        fdiv(rdiv(-b, 2), a)
    }
}

/// Raw discriminant of `a*x^2 + b*x + c` as the solver computes it:
/// `b*b - 4*a*c` in rounded fixed-point arithmetic.
pub open spec fn quad_disc(a: int, b: int, c: int) -> int {
    fmul(b, b) - fmul(fmul(4 * SCALE, a), c)
}

/// The two-root branch of the quadratic solver, phrased over the square
/// root `s` of the scaled discriminant: the numerically stable form
/// computes `temp = -(b + sgn(b)*s)/2` and returns `temp/a` and `c/temp`
/// in ascending order.  The sign convention counts zero as positive.
pub open spec fn quad_two_roots(a: int, b: int, c: int, s: int, r0: int, r1: int) -> bool {
    let temp = rdiv(-(b + fmul(sgn_of(b), s)), 2);
    &&& temp != 0
    &&& r0 <= r1
    &&& ((r0 == fdiv(temp, a) && r1 == fdiv(c, temp)) || (r1 == fdiv(temp, a) && r0 == fdiv(
        c,
        temp,
    )))
}

/// Exactly when the quadratic solver reports a numeric failure: one of
/// its computed intermediates leaves the representable range, or the
/// stable form degenerates (`temp == 0`).
#[verifier::opaque]
pub open spec fn quad_err(a: int, b: int, c: int) -> bool {
    ||| (a == 0 && b != 0 && !fits(fdiv(-c, b)))
    ||| (a != 0 && {
        ||| !fits(fmul(b, b))
        ||| !fits(fmul(4 * SCALE, a))
        ||| !fits(fmul(fmul(4 * SCALE, a), c))
        ||| !fits(quad_disc(a, b, c))
        ||| (quad_disc(a, b, c) > 0 && b == 0 && !fits(fdiv(-c, a)))
        ||| (quad_disc(a, b, c) > 0 && b != 0 && {
            let s = sqrt_val(quad_disc(a, b, c));
            let temp = rdiv(-(b + fmul(sgn_of(b), s)), 2);
            ||| !fits(b + fmul(sgn_of(b), s))
            ||| temp == 0
            ||| !fits(fdiv(temp, a))
            ||| (temp != 0 && !fits(fdiv(c, temp)))
        })
        ||| (quad_disc(a, b, c) == 0 && !fits(fdiv(rdiv(-b, 2), a)))
    })
}

/// Real-root extraction for quadratic (and cubic) polynomials.
pub struct Poly;

impl Poly {
    /// Unit sign with zero counted as positive.  Kept as a named helper:
    /// the tie-break `sgn(0) == +1` selects the correct branch in the
    /// stable quadratic form and must not be replaced by an ordinary
    /// signum.
    fn sgn(num: Fixed) -> (r: Fixed)
        ensures
            r@ == sgn_of(num@),
            r.wf(),
    {
        num.signum_unit()
    }

    /// Real roots of `a*x^2 + b*x + c == 0`, ascending, with the
    /// degenerate linear and constant cases handled explicitly.
    ///
    /// The root count follows the sign of the computed discriminant: two
    /// roots (a repeated root counted twice) when it is nonnegative, none
    /// when it is negative, and the linear fallback when `a == 0`.
    pub fn solve_quadratic(a: Fixed, b: Fixed, c: Fixed) -> (r: Result<Vec<Fixed>, PlanError>)
        requires
            a.wf(),
            b.wf(),
            c.wf(),
        ensures
            (r is Err) <==> quad_err(a@, b@, c@),
            match r {
                Ok(roots) => {
                    &&& forall|i: int| 0 <= i < roots@.len() ==> (#[trigger] roots@[i]).wf()
                    &&& (a@ == 0 && b@ == 0) ==> roots@.len() == 0
                    &&& (a@ == 0 && b@ != 0) ==> (roots@.len() == 1 && roots@[0]@ == fdiv(
                        -c@,
                        b@,
                    ))
                    &&& (a@ != 0 && quad_disc(a@, b@, c@) > 0 && b@ == 0) ==> {
                        &&& roots@.len() == 2
                        &&& roots@[0]@ <= roots@[1]@
                        &&& roots@[0]@ == -sqrt_val(fdiv(-c@, a@))
                        &&& roots@[1]@ == sqrt_val(fdiv(-c@, a@))
                    }
                    &&& (a@ != 0 && quad_disc(a@, b@, c@) > 0 && b@ != 0) ==> {
                        &&& roots@.len() == 2
                        &&& roots@[0]@ <= roots@[1]@
                        &&& quad_two_roots(
                            a@,
                            b@,
                            c@,
                            sqrt_val(quad_disc(a@, b@, c@)),
                            roots@[0]@,
                            roots@[1]@,
                        )
                    }
                    &&& (a@ != 0 && quad_disc(a@, b@, c@) == 0) ==> (roots@.len() == 2
                        && roots@[0]@ == fdiv(rdiv(-b@, 2), a@) && roots@[1]@ == roots@[0]@)
                    &&& (a@ != 0 && quad_disc(a@, b@, c@) < 0) ==> roots@.len() == 0
                    &&& (a@ != 0 && quad_disc(a@, b@, c@) >= 0) ==> (roots@.len() == 2
                        && roots@[0]@ == quad_root_lo(a@, b@, c@) && roots@[1]@ == quad_root_hi(
                        a@,
                        b@,
                        c@,
                    ))
                },
                Err(e) => e == PlanError::Numeric,
            },
    {
        proof {
            reveal(quad_err);
        }
        let mut res: Vec<Fixed> = Vec::new();

        // Linear fallback.
        if a.is_zero() {
            if b.is_zero() {
                return Ok(res);
            }
            let root = match c.neg().div(b) {
                Ok(v) => v,
                Err(e) => {
                    return Err(e);
                },
            };
            res.push(root);
            return Ok(res);
        }

        let four = Fixed::of_raw(4 * SCALE);
        let b2 = match b.mul(b) {
            Ok(v) => v,
            Err(e) => {
                return Err(e);
            },
        };
        let fa = match four.mul(a) {
            Ok(v) => v,
            Err(e) => {
                return Err(e);
            },
        };
        let fac = match fa.mul(c) {
            Ok(v) => v,
            Err(e) => {
                return Err(e);
            },
        };
        let disc = match b2.sub(fac) {
            Ok(v) => v,
            Err(e) => {
                return Err(e);
            },
        };

        if Fixed::zero().lt(disc) {
            if b.is_zero() {
                let nca = match c.neg().div(a) {
                    Ok(v) => v,
                    Err(e) => {
                        return Err(e);
                    },
                };
                let root = match nca.sqrt() {
                    Ok(v) => v,
                    Err(e) => {
                        // Unreachable: a positive discriminant with b == 0
                        // means a and c have opposite signs, so -c/a
                        // rounds to a nonnegative value.
                        proof {
                            crate::fixed::lemma_rdiv_pos_le(0, SCALE as int);
                            crate::fixed::lemma_fmul_scale(4, a@);
                            crate::fixed::lemma_rdiv_pos_le(4 * a@ * c@, SCALE as int);
                            assert(4 * a@ * c@ < 0);
                            assert((-c@) * a@ > 0) by (nonlinear_arith)
                                requires
                                    4 * a@ * c@ < 0,
                            ;
                            if a@ > 0 {
                                assert(-c@ > 0) by (nonlinear_arith)
                                    requires
                                        (-c@) * a@ > 0,
                                        a@ > 0,
                                ;
                                crate::fixed::lemma_rdiv_pos_le((-c@) * SCALE, a@);
                            } else {
                                assert(-c@ < 0) by (nonlinear_arith)
                                    requires
                                        (-c@) * a@ > 0,
                                        a@ < 0,
                                ;
                                crate::fixed::lemma_rdiv_pos_le((-c@) * SCALE, -a@);
                            }
                            assert(false);
                        }
                        return Err(e);
                    },
                };
                res.push(root.neg());
                res.push(root);
                proof {
                    assert(disc@ == quad_disc(a@, b@, c@));
                }
                return Ok(res);
            }

            let sq = match disc.sqrt() {
                Ok(v) => v,
                Err(e) => {
                    return Err(e);
                },
            };
            let bs = match Self::sgn(b).mul(sq) {
                Ok(v) => v,
                Err(e) => {
                    // Unreachable: a unit sign times the bounded square
                    // root stays in range.
                    proof {
                        crate::fixed::lemma_fmul_sgn(b@, sq@);
                        assert(false);
                    }
                    return Err(e);
                },
            };
            let sum = match b.add(bs) {
                Ok(v) => v,
                Err(e) => {
                    return Err(e);
                },
            };
            let temp = sum.neg().div_int(2);
            let r1 = match temp.div(a) {
                Ok(v) => v,
                Err(e) => {
                    return Err(e);
                },
            };
            let r2 = match c.div(temp) {
                Ok(v) => v,
                Err(e) => {
                    return Err(e);
                },
            };

            if r1.lt(r2) {
                res.push(r1);
                res.push(r2);
            } else {
                res.push(r2);
                res.push(r1);
            }
            proof {
                assert(disc@ == quad_disc(a@, b@, c@));
                assert(quad_two_roots(a@, b@, c@, sq@, res@[0]@, res@[1]@));
            }
            return Ok(res);
        }

        if disc.is_zero() {
            let half_nb = b.neg().div_int(2);
            let root = match half_nb.div(a) {
                Ok(v) => v,
                Err(e) => {
                    return Err(e);
                },
            };
            res.push(root);
            res.push(root);
            return Ok(res);
        }

        // Negative discriminant: no real roots.
        Ok(res)
    }

    /// Rounded evaluation of the monic cubic `x^3 + a*x^2 + b*x + c`.
    fn eval_monic(a: Fixed, b: Fixed, c: Fixed, x: Fixed) -> (r: Result<Fixed, PlanError>)
        requires
            a.wf(),
            b.wf(),
            c.wf(),
            x.wf(),
        ensures
            (r is Err) <==> !monic_fits(a@, b@, c@, x@),
            match r {
                Ok(v) => v.wf() && v@ == cubic_at(a@, b@, c@, x@),
                Err(e) => e == PlanError::Numeric,
            },
    {
        let t1 = match x.add(a) {
            Ok(v) => v,
            Err(e) => {
                return Err(e);
            },
        };
        let t2 = match t1.mul(x) {
            Ok(v) => v,
            Err(e) => {
                return Err(e);
            },
        };
        let t3 = match t2.add(b) {
            Ok(v) => v,
            Err(e) => {
                return Err(e);
            },
        };
        let t4 = match t3.mul(x) {
            Ok(v) => v,
            Err(e) => {
                return Err(e);
            },
        };
        match t4.add(c) {
            Ok(v) => Ok(v),
            Err(e) => Err(e),
        }
    }

    /// Whether the product of the two values is nonpositive, i.e. the
    /// signs differ or one value vanishes.
    fn product_nonpos(p: Fixed, q: Fixed) -> (r: bool)
        ensures
            r == (p@ * q@ <= 0),
    {
        proof {
            assert(((p@ <= 0 && q@ >= 0) || (p@ >= 0 && q@ <= 0)) == (p@ * q@ <= 0))
                by (nonlinear_arith);
        }
        (p.raw() <= 0 && q.raw() >= 0) || (p.raw() >= 0 && q.raw() <= 0)
    }

    /// Bisect a sign-change bracket of the monic cubic down to the
    /// fixed-point quantum.
    fn bisect(a: Fixed, b: Fixed, c: Fixed, lo0: Fixed, hi0: Fixed) -> (r: Result<
        Fixed,
        PlanError,
    >)
        requires
            a.wf(),
            b.wf(),
            c.wf(),
            lo0.wf(),
            hi0.wf(),
            lo0@ <= hi0@,
            hi0@ - lo0@ <= crate::fixed::MAX_RAW as int,
            cubic_at(a@, b@, c@, lo0@) * cubic_at(a@, b@, c@, hi0@) <= 0,
        ensures
            (r is Err) ==> (exists|z: int|
                #![trigger monic_fits(a@, b@, c@, z)]
                (lo0@ <= z <= hi0@ && !monic_fits(a@, b@, c@, z))),
            match r {
                Ok(v) => {
                    &&& v.wf()
                    &&& lo0@ <= v@ <= hi0@
                    &&& near_cubic_root(a@, b@, c@, lo0@, hi0@, v@)
                },
                Err(e) => e == PlanError::Numeric,
            },
    {
        let mut lo = lo0;
        let mut hi = hi0;
        while hi.raw() - lo.raw() > 2
            invariant
                a.wf(),
                b.wf(),
                c.wf(),
                lo.wf(),
                hi.wf(),
                lo0@ <= lo@ <= hi@ <= hi0@,
                hi0@ - lo0@ <= crate::fixed::MAX_RAW as int,
                cubic_at(a@, b@, c@, lo@) * cubic_at(a@, b@, c@, hi@) <= 0,
            decreases hi@ - lo@,
        {
            let width = match hi.sub(lo) {
                Ok(v) => v,
                Err(e) => {
                    // Unreachable: the width of a subrange of the given
                    // bracket stays in range.
                    proof {
                        assert(0 <= hi@ - lo@ <= crate::fixed::MAX_RAW as int);
                        assert(crate::fixed::fits(hi@ - lo@));
                        assert(false);
                    }
                    return Err(e);
                },
            };
            let half = width.div_int(2);
            proof {
                crate::fixed::lemma_rdiv_pos_close(width@, 2);
                crate::fixed::lemma_rdiv_pos_le(width@, 2);
            }
            let mid = match lo.add(half) {
                Ok(v) => v,
                Err(e) => {
                    // Unreachable: the midpoint lies inside the bracket.
                    proof {
                        assert(false);
                    }
                    return Err(e);
                },
            };
            let pl = match Self::eval_monic(a, b, c, lo) {
                Ok(v) => v,
                Err(e) => {
                    proof {
                        assert(lo0@ <= lo@ <= hi0@ && !monic_fits(a@, b@, c@, lo@));
                    }
                    return Err(e);
                },
            };
            let pm = match Self::eval_monic(a, b, c, mid) {
                Ok(v) => v,
                Err(e) => {
                    proof {
                        assert(lo0@ <= mid@ <= hi0@ && !monic_fits(a@, b@, c@, mid@));
                    }
                    return Err(e);
                },
            };
            if Self::product_nonpos(pl, pm) {
                hi = mid;
            } else {
                proof {
                    assert(cubic_at(a@, b@, c@, mid@) * cubic_at(a@, b@, c@, hi@) <= 0)
                        by (nonlinear_arith)
                        requires
                            cubic_at(a@, b@, c@, lo@) * cubic_at(a@, b@, c@, mid@) > 0,
                            cubic_at(a@, b@, c@, lo@) * cubic_at(a@, b@, c@, hi@) <= 0,
                    ;
                }
                lo = mid;
            }
        }
        proof {
            assert(cubic_at(a@, b@, c@, lo@) * cubic_at(a@, b@, c@, hi@) <= 0);
            assert(near_cubic_root(a@, b@, c@, lo0@, hi0@, lo@));
        }
        Ok(lo)
    }

    /// The bisection stage of the cubic solver: establish the Cauchy
    /// root bound and the stationary points, then bisect each
    /// sign-change bracket down to the quantum.
    #[verifier::rlimit(100)]
    #[verifier::spinoff_prover]
    fn cubic_roots_by_bisection(a: Fixed, b: Fixed, c: Fixed, qq: Fixed, bigr: Fixed) -> (r:
        Result<Vec<Fixed>, PlanError>)
        requires
            a.wf(),
            b.wf(),
            c.wf(),
            qq.wf(),
            bigr.wf(),
            qq@ == rdiv(cub_q(a@, b@), 9),
            bigr@ == rdiv(cub_r(a@, b@, c@), 54),
        ensures
            (r is Err) ==> cubic_bisect_err(a@, b@, c@),
            match r {
                Ok(roots) => {
                    &&& forall|i: int| 0 <= i < roots@.len() ==> (#[trigger] roots@[i]).wf()
                    &&& (roots@.len() == 1 || roots@.len() == 3)
                    &&& (roots@.len() == 3 ==> (roots@[0]@ <= roots@[1]@ && roots@[1]@
                        <= roots@[2]@))
                    &&& forall|i: int|
                        0 <= i < roots@.len() ==> #[trigger] near_cubic_root(
                            a@,
                            b@,
                            c@,
                            -(crate::fixed::MAX_RAW as int),
                            crate::fixed::MAX_RAW as int,
                            roots@[i]@,
                        )
                },
                Err(e) => e == PlanError::Numeric,
            },
    {
        let mut res: Vec<Fixed> = Vec::new();
        // Root magnitudes are bounded by 1 + |a| + |b| + |c|.
        let one = Fixed::of_raw(SCALE);
        let m1 = match one.add(a.abs()) {
            Ok(v) => v,
            Err(e) => {
                proof {
                    reveal(cubic_bisect_err);
                }
                return Err(e);
            },
        };
        let m2 = match m1.add(b.abs()) {
            Ok(v) => v,
            Err(e) => {
                proof {
                    reveal(cubic_bisect_err);
                }
                return Err(e);
            },
        };
        let bound = match m2.add(c.abs()) {
            Ok(v) => v,
            Err(e) => {
                proof {
                    reveal(cubic_bisect_err);
                }
                return Err(e);
            },
        };
        let nbound = bound.neg();
        if bound.raw() > 2_000_000_000_000_000_000 {
            // The root bound must leave room for a full-width bisection
            // bracket.
            proof {
                reveal(cubic_bisect_err);
            }
            return Err(PlanError::Numeric);
        }

        let p_lo = match Self::eval_monic(a, b, c, nbound) {
            Ok(v) => v,
            Err(e) => {
                proof {
                    reveal(cubic_bisect_err);
                }
                return Err(e);
            },
        };
        let p_hi = match Self::eval_monic(a, b, c, bound) {
            Ok(v) => v,
            Err(e) => {
                proof {
                    reveal(cubic_bisect_err);
                }
                return Err(e);
            },
        };

        let rb2 = bigr.square_times(1);
        let qb3 = match qq.cube_times(1) {
            Some(v) => v,
            None => {
                proof {
                    reveal(cubic_bisect_err);
                }
                return Err(PlanError::Numeric);
            },
        };
        let r2q3 = rb2 < qb3;

        if r2q3 {
            // Three distinct real roots, separated by the stationary
            // points of the cubic.
            let three = Fixed::of_raw(3 * SCALE);
            let ta = match a.mul_int(2) {
                Ok(v) => v,
                Err(e) => {
                    proof {
                        reveal(cubic_bisect_err);
                    }
                    return Err(e);
                },
            };
            let crit = match Self::solve_quadratic(three, ta, b) {
                Ok(v) => v,
                Err(e) => {
                    proof {
                        reveal(cubic_bisect_err);
                    }
                    return Err(e);
                },
            };
            proof {
                assert(three@ == 3 * SCALE);
            }
            if crit.len() < 2 {
                proof {
                    reveal(cubic_bisect_err);
                    if quad_disc(3 * SCALE, 2 * a@, b@) >= 0 {
                        assert(crit@.len() == 2);
                    }
                }
                return Err(PlanError::Numeric);
            }
            let x0 = crit[0];
            let x1 = crit[1];
            proof {
                assert(cubic_at(a@, b@, c@, x0@) == cubic_at(a@, b@, c@, x0@));
                assert(cubic_at(a@, b@, c@, x1@) == cubic_at(a@, b@, c@, x1@));
                let d = quad_disc(3 * SCALE, 2 * a@, b@);
                assert(d >= 0) by {
                    if d < 0 {
                        assert(crit@.len() == 0);
                    }
                }
                assert(x0@ <= x1@ && ({
                    ||| quad_two_roots(3 * SCALE, 2 * a@, b@, sqrt_val(d), x0@, x1@)
                    ||| (d > 0 && 2 * a@ == 0 && x0@ == -sqrt_val(fdiv(-b@, 3 * SCALE)) && x1@
                        == sqrt_val(fdiv(-b@, 3 * SCALE)))
                    ||| (d == 0 && x0@ == fdiv(rdiv(-(2 * a@), 2), 3 * SCALE) && x1@ == x0@)
                })) by {
                    if d > 0 && ta@ != 0 {
                        assert(quad_two_roots(3 * SCALE, 2 * a@, b@, sqrt_val(d), x0@, x1@));
                    }
                }
            }
            if !(nbound.le(x0) && x0.le(x1) && x1.le(bound)) {
                proof {
                    reveal(cubic_bisect_err);
                }
                return Err(PlanError::Numeric);
            }
            let p_x0 = match Self::eval_monic(a, b, c, x0) {
                Ok(v) => v,
                Err(e) => {
                    proof {
                        reveal(cubic_bisect_err);
                    }
                    return Err(e);
                },
            };
            let p_x1 = match Self::eval_monic(a, b, c, x1) {
                Ok(v) => v,
                Err(e) => {
                    proof {
                        reveal(cubic_bisect_err);
                    }
                    return Err(e);
                },
            };
            if !Self::product_nonpos(p_lo, p_x0) {
                proof {
                    reveal(cubic_bisect_err);
                }
                return Err(PlanError::Numeric);
            }
            if !Self::product_nonpos(p_x0, p_x1) {
                proof {
                    reveal(cubic_bisect_err);
                }
                return Err(PlanError::Numeric);
            }
            if !Self::product_nonpos(p_x1, p_hi) {
                proof {
                    reveal(cubic_bisect_err);
                }
                return Err(PlanError::Numeric);
            }
            let r0 = match Self::bisect(a, b, c, nbound, x0) {
                Ok(v) => v,
                Err(e) => {
                    proof {
                        reveal(cubic_bisect_err);
                        let z = choose|z: int|
                            #![trigger monic_fits(a@, b@, c@, z)]
                            (nbound@ <= z <= x0@ && !monic_fits(a@, b@, c@, z));
                        assert(-bound@ <= z <= bound@ && !monic_fits(a@, b@, c@, z));
                    }
                    return Err(e);
                },
            };
            let r1 = match Self::bisect(a, b, c, x0, x1) {
                Ok(v) => v,
                Err(e) => {
                    proof {
                        reveal(cubic_bisect_err);
                        let z = choose|z: int|
                            #![trigger monic_fits(a@, b@, c@, z)]
                            (x0@ <= z <= x1@ && !monic_fits(a@, b@, c@, z));
                        assert(-bound@ <= z <= bound@ && !monic_fits(a@, b@, c@, z));
                    }
                    return Err(e);
                },
            };
            let r2 = match Self::bisect(a, b, c, x1, bound) {
                Ok(v) => v,
                Err(e) => {
                    proof {
                        reveal(cubic_bisect_err);
                        let z = choose|z: int|
                            #![trigger monic_fits(a@, b@, c@, z)]
                            (x1@ <= z <= bound@ && !monic_fits(a@, b@, c@, z));
                        assert(-bound@ <= z <= bound@ && !monic_fits(a@, b@, c@, z));
                    }
                    return Err(e);
                },
            };
            res.push(r0);
            res.push(r1);
            res.push(r2);
            proof {
                Self::lemma_widen_near(a@, b@, c@, nbound@, x0@, r0@);
                Self::lemma_widen_near(a@, b@, c@, x0@, x1@, r1@);
                Self::lemma_widen_near(a@, b@, c@, x1@, bound@, r2@);
            }
            return Ok(res);
        }

        // One real root.
        if !Self::product_nonpos(p_lo, p_hi) {
            proof {
                reveal(cubic_bisect_err);
            }
            return Err(PlanError::Numeric);
        }
        let r0 = match Self::bisect(a, b, c, nbound, bound) {
            Ok(v) => v,
            Err(e) => {
                proof {
                    reveal(cubic_bisect_err);
                    let z = choose|z: int|
                        #![trigger monic_fits(a@, b@, c@, z)]
                        (nbound@ <= z <= bound@ && !monic_fits(a@, b@, c@, z));
                    assert(-bound@ <= z <= bound@ && !monic_fits(a@, b@, c@, z));
                }
                return Err(e);
            },
        };
        res.push(r0);
        proof {
            Self::lemma_widen_near(a@, b@, c@, nbound@, bound@, r0@);
        }
        Ok(res)
    }

    /// Real roots of the monic cubic `x^3 + a*x^2 + b*x + c`, ascending,
    /// following the classic discriminant case split: an exact triple
    /// root, the double-root branch (with the discriminant comparison
    /// `729*r^2 == 2916*q^3` kept in its product form, as written for
    /// exact computation), and otherwise one or three roots located by
    /// bisection, since the closed trigonometric forms need
    /// transcendental functions that exact fixed-point cannot supply.
    #[verifier::rlimit(100)]
    fn gsl_poly_solve_cubic(a: Fixed, b: Fixed, c: Fixed) -> (r: Result<Vec<Fixed>, PlanError>)
        requires
            a.wf(),
            b.wf(),
            c.wf(),
        ensures
            match r {
                Ok(roots) => {
                    &&& forall|i: int| 0 <= i < roots@.len() ==> (#[trigger] roots@[i]).wf()
                    &&& cubic_roots_ok(
                        a@,
                        b@,
                        c@,
                        Seq::new(roots@.len(), |i: int| roots@[i]@),
                    )
                },
                Err(e) => e == PlanError::Numeric,
            },
            (r is Err) ==> cubic_err(a@, b@, c@),
    {
        let mut res: Vec<Fixed> = Vec::new();

        let a2 = match a.mul(a) {
            Ok(v) => v,
            Err(e) => {
                proof {
                    reveal(cubic_err);
                }
                return Err(e);
            },
        };
        let b3 = match b.mul_int(3) {
            Ok(v) => v,
            Err(e) => {
                proof {
                    reveal(cubic_err);
                }
                return Err(e);
            },
        };
        let q = match a2.sub(b3) {
            Ok(v) => v,
            Err(e) => {
                proof {
                    reveal(cubic_err);
                }
                return Err(e);
            },
        };
        let a3 = match a2.mul(a) {
            Ok(v) => v,
            Err(e) => {
                proof {
                    reveal(cubic_err);
                }
                return Err(e);
            },
        };
        let ab = match a.mul(b) {
            Ok(v) => v,
            Err(e) => {
                proof {
                    reveal(cubic_err);
                }
                return Err(e);
            },
        };
        let ta3 = match a3.mul_int(2) {
            Ok(v) => v,
            Err(e) => {
                proof {
                    reveal(cubic_err);
                }
                return Err(e);
            },
        };
        let nab = match ab.mul_int(9) {
            Ok(v) => v,
            Err(e) => {
                proof {
                    reveal(cubic_err);
                }
                return Err(e);
            },
        };
        let sc = match c.mul_int(27) {
            Ok(v) => v,
            Err(e) => {
                proof {
                    reveal(cubic_err);
                }
                return Err(e);
            },
        };
        let rr = match ta3.sub(nab) {
            Ok(v) => v,
            Err(e) => {
                proof {
                    reveal(cubic_err);
                }
                return Err(e);
            },
        };
        let rr = match rr.add(sc) {
            Ok(v) => v,
            Err(e) => {
                proof {
                    reveal(cubic_err);
                }
                return Err(e);
            },
        };

        let qq = q.div_int(9);
        let bigr = rr.div_int(54);

        let cr2 = rr.square_times(729);
        let cq3 = match q.cube_times(2916) {
            Some(v) => v,
            None => {
                proof {
                    reveal(cubic_err);
                }
                return Err(PlanError::Numeric);
            },
        };

        let t = a.div_int(3);

        if bigr.is_zero() && qq.is_zero() {
            let root = t.neg();
            res.push(root);
            res.push(root);
            res.push(root);
            proof {
                assert(Seq::new(res@.len(), |i: int| res@[i]@) =~= seq![
                    -rdiv(a@, 3),
                    -rdiv(a@, 3),
                    -rdiv(a@, 3),
                ]);
            }
            return Ok(res);
        }

        if cr2 == cq3 {
            // The test `R^2 == Q^3` in a form suitable for exact
            // computation.  A double root plus a simple root.
            let sq = match qq.sqrt() {
                Ok(v) => v,
                Err(e) => {
                    proof {
                        reveal(cubic_err);
                    }
                    return Err(e);
                },
            };
            let tsq = match sq.mul_int(2) {
                Ok(v) => v,
                Err(e) => {
                    // Unreachable: twice the bounded square root fits.
                    proof {
                        assert(false);
                    }
                    return Err(e);
                },
            };
            if Fixed::zero().lt(bigr) {
                let r0 = match tsq.neg().sub(t) {
                    Ok(v) => v,
                    Err(e) => {
                        return Err(e);
                    },
                };
                let r1 = match sq.sub(t) {
                    Ok(v) => v,
                    Err(e) => {
                        return Err(e);
                    },
                };
                res.push(r0);
                res.push(r1);
                res.push(r1);
                proof {
                    assert(sq@ == sqrt_val(rdiv(cub_q(a@, b@), 9)));
                    assert(Seq::new(res@.len(), |i: int| res@[i]@) =~= seq![
                        -2 * sq@ - rdiv(a@, 3),
                        sq@ - rdiv(a@, 3),
                        sq@ - rdiv(a@, 3),
                    ]);
                }
            } else {
                let r0 = match sq.neg().sub(t) {
                    Ok(v) => v,
                    Err(e) => {
                        return Err(e);
                    },
                };
                let r2 = match tsq.sub(t) {
                    Ok(v) => v,
                    Err(e) => {
                        return Err(e);
                    },
                };
                res.push(r0);
                res.push(r0);
                res.push(r2);
                proof {
                    assert(sq@ == sqrt_val(rdiv(cub_q(a@, b@), 9)));
                    assert(Seq::new(res@.len(), |i: int| res@[i]@) =~= seq![
                        -sq@ - rdiv(a@, 3),
                        -sq@ - rdiv(a@, 3),
                        2 * sq@ - rdiv(a@, 3),
                    ]);
                }
            }
            return Ok(res);
        }

        // Remaining cases: one or three roots, found by bisection.
        let bis = Self::cubic_roots_by_bisection(a, b, c, qq, bigr);
        match bis {
            Ok(v) => {
                proof {
                    assert(cubic_roots_ok(a@, b@, c@, Seq::new(v@.len(), |i: int| v@[i]@)));
                }
                Ok(v)
            },
            Err(e) => {
                proof {
                    reveal(cubic_err);
                }
                Err(e)
            },
        }
    }

    /// A quantum bracket inside any subrange is a bracket inside the
    /// representable range.
    proof fn lemma_widen_near(a: int, b: int, c: int, lo: int, hi: int, v: int)
        requires
            near_cubic_root(a, b, c, lo, hi, v),
            -(crate::fixed::MAX_RAW as int) <= lo,
            hi <= crate::fixed::MAX_RAW as int,
        ensures
            near_cubic_root(
                a,
                b,
                c,
                -(crate::fixed::MAX_RAW as int),
                crate::fixed::MAX_RAW as int,
                v,
            ),
    {
        let (l, h) = choose|l: int, h: int|
            #![trigger cubic_at(a, b, c, l), cubic_at(a, b, c, h)]
            {
                &&& lo <= l <= v <= h <= hi
                &&& h - l <= 2
                &&& cubic_at(a, b, c, l) * cubic_at(a, b, c, h) <= 0
            };
        assert(cubic_at(a, b, c, l) * cubic_at(a, b, c, h) <= 0);
    }

    /// Real roots of `a*x^3 + b*x^2 + c*x + d == 0` for `a != 0`,
    /// ascending: the equation is normalized to monic form and solved by
    /// the discriminant case split above.
    pub fn solve_cubic(a: Fixed, b: Fixed, c: Fixed, d: Fixed) -> (r: Result<Vec<Fixed>, PlanError>)
        requires
            a.wf(),
            b.wf(),
            c.wf(),
            d.wf(),
        ensures
            match r {
                Ok(roots) => {
                    &&& a@ != 0
                    &&& forall|i: int| 0 <= i < roots@.len() ==> (#[trigger] roots@[i]).wf()
                    &&& cubic_roots_ok(
                        fdiv(b@, a@),
                        fdiv(c@, a@),
                        fdiv(d@, a@),
                        Seq::new(roots@.len(), |i: int| roots@[i]@),
                    )
                },
                Err(e) => e == PlanError::Numeric,
            },
            (r is Err) ==> {
                ||| a@ == 0
                ||| !fits(fdiv(b@, a@))
                ||| !fits(fdiv(c@, a@))
                ||| !fits(fdiv(d@, a@))
                ||| cubic_err(fdiv(b@, a@), fdiv(c@, a@), fdiv(d@, a@))
            },
    {
        let na = match b.div(a) {
            Ok(v) => v,
            Err(e) => {
                return Err(e);
            },
        };
        let nb = match c.div(a) {
            Ok(v) => v,
            Err(e) => {
                return Err(e);
            },
        };
        let nc = match d.div(a) {
            Ok(v) => v,
            Err(e) => {
                return Err(e);
            },
        };
        Self::gsl_poly_solve_cubic(na, nb, nc)
    }
}

} // verus!
