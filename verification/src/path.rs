use vstd::prelude::*;
use crate::err::PlanError;
use crate::fixed::{Fixed, SCALE, fdiv, fmul, fits, mag};
use crate::segment::{Segment, SegView, seg_wf, seg_fits, seg_state_at, seg_init_state};

verus! {

/// Raw threshold below which a computed duration counts as zero and its
/// segment is omitted (`1e-12` at value scale).
pub const TINY_RAW: i64 = 1000;

/// Raw tolerance for the solver's own terminal checks (`1e-12`).
pub const CLOSE_RAW: i64 = 1000;

/// Raw tolerance on state agreement across segment boundaries (`5e-9`):
/// omitting a sub-`TINY_RAW` segment shifts the joined state by at most
/// the threshold times a derivative limit, which the largest
/// representable limit (about 4000) caps at `4e-9`.
pub const BTOL_RAW: i64 = 5_000_000;

/// Raw slack allowed over a derivative limit (`4e-12`): rounding each
/// ramp duration perturbs the reached derivative by less than this.
pub const SLACK_RAW: i64 = 4000;

/// Raw values of a vector of fixed-point numbers.
pub open spec fn raws(s: Seq<Fixed>) -> Seq<int> {
    s.map_values(|f: Fixed| f@)
}

/// Views of a vector of segments.
pub open spec fn views(s: Seq<Segment>) -> Seq<SegView> {
    s.map_values(|g: Segment| g@)
}

/// Mathematical content of a planner: raw limits (highest derivative
/// first), the plan, elapsed time within it, the raw state vector
/// (highest derivative first), and the raw position target.
pub struct PathView {
    pub limits: Seq<int>,
    pub segs: Seq<SegView>,
    pub time: int,
    pub state: Seq<int>,
    pub target: int,
}

/// Every segment well-formed and padded to the planner's state width.
pub open spec fn plan_shape_ok(segs: Seq<SegView>, pad: int) -> bool {
    forall|i: int|
        0 <= i < segs.len() ==> (seg_wf(#[trigger] segs[i]) && segs[i].pad == pad)
}

/// The states agree across the boundary from segment `a` to segment
/// `b`: position exactly (it is handed on, never recomputed), velocity
/// (and acceleration, for jerk-limited plans) within `tol` raw units.
pub open spec fn boundary_close(a: SegView, b: SegView, tol: int) -> bool {
    let ea = seg_state_at(a, a.dur);
    let ib = seg_init_state(b);
    &&& ea[a.pad - 1] == ib[a.pad - 1]
    &&& mag(ea[a.pad - 2] - ib[a.pad - 2]) <= tol
    &&& (a.pad >= 4 ==> mag(ea[a.pad - 3] - ib[a.pad - 3]) <= tol)
}

/// Every adjacent pair of segments joins continuously within `tol`.
pub open spec fn plan_continuous(segs: Seq<SegView>, tol: int) -> bool {
    forall|i: int|
        0 <= i < segs.len() - 1 ==> #[trigger] boundary_close(segs[i], segs[i + 1], tol)
}

/// The first segment starts at the given state: at its position
/// exactly, and at its velocity (and acceleration, for jerk-limited
/// plans) within `tol`.  When the first segment is a full ramp (it
/// carries every state slot), its velocity matches exactly too; only a
/// plan whose sub-tiny leading ramp was omitted starts at a coast whose
/// velocity may differ by the tolerance.
pub open spec fn first_close(state: Seq<int>, segs: Seq<SegView>, pad: int, tol: int) -> bool {
    segs.len() > 0 ==> {
        let ib = seg_init_state(segs[0]);
        &&& ib[pad - 1] == state[pad - 1]
        &&& mag(ib[pad - 2] - state[pad - 2]) <= tol
        &&& (segs[0].vals.len() == pad ==> ib[pad - 2] == state[pad - 2])
        &&& (pad >= 4 ==> mag(ib[pad - 3] - state[pad - 3]) <= tol)
    }
}

/// Each limited derivative order stays within its configured limit (plus
/// `slack` raw units of rounding) at both ends of the segment.
pub open spec fn seg_limits_ok(lims: Seq<int>, v: SegView, slack: int) -> bool {
    forall|k: int|
        0 <= k < lims.len() ==> {
            &&& mag(#[trigger] seg_init_state(v)[k]) <= lims[k] + slack
            &&& mag(seg_state_at(v, v.dur)[k]) <= lims[k] + slack
        }
}

/// Limit respect over the whole plan.
pub open spec fn plan_within_limits(lims: Seq<int>, segs: Seq<SegView>, slack: int) -> bool {
    forall|i: int| 0 <= i < segs.len() ==> #[trigger] seg_limits_ok(lims, segs[i], slack)
}

/// The state the plan ends in: the base state when the plan is empty,
/// otherwise the last segment evaluated at its full duration.
pub open spec fn plan_end(base: Seq<int>, segs: Seq<SegView>) -> Seq<int> {
    if segs.len() == 0 {
        base
    } else {
        seg_state_at(segs.last(), segs.last().dur)
    }
}

/// Total raw duration of the first `k` segments.
pub open spec fn sum_dur(segs: Seq<SegView>, k: int) -> int
    decreases k,
{
    if k <= 0 {
        0
    } else {
        sum_dur(segs, k - 1) + segs[k - 1].dur
    }
}

/// How many leading segments a total elapsed time `t` consumes: each
/// segment is consumed, and its duration subtracted, once the remaining
/// time reaches its full duration.
pub open spec fn pop_count(segs: Seq<SegView>, t: int) -> int
    decreases segs.len(),
{
    if segs.len() == 0 {
        0
    } else if t < segs[0].dur {
        0
    } else {
        1 + pop_count(segs.skip(1), t - segs[0].dur)
    }
}

/// Every quantity the level-1 position solver computes, as functions of
/// the leading limit `l0`, the cruise limit `l1`, the state `end0` it
/// grows from, and the target `starg` for slot 2.  This names the whole
/// construction: bang-bang ramps at exactly the signed
/// limit, a coast at exactly the signed cruise value, the larger
/// quadratic root as the ramp time when the trapezoid degenerates, and
/// the final ramp's sign flipped when both roots are positive.
pub struct Calc2 {
    pub sd: int,
    pub v1: int,
    pub vd: int,
    pub a0: int,
    pub a2a: int,
    pub t0a: int,
    pub t1a: int,
    pub t2a: int,
    pub x: int,
    pub qb: int,
    pub qc: int,
    pub triangle: bool,
    pub flip: bool,
    pub t0: int,
    pub t1: int,
    pub t2: int,
    pub a2: int,
}

pub open spec fn calc2_plan(l0: int, l1: int, end0: Seq<int>, starg: int) -> Calc2 {
    let sd = starg - end0[2];
    let v1 = if sd >= 0 {
        l1
    } else {
        -l1
    };
    let vd = v1 - end0[1];
    let a0 = if vd >= 0 {
        l0
    } else {
        -l0
    };
    let a2a = if v1 >= 0 {
        -l0
    } else {
        l0
    };
    let t0a = fdiv(vd, a0);
    let t2a = fdiv(-v1, a2a);
    let term1 = fdiv(sd, v1);
    let term2 = fdiv(fdiv(crate::fixed::rdiv(fmul(end0[1], end0[1]), 2), a0), v1);
    let term3 = fdiv(crate::fixed::rdiv(v1, 2), a0);
    let term4 = fdiv(crate::fixed::rdiv(v1, 2), a2a);
    let t1a = term1 + term2 - term3 + term4;
    let triangle = t1a < 0;
    let x = fdiv(end0[1], a0);
    let qb = fmul(2 * SCALE, x);
    let qc = fdiv(fmul(crate::fixed::rdiv(end0[1], 2), x), a0) - fdiv(sd, a0);
    let flip = triangle && crate::poly::quad_root_lo(SCALE as int, qb, qc) > 0;
    Calc2 {
        sd: sd,
        v1: v1,
        vd: vd,
        a0: a0,
        a2a: a2a,
        t0a: t0a,
        t1a: t1a,
        t2a: t2a,
        x: x,
        qb: qb,
        qc: qc,
        triangle: triangle,
        flip: flip,
        t0: if triangle {
            crate::poly::quad_root_hi(SCALE as int, qb, qc)
        } else {
            t0a
        },
        t1: if triangle {
            0
        } else {
            t1a
        },
        t2: if triangle {
            crate::poly::quad_root_hi(SCALE as int, qb, qc) + x
        } else {
            t2a
        },
        a2: if flip {
            -a2a
        } else {
            a2a
        },
    }
}

/// The leading ramp the solver emits: the grown-from state with its top
/// slot driven at exactly the signed limit.
pub open spec fn calc2_seg1(l0: int, l1: int, end0: Seq<int>, starg: int, pad: int) -> SegView {
    let c = calc2_plan(l0, l1, end0, starg);
    SegView { vals: end0.update(0, c.a0), dur: c.t0, pad: pad }
}

/// State after the leading ramp (unchanged when the ramp is omitted as
/// tiny).
pub open spec fn calc2_e1(l0: int, l1: int, end0: Seq<int>, starg: int, pad: int) -> Seq<int> {
    let c = calc2_plan(l0, l1, end0, starg);
    if mag(c.t0) > TINY_RAW {
        seg_state_at(calc2_seg1(l0, l1, end0, starg, pad), c.t0)
    } else {
        end0
    }
}

/// The coast the solver emits: one slot narrower, starting at exactly
/// the signed cruise value.
pub open spec fn calc2_seg2(l0: int, l1: int, end0: Seq<int>, starg: int, pad: int) -> SegView {
    let c = calc2_plan(l0, l1, end0, starg);
    let e1 = calc2_e1(l0, l1, end0, starg, pad);
    SegView { vals: e1.subrange(1, pad).update(0, c.v1), dur: c.t1, pad: pad }
}

/// State after the coast.
pub open spec fn calc2_e2(l0: int, l1: int, end0: Seq<int>, starg: int, pad: int) -> Seq<int> {
    let c = calc2_plan(l0, l1, end0, starg);
    let e1 = calc2_e1(l0, l1, end0, starg, pad);
    if mag(c.t1) > TINY_RAW {
        seg_state_at(calc2_seg2(l0, l1, end0, starg, pad), c.t1)
    } else {
        e1
    }
}

/// The final ramp the solver emits.
pub open spec fn calc2_seg3(l0: int, l1: int, end0: Seq<int>, starg: int, pad: int) -> SegView {
    let c = calc2_plan(l0, l1, end0, starg);
    let e2 = calc2_e2(l0, l1, end0, starg, pad);
    SegView { vals: e2.update(0, c.a2), dur: c.t2, pad: pad }
}

/// The state the constructed plan ends in.
pub open spec fn calc2_end(l0: int, l1: int, end0: Seq<int>, starg: int, pad: int) -> Seq<int> {
    let c = calc2_plan(l0, l1, end0, starg);
    let e2 = calc2_e2(l0, l1, end0, starg, pad);
    if mag(c.t2) > TINY_RAW {
        seg_state_at(calc2_seg3(l0, l1, end0, starg, pad), c.t2)
    } else {
        e2
    }
}

/// The at-most-three segments the solver appends, in order; each is
/// emitted only when its duration exceeds the tiny threshold.
pub open spec fn calc2_segs(l0: int, l1: int, end0: Seq<int>, starg: int, pad: int) -> Seq<
    SegView,
> {
    let c = calc2_plan(l0, l1, end0, starg);
    let s0 = Seq::<SegView>::empty();
    let s1 = if mag(c.t0) > TINY_RAW {
        s0.push(calc2_seg1(l0, l1, end0, starg, pad))
    } else {
        s0
    };
    let s2 = if mag(c.t1) > TINY_RAW {
        s1.push(calc2_seg2(l0, l1, end0, starg, pad))
    } else {
        s1
    };
    if mag(c.t2) > TINY_RAW {
        s2.push(calc2_seg3(l0, l1, end0, starg, pad))
    } else {
        s2
    }
}

/// Exactly when the level-1 solver reports a numeric failure: a named
/// intermediate leaves the representable range, the degenerate quadratic
/// has no real roots, a computed duration is negative, an emitted
/// segment cannot be evaluated, or the built plan misses its own
/// terminal tolerance.
/// The straight-line and fallback-stage failures of the level-1
/// solver: a named computed intermediate leaves the representable
/// range, or the degenerate quadratic has no real roots.
#[verifier::opaque]
pub open spec fn calc2_err_prefix(l0: int, l1: int, end0: Seq<int>, starg: int) -> bool {
    let c = calc2_plan(l0, l1, end0, starg);
    let term1 = fdiv(c.sd, c.v1);
    let term2 = fdiv(fdiv(crate::fixed::rdiv(fmul(end0[1], end0[1]), 2), c.a0), c.v1);
    let term3 = fdiv(crate::fixed::rdiv(c.v1, 2), c.a0);
    let term4 = fdiv(crate::fixed::rdiv(c.v1, 2), c.a2a);
    ||| !fits(c.sd)
    ||| !fits(c.vd)
    ||| !fits(c.t0a)
    ||| !fits(c.t2a)
    ||| !fits(term1)
    ||| !fits(fmul(end0[1], end0[1]))
    ||| !fits(fdiv(crate::fixed::rdiv(fmul(end0[1], end0[1]), 2), c.a0))
    ||| !fits(term2)
    ||| !fits(term3)
    ||| !fits(term4)
    ||| !fits(term1 + term2)
    ||| !fits(term1 + term2 - term3)
    ||| !fits(c.t1a)
    ||| (c.triangle && {
        ||| !fits(c.x)
        ||| !fits(c.qb)
        ||| !fits(fmul(crate::fixed::rdiv(end0[1], 2), c.x))
        ||| !fits(fdiv(fmul(crate::fixed::rdiv(end0[1], 2), c.x), c.a0))
        ||| !fits(fdiv(c.sd, c.a0))
        ||| !fits(c.qc)
        ||| crate::poly::quad_err(SCALE as int, c.qb, c.qc)
        ||| crate::poly::quad_disc(SCALE as int, c.qb, c.qc) < 0
        ||| !fits(c.t2)
    })
}

/// Exactly when the level-1 solver reports a numeric failure.
#[verifier::opaque]
pub open spec fn calc2_err(l0: int, l1: int, end0: Seq<int>, starg: int, pad: int) -> bool {
    let c = calc2_plan(l0, l1, end0, starg);
    ||| calc2_err_prefix(l0, l1, end0, starg)
    ||| c.t0 < 0
    ||| c.t1 < 0
    ||| c.t2 < 0
    ||| calc2_err_tail(l0, l1, end0, starg, pad)
}

/// The emission-stage failures of the level-1 solver: an emitted
/// segment cannot be evaluated, or the built plan misses its own
/// terminal tolerance.
#[verifier::opaque]
pub open spec fn calc2_err_tail(l0: int, l1: int, end0: Seq<int>, starg: int, pad: int) -> bool {
    let c = calc2_plan(l0, l1, end0, starg);
    ||| (mag(c.t0) > TINY_RAW && !seg_fits(calc2_seg1(l0, l1, end0, starg, pad), c.t0))
    ||| (mag(c.t1) > TINY_RAW && !seg_fits(calc2_seg2(l0, l1, end0, starg, pad), c.t1))
    ||| (mag(c.t2) > TINY_RAW && !seg_fits(calc2_seg3(l0, l1, end0, starg, pad), c.t2))
    ||| mag(calc2_end(l0, l1, end0, starg, pad)[1]) >= CLOSE_RAW
    ||| mag(calc2_end(l0, l1, end0, starg, pad)[2] - starg) >= CLOSE_RAW
}

/// Appending the level-1 construction to a plan moves its end state to
/// the construction\'s own end state.
pub proof fn lemma_calc2_plan_end(
    l0: int,
    l1: int,
    end0: Seq<int>,
    starg: int,
    pad: int,
    pbase: Seq<int>,
    oldv: Seq<SegView>,
)
    requires
        plan_end(pbase, oldv) == end0,
    ensures
        plan_end(pbase, oldv + calc2_segs(l0, l1, end0, starg, pad)) == calc2_end(
            l0,
            l1,
            end0,
            starg,
            pad,
        ),
{
    let c = calc2_plan(l0, l1, end0, starg);
    let s = calc2_segs(l0, l1, end0, starg, pad);
    let all = oldv + s;
    if s.len() > 0 {
        assert(all.len() == oldv.len() + s.len());
        assert(all.last() == s.last());
        if mag(c.t2) > TINY_RAW {
            assert(s.last() == calc2_seg3(l0, l1, end0, starg, pad));
        } else if mag(c.t1) > TINY_RAW {
            assert(s.last() == calc2_seg2(l0, l1, end0, starg, pad));
        } else {
            assert(s.last() == calc2_seg1(l0, l1, end0, starg, pad));
        }
    } else {
        assert(all =~= oldv);
    }
}

/// Law: within a well-formed segment whose limited derivative slots are
/// inside their limits at both ends, each such slot stays inside its
/// limit at every offset: the top slot is constant, and the slot below
/// it varies monotonically between its end values.
pub proof fn lemma_seg_limit_at_offset(lims: Seq<int>, v: SegView, t: int, k: int)
    requires
        seg_wf(v),
        v.pad == lims.len() + 2,
        lims.len() <= 2,
        forall|m: int| 0 <= m < lims.len() ==> #[trigger] lims[m] >= 0,
        seg_limits_ok(lims, v, SLACK_RAW as int),
        0 <= t <= v.dur,
        0 <= k < lims.len(),
    ensures
        mag(seg_state_at(v, t)[k]) <= lims[k] + SLACK_RAW,
{
    let z = v.pad - v.vals.len();
    let init = seg_init_state(v);
    let fin = seg_state_at(v, v.dur);
    let at = seg_state_at(v, t);
    assert(mag(init[k]) <= lims[k] + SLACK_RAW);
    assert(mag(fin[k]) <= lims[k] + SLACK_RAW);
    if k < z {
        assert(at[k] == 0);
    } else {
        let j = k - z;
        let v0 = v.vals[0];
        if j == 0 {
            assert(at[k] == crate::segment::acc_val(v.vals, t, 0, 0));
            assert(at[k] == v0);
            assert(init[k] == v0);
        } else {
            let base1 = v.vals[1];
            assert(at[k] == crate::segment::acc_val(v.vals, t, 1, 1));
            assert(crate::segment::acc_val(v.vals, t, 1, 0) == v0);
            assert(at[k] == base1 + crate::fixed::rdiv(crate::fixed::fmul(v0, t), 1));
            assert(fin[k] == crate::segment::acc_val(v.vals, v.dur, 1, 1));
            assert(crate::segment::acc_val(v.vals, v.dur, 1, 0) == v0);
            assert(fin[k] == base1 + crate::fixed::rdiv(crate::fixed::fmul(v0, v.dur), 1));
            assert(init[k] == base1);
            crate::fixed::lemma_rdiv_exact(
                crate::fixed::fmul(v0, t),
                1,
                crate::fixed::fmul(v0, t),
            );
            crate::fixed::lemma_rdiv_exact(
                crate::fixed::fmul(v0, v.dur),
                1,
                crate::fixed::fmul(v0, v.dur),
            );
            vstd::arithmetic::div_mod::lemma_basic_div(crate::fixed::SCALE as int, 2 * (
            crate::fixed::SCALE as int));
            assert(crate::fixed::rdiv_pos(0, crate::fixed::SCALE as int) == 0);
            if v0 >= 0 {
                assert(0 <= v0 * t <= v0 * v.dur) by (nonlinear_arith)
                    requires
                        0 <= t <= v.dur,
                        v0 >= 0,
                ;
                crate::fixed::lemma_rdiv_pos_mono(0, v0 * t, crate::fixed::SCALE as int);
                crate::fixed::lemma_rdiv_pos_mono(v0 * t, v0 * v.dur, crate::fixed::SCALE as int);
            } else {
                assert(v0 * v.dur <= v0 * t <= 0) by (nonlinear_arith)
                    requires
                        0 <= t <= v.dur,
                        v0 < 0,
                ;
                crate::fixed::lemma_rdiv_pos_mono(v0 * t, 0, crate::fixed::SCALE as int);
                crate::fixed::lemma_rdiv_pos_mono(v0 * v.dur, v0 * t, crate::fixed::SCALE as int);
            }
        }
    }
}

/// Copy a vector of fixed-point values.
fn copy_vec(v: &Vec<Fixed>) -> (r: Vec<Fixed>)
    ensures
        r@ == v@,
{
    let mut out: Vec<Fixed> = Vec::new();
    let mut i: usize = 0;
    while i < v.len()
        invariant
            i <= v@.len(),
            out@ == v@.take(i as int),
        decreases v@.len() - i,
    {
        out.push(v[i]);
        i = i + 1;
    }
    proof {
        assert(out@ =~= v@);
    }
    out
}

/// Build `[head]` followed by `v[from + 1 ..]`: the tail of a state
/// vector with its leading entry replaced.
fn head_tail(head: Fixed, v: &Vec<Fixed>, from: usize) -> (r: Vec<Fixed>)
    requires
        from < v@.len() <= 8,
    ensures
        r@.len() == v@.len() - from,
        r@[0] == head,
        forall|i: int| 1 <= i < r@.len() ==> r@[i] == v@[from + i],
{
    let mut out: Vec<Fixed> = Vec::new();
    out.push(head);
    let mut i: usize = from + 1;
    while i < v.len()
        invariant
            from + 1 <= i <= v@.len(),
            out@.len() == i - from,
            out@[0] == head,
            forall|m: int| 1 <= m < out@.len() ==> out@[m] == v@[from + m],
        decreases v@.len() - i,
    {
        out.push(v[i]);
        i = i + 1;
    }
    out
}

/// Evaluate the end state of a plan grown from `base`.
fn end_state(base: &Vec<Fixed>, segs: &Vec<Segment>, pad: usize) -> (r: Result<
    Vec<Fixed>,
    PlanError,
>)
    requires
        base@.len() == pad,
        forall|i: int| 0 <= i < base@.len() ==> (#[trigger] base@[i]).wf(),
        plan_shape_ok(views(segs@), pad as int),
    ensures
        (r is Err) <==> (segs@.len() > 0 && !seg_fits(
            views(segs@).last(),
            views(segs@).last().dur,
        )),
        match r {
            Ok(v) => {
                &&& v@.len() == pad
                &&& forall|k: int| 0 <= k < v@.len() ==> (#[trigger] v@[k]).wf()
                &&& raws(v@) =~= plan_end(raws(base@), views(segs@))
            },
            Err(e) => e == PlanError::Numeric,
        },
{
    if segs.len() == 0 {
        let r = copy_vec(base);
        proof {
            assert(raws(r@) =~= plan_end(raws(base@), views(segs@)));
        }
        return Ok(r);
    }
    let i = segs.len() - 1;
    proof {
        assert(seg_wf(views(segs@)[i as int]));
        assert(views(segs@)[i as int] == segs@[i as int]@);
    }
    match segs[i].get_end_state() {
        Ok(v) => {
            proof {
                assert(views(segs@).last() == segs@[i as int]@);
                assert(raws(v@) =~= plan_end(raws(base@), views(segs@)));
            }
            Ok(v)
        },
        Err(e) => Err(e),
    }
}

/// Build a segment, evaluate its end state, and append it to the plan.
fn push_and_advance(
    segs: &mut Vec<Segment>,
    iv: Vec<Fixed>,
    dur: Fixed,
    pad: usize,
) -> (r: Result<Vec<Fixed>, PlanError>)
    requires
        1 <= iv@.len() <= pad <= 8,
        forall|i: int| 0 <= i < iv@.len() ==> (#[trigger] iv@[i]).wf(),
        dur.wf(),
        dur@ >= 0,
    ensures
        match r {
            Ok(v) => {
                &&& final(segs)@.len() == old(segs)@.len() + 1
                &&& forall|i: int| 0 <= i < old(segs)@.len() ==> final(segs)@[i] == old(segs)@[i]
                &&& final(segs)@.last()@.vals =~= raws(iv@)
                &&& final(segs)@.last()@.dur == dur@
                &&& final(segs)@.last()@.pad == pad as int
                &&& final(segs)@.last().wf()
                &&& v@.len() == pad
                &&& forall|k: int| 0 <= k < v@.len() ==> (#[trigger] v@[k]).wf()
                &&& raws(v@) =~= seg_state_at(final(segs)@.last()@, dur@)
                &&& plan_shape_ok(views(old(segs)@), pad as int) ==> plan_shape_ok(
                    views(final(segs)@),
                    pad as int,
                )
            },
            Err(e) => e == PlanError::Numeric && final(segs)@ == old(segs)@,
        },
        (r is Err) <==> !seg_fits(
            (SegView { vals: raws(iv@), dur: dur@, pad: pad as int }),
            dur@,
        ),
{
    let seg = Segment::new(iv, dur, pad);
    match seg.get_end_state() {
        Ok(v) => {
            segs.push(seg);
            proof {
                assert(views(segs@) =~= views(old(segs)@).push(seg@));
                if plan_shape_ok(views(old(segs)@), pad as int) {
                    assert forall|i: int| 0 <= i < views(segs@).len() implies (seg_wf(
                        #[trigger] views(segs@)[i],
                    ) && views(segs@)[i].pad == pad as int) by {
                        if i < views(old(segs)@).len() {
                            assert(views(segs@)[i] == views(old(segs)@)[i]);
                        }
                    }
                }
            }
            Ok(v)
        },
        Err(e) => Err(e),
    }
}

/// Every emitted segment is longer than the tiny-duration threshold.
pub open spec fn plan_durations_ok(segs: Seq<SegView>) -> bool {
    forall|i: int| 0 <= i < segs.len() ==> #[trigger] segs[i].dur > TINY_RAW
}

/// Everything the plan validator accepts: continuity, limit respect, a
/// start matching the live state, no segment at or below the tiny
/// threshold, and at most seven segments.
pub open spec fn plan_acceptable(lims: Seq<int>, state: Seq<int>, sv: Seq<SegView>, pad: int) -> bool {
    &&& plan_continuous(sv, BTOL_RAW as int)
    &&& plan_within_limits(lims, sv, SLACK_RAW as int)
    &&& first_close(state, sv, pad, BTOL_RAW as int)
    &&& plan_durations_ok(sv)
    &&& sv.len() <= 7
}

/// Validate a freshly built plan: continuity across every boundary, a
/// start matching the live state, limit respect for every segment, no
/// segment at or below the tiny-duration threshold, and at most the
/// seven segments a full S-curve can need.  The verdict is exact: `true`
/// if and only if all of these hold.
#[verifier::rlimit(100)]
fn check_plan(lims: &Vec<Fixed>, base: &Vec<Fixed>, segs: &Vec<Segment>, pad: usize) -> (r: Result<
    bool,
    PlanError,
>)
    requires
        lims@.len() + 2 == pad,
        forall|i: int| 0 <= i < lims@.len() ==> (#[trigger] lims@[i]).wf(),
        base@.len() == pad,
        forall|i: int| 0 <= i < base@.len() ==> (#[trigger] base@[i]).wf(),
        plan_shape_ok(views(segs@), pad as int),
    ensures
        (r is Err) ==> (exists|i: int|
            0 <= i < segs@.len() && !seg_fits(#[trigger] views(segs@)[i], views(segs@)[i].dur)),
        match r {
            Ok(ok) => ok <==> plan_acceptable(raws(lims@), raws(base@), views(segs@), pad as int),
            Err(e) => e == PlanError::Numeric,
        },
{
    let n = segs.len();
    if n == 0 {
        return Ok(true);
    }
    if n > 7 {
        return Ok(false);
    }
    proof {
        assert(seg_wf(views(segs@)[0]));
    }
    let ib0 = segs[0].init_state();
    proof {
        assert(raws(base@)[pad - 1] == base@[pad - 1]@);
        assert(raws(base@)[pad - 2] == base@[pad - 2]@);
        if pad >= 4 {
            assert(raws(base@)[pad - 3] == base@[pad - 3]@);
        }
    }
    let dp = ib0[pad - 1].raw() - base[pad - 1].raw();
    if dp != 0 {
        proof {
            assert(!first_close(raws(base@), views(segs@), pad as int, BTOL_RAW as int));
        }
        return Ok(false);
    }
    let dv = ib0[pad - 2].raw() - base[pad - 2].raw();
    if dv > BTOL_RAW || dv < -BTOL_RAW {
        proof {
            assert(!first_close(raws(base@), views(segs@), pad as int, BTOL_RAW as int));
        }
        return Ok(false);
    }
    if segs[0].init_len() == pad && dv != 0 {
        proof {
            assert(!first_close(raws(base@), views(segs@), pad as int, BTOL_RAW as int));
        }
        return Ok(false);
    }
    if pad >= 4 {
        let da = ib0[pad - 3].raw() - base[pad - 3].raw();
        if da > BTOL_RAW || da < -BTOL_RAW {
            proof {
                assert(!first_close(raws(base@), views(segs@), pad as int, BTOL_RAW as int));
            }
            return Ok(false);
        }
    }
    let mut i: usize = 0;
    while i < n
        invariant
            i <= n,
            n == segs@.len(),
            pad == lims@.len() + 2,
            forall|m: int| 0 <= m < lims@.len() ==> (#[trigger] lims@[m]).wf(),
            plan_shape_ok(views(segs@), pad as int),
            forall|m: int| 0 <= m < i ==> #[trigger] views(segs@)[m].dur > TINY_RAW,
            forall|m: int|
                0 <= m < i ==> #[trigger] seg_limits_ok(
                    raws(lims@),
                    views(segs@)[m],
                    SLACK_RAW as int,
                ),
            forall|m: int|
                0 <= m < i && m < n - 1 ==> #[trigger] boundary_close(
                    views(segs@)[m],
                    views(segs@)[m + 1],
                    BTOL_RAW as int,
                ),
        decreases n - i,
    {
        proof {
            assert(seg_wf(views(segs@)[i as int]));
        }
        if segs[i].get_duration().raw() <= TINY_RAW {
            proof {
                assert(!plan_durations_ok(views(segs@))) by {
                    if plan_durations_ok(views(segs@)) {
                        assert(views(segs@)[i as int].dur > TINY_RAW);
                    }
                }
            }
            return Ok(false);
        }
        let es = match segs[i].get_end_state() {
            Ok(v) => v,
            Err(e) => {
                proof {
                    assert(!seg_fits(views(segs@)[i as int], views(segs@)[i as int].dur));
                }
                return Err(e);
            },
        };
        let init = segs[i].init_state();
        let mut k: usize = 0;
        while k < lims.len()
            invariant
                k <= lims@.len(),
                i < n,
                n == segs@.len(),
                pad == lims@.len() + 2,
                forall|m: int| 0 <= m < lims@.len() ==> (#[trigger] lims@[m]).wf(),
                plan_shape_ok(views(segs@), pad as int),
                es@.len() == pad,
                init@.len() == pad,
                forall|m: int|
                    0 <= m < es@.len() ==> (#[trigger] es@[m])@ == seg_state_at(
                        views(segs@)[i as int],
                        views(segs@)[i as int].dur,
                    )[m],
                forall|m: int|
                    0 <= m < init@.len() ==> (#[trigger] init@[m])@ == seg_init_state(
                        views(segs@)[i as int],
                    )[m],
                forall|m: int|
                    0 <= m < k ==> {
                        &&& mag(#[trigger] seg_init_state(views(segs@)[i as int])[m]) <= raws(
                            lims@,
                        )[m] + SLACK_RAW
                        &&& mag(
                            seg_state_at(
                                views(segs@)[i as int],
                                views(segs@)[i as int].dur,
                            )[m],
                        ) <= raws(lims@)[m] + SLACK_RAW
                    },
        decreases lims@.len() - k,
        {
            let lim = lims[k].raw();
            proof {
                assert(raws(lims@)[k as int] == lims@[k as int]@);
            }
            let iv = init[k].raw();
            if iv > lim + SLACK_RAW || iv < -(lim + SLACK_RAW) {
                proof {
                    assert(!seg_limits_ok(raws(lims@), views(segs@)[i as int], SLACK_RAW as int))
                        by {
                        if seg_limits_ok(raws(lims@), views(segs@)[i as int], SLACK_RAW as int) {
                            assert(mag(seg_init_state(views(segs@)[i as int])[k as int]) <= raws(
                                lims@,
                            )[k as int] + SLACK_RAW);
                        }
                    }
                    assert(!plan_within_limits(raws(lims@), views(segs@), SLACK_RAW as int)) by {
                        if plan_within_limits(raws(lims@), views(segs@), SLACK_RAW as int) {
                            assert(seg_limits_ok(
                                raws(lims@),
                                views(segs@)[i as int],
                                SLACK_RAW as int,
                            ));
                        }
                    }
                }
                return Ok(false);
            }
            let ev = es[k].raw();
            if ev > lim + SLACK_RAW || ev < -(lim + SLACK_RAW) {
                proof {
                    assert(!seg_limits_ok(raws(lims@), views(segs@)[i as int], SLACK_RAW as int))
                        by {
                        if seg_limits_ok(raws(lims@), views(segs@)[i as int], SLACK_RAW as int) {
                            assert(mag(
                                seg_state_at(
                                    views(segs@)[i as int],
                                    views(segs@)[i as int].dur,
                                )[k as int],
                            ) <= raws(lims@)[k as int] + SLACK_RAW);
                        }
                    }
                    assert(!plan_within_limits(raws(lims@), views(segs@), SLACK_RAW as int)) by {
                        if plan_within_limits(raws(lims@), views(segs@), SLACK_RAW as int) {
                            assert(seg_limits_ok(
                                raws(lims@),
                                views(segs@)[i as int],
                                SLACK_RAW as int,
                            ));
                        }
                    }
                }
                return Ok(false);
            }
            k = k + 1;
        }
        proof {
            assert(seg_limits_ok(raws(lims@), views(segs@)[i as int], SLACK_RAW as int));
        }
        if i + 1 < n {
            proof {
                assert(seg_wf(views(segs@)[i as int + 1]));
            }
            let ib = segs[i + 1].init_state();
            let dp = es[pad - 1].raw() - ib[pad - 1].raw();
            if dp != 0 {
                proof {
                    assert(!plan_continuous(views(segs@), BTOL_RAW as int)) by {
                        if plan_continuous(views(segs@), BTOL_RAW as int) {
                            assert(boundary_close(
                                views(segs@)[i as int],
                                views(segs@)[i as int + 1],
                                BTOL_RAW as int,
                            ));
                        }
                    }
                }
                return Ok(false);
            }
            let dv = es[pad - 2].raw() - ib[pad - 2].raw();
            if dv > BTOL_RAW || dv < -BTOL_RAW {
                proof {
                    assert(!plan_continuous(views(segs@), BTOL_RAW as int)) by {
                        if plan_continuous(views(segs@), BTOL_RAW as int) {
                            assert(boundary_close(
                                views(segs@)[i as int],
                                views(segs@)[i as int + 1],
                                BTOL_RAW as int,
                            ));
                        }
                    }
                }
                return Ok(false);
            }
            if pad >= 4 {
                let da = es[pad - 3].raw() - ib[pad - 3].raw();
                if da > BTOL_RAW || da < -BTOL_RAW {
                    proof {
                        assert(!plan_continuous(views(segs@), BTOL_RAW as int)) by {
                            if plan_continuous(views(segs@), BTOL_RAW as int) {
                                assert(boundary_close(
                                    views(segs@)[i as int],
                                    views(segs@)[i as int + 1],
                                    BTOL_RAW as int,
                                ));
                            }
                        }
                    }
                    return Ok(false);
                }
            }
            proof {
                assert(boundary_close(
                    views(segs@)[i as int],
                    views(segs@)[i as int + 1],
                    BTOL_RAW as int,
                ));
            }
        }
        i = i + 1;
    }
    Ok(true)
}

/// The at-most-one ramp the velocity-adjustment solver emits.
#[verifier::opaque]
pub open spec fn calc1_segs(l0: int, end0: Seq<int>, vt: int, pad: int) -> Seq<SegView> {
    let vd = vt - end0[1];
    let aa = if vd >= 0 {
        l0
    } else {
        -l0
    };
    let tt = fdiv(vd, aa);
    if mag(tt) > TINY_RAW {
        seq![SegView { vals: end0.update(0, aa), dur: tt, pad: pad }]
    } else {
        Seq::<SegView>::empty()
    }
}

/// Exactly when the velocity-adjustment solver reports a numeric
/// failure, over the state it grows from.
#[verifier::opaque]
pub open spec fn calc1_err(l0: int, end0: Seq<int>, vt: int, pad: int) -> bool {
    let vd = vt - end0[1];
    let aa = if vd >= 0 {
        l0
    } else {
        -l0
    };
    let tt = fdiv(vd, aa);
    ||| !fits(vd)
    ||| !fits(tt)
    ||| (mag(tt) > TINY_RAW && tt < 0)
    ||| (mag(tt) > TINY_RAW && tt >= 0 && !seg_fits(
        (SegView { vals: end0.update(0, aa), dur: tt, pad: pad }),
        tt,
    ))
}

/// Velocity adjustment (used by `stop` on an acceleration-limited
/// system): one segment at full acceleration toward the velocity target,
/// with no concern for the resulting position.
///
/// The contract is exact: on success the plan either gains the one ramp
/// segment (its initial values are the current end state with the
/// acceleration slot at the signed limit, its duration the rounded time
/// to the velocity target) or, when that time is below the tiny
/// threshold, nothing; failure happens precisely when a named
/// intermediate leaves the representable range or the ramp cannot be
/// evaluated.  Either way the plan's end velocity misses the target by
/// at most the tiny threshold times the acceleration limit plus one
/// rounding quantum.
#[verifier::rlimit(50)]
fn calc_path_1(
    lims: &Vec<Fixed>,
    segs: &mut Vec<Segment>,
    base: &Vec<Fixed>,
    v_target: Fixed,
    pad: usize,
) -> (r: Result<(), PlanError>)
    requires
        lims@.len() >= 1,
        forall|i: int| 0 <= i < lims@.len() ==> (#[trigger] lims@[i]).wf() && lims@[i]@ > 0,
        3 <= pad <= 4,
        base@.len() == pad,
        forall|i: int| 0 <= i < base@.len() ==> (#[trigger] base@[i]).wf(),
        v_target.wf(),
        plan_shape_ok(views(old(segs)@), pad as int),
    ensures
        (r is Err) <==> ({
            let end0 = plan_end(raws(base@), views(old(segs)@));
            ||| (old(segs)@.len() > 0 && !seg_fits(
                views(old(segs)@).last(),
                views(old(segs)@).last().dur,
            ))
            ||| calc1_err(lims@[0]@, end0, v_target@, pad as int)
        }),
        match r {
            Ok(()) => {
                let end0 = plan_end(raws(base@), views(old(segs)@));
                let vd = v_target@ - end0[1];
                let aa = if vd >= 0 {
                    lims@[0]@
                } else {
                    -(lims@[0]@)
                };
                let tt = fdiv(vd, aa);
                &&& plan_shape_ok(views(final(segs)@), pad as int)
                &&& final(segs)@.len() >= old(segs)@.len()
                &&& forall|i: int| 0 <= i < old(segs)@.len() ==> final(segs)@[i] == old(segs)@[i]
                &&& (mag(tt) > TINY_RAW ==> {
                    &&& final(segs)@.len() == old(segs)@.len() + 1
                    &&& final(segs)@.last()@.vals =~= end0.update(0, aa)
                    &&& final(segs)@.last()@.dur == tt
                })
                &&& (mag(tt) <= TINY_RAW ==> final(segs)@ == old(segs)@)
                &&& views(final(segs)@) =~~= views(old(segs)@) + calc1_segs(
                    lims@[0]@,
                    end0,
                    v_target@,
                    pad as int,
                )
                &&& (final(segs)@.len() > 0 ==> seg_fits(
                    views(final(segs)@).last(),
                    views(final(segs)@).last().dur,
                ))
                &&& 2 * SCALE * mag(plan_end(raws(base@), views(final(segs)@))[1] - v_target@)
                    <= (2 * TINY_RAW + 1) * lims@[0]@ + SCALE
            },
            Err(e) => e == PlanError::Numeric,
        },
{
    proof {
        reveal(calc1_err);
        reveal(calc1_segs);
    }
    let cur = match end_state(base, segs, pad) {
        Ok(v) => v,
        Err(e) => {
            return Err(e);
        },
    };
    proof {
        assert(raws(cur@)[1] == cur@[1]@);
    }
    let v_diff = match v_target.sub(cur[1]) {
        Ok(v) => v,
        Err(e) => {
            return Err(e);
        },
    };
    let a0 = match v_diff.signum_unit().mul(lims[0]) {
        Ok(v) => v,
        Err(e) => {
            // Unreachable: a unit sign times a well-formed limit is
            // exact and in range.
            proof {
                crate::fixed::lemma_fmul_sgn(v_diff@, lims@[0]@);
                assert(false);
            }
            return Err(e);
        },
    };
    proof {
        crate::fixed::lemma_fmul_sgn(v_diff@, lims@[0]@);
    }
    let t0 = match v_diff.div(a0) {
        Ok(v) => v,
        Err(e) => {
            return Err(e);
        },
    };
    proof {
        crate::fixed::lemma_rdiv_close(v_diff@ * SCALE, a0@);
        assert(mag(a0@) == lims@[0]@);
    }
    let tiny = Fixed::of_raw(TINY_RAW);
    if tiny.lt(t0.abs()) {
        if t0.lt(Fixed::zero()) {
            return Err(PlanError::Numeric);
        }
        let iv = head_tail(a0, &cur, 0);
        let ghost valsg = raws(iv@);
        proof {
            assert(forall|i: int| 0 <= i < iv@.len() ==> (#[trigger] iv@[i]).wf());
            assert(valsg[0] == a0@);
            assert(valsg[1] == cur@[1]@);
            assert(valsg =~= plan_end(raws(base@), views(old(segs)@)).update(0, a0@)) by {
                assert forall|m: int| 0 <= m < valsg.len() implies valsg[m] == plan_end(
                    raws(base@),
                    views(old(segs)@),
                ).update(0, a0@)[m] by {
                    assert(valsg[m] == iv@[m]@);
                    if m > 0 {
                        assert(iv@[m] == cur@[m]);
                        assert(raws(cur@)[m] == cur@[m]@);
                    }
                }
            }
        }
        match push_and_advance(segs, iv, t0, pad) {
            Ok(_) => {
                proof {
                    let last = segs@.last()@;
                    assert(last.vals =~= valsg);
                    assert(crate::segment::acc_val(last.vals, t0@, 1, 0) == a0@);
                    let m = crate::fixed::fmul(a0@, t0@);
                    crate::fixed::lemma_rdiv_exact(m, 1, m);
                    assert(crate::segment::slot_val(last.vals, t0@, 1) == cur@[1]@ + m);
                    assert(plan_end(raws(base@), views(segs@))[1] == cur@[1]@ + m) by {
                        assert(views(segs@).last() == last);
                        assert(seg_state_at(last, last.dur)[1] == crate::segment::slot_val(
                            last.vals,
                            t0@,
                            1,
                        ));
                    }
                    crate::fixed::lemma_rdiv_pos_close(a0@ * t0@, SCALE as int);
                    assert(2 * SCALE * (cur@[1]@ + m - v_target@) <= SCALE + lims@[0]@
                        && -(SCALE + lims@[0]@) <= 2 * SCALE * (cur@[1]@ + m - v_target@))
                        by (nonlinear_arith)
                        requires
                            m == crate::fixed::rdiv_pos(a0@ * t0@, SCALE as int),
                            2 * (crate::fixed::rdiv_pos(a0@ * t0@, SCALE as int) * (
                            SCALE as int) - a0@ * t0@) <= SCALE as int,
                            -(SCALE as int) <= 2 * (crate::fixed::rdiv_pos(a0@ * t0@, SCALE as int)
                                * (SCALE as int) - a0@ * t0@),
                            2 * (t0@ * a0@ - v_diff@ * SCALE) <= mag(a0@),
                            -mag(a0@) <= 2 * (t0@ * a0@ - v_diff@ * SCALE),
                            mag(a0@) == lims@[0]@,
                            v_diff@ == v_target@ - cur@[1]@,
                            SCALE as int == 1000000000000000int,
                    ;
                    let e = cur@[1]@ + m - v_target@;
                    assert(2 * SCALE * mag(e) <= SCALE + lims@[0]@);
                    assert((#[trigger] lims@[0]).wf() && lims@[0]@ > 0);
                    assert(SCALE + lims@[0]@ <= (2 * TINY_RAW + 1) * lims@[0]@ + SCALE)
                        by (nonlinear_arith)
                        requires
                            lims@[0]@ >= 1,
                            TINY_RAW as int == 1000int,
                    ;
                    assert(plan_end(raws(base@), views(segs@))[1] - v_target@ == e);
                    assert(2 * SCALE * mag(plan_end(raws(base@), views(segs@))[1] - v_target@) <= (
                    2 * TINY_RAW + 1) * lims@[0]@ + SCALE);
                }
            },
            Err(e) => {
                return Err(e);
            },
        }
    } else {
        proof {
            assert(plan_end(raws(base@), views(segs@))[1] == cur@[1]@);
            assert(2 * SCALE * (cur@[1]@ - v_target@) <= (2 * TINY_RAW + 1) * lims@[0]@
                && -((2 * TINY_RAW + 1) * lims@[0]@) <= 2 * SCALE * (cur@[1]@ - v_target@))
                by (nonlinear_arith)
                requires
                    2 * (t0@ * a0@ - v_diff@ * SCALE) <= mag(a0@),
                    -mag(a0@) <= 2 * (t0@ * a0@ - v_diff@ * SCALE),
                    mag(a0@) == lims@[0]@,
                    lims@[0]@ >= 1,
                    v_diff@ == v_target@ - cur@[1]@,
                    -(TINY_RAW as int) <= t0@ <= TINY_RAW as int,
                    SCALE as int == 1000000000000000int,
            ;
            assert(2 * SCALE * mag(plan_end(raws(base@), views(segs@))[1] - v_target@) <= (2
                * TINY_RAW + 1) * lims@[0]@ + SCALE);
        }
    }
    Ok(())
}

/// Position adjustment under the leading derivative limit: up to three
/// segments (ramp toward the cruise value, coast, ramp to the final
/// value), falling back to the quadratic solver when the trapezoid
/// degenerates to a triangle.  When both quadratic roots are positive
/// the move crosses the target mid-ramp and the final ramp\'s sign flips.
///
/// The contract is exact: on success the appended segments are exactly
/// `calc2_segs` — the bang-bang/coast construction with every initial
/// value and duration named — and failure happens precisely when the
/// grown-from plan cannot be evaluated or `calc2_err` names a failing
/// intermediate, a negative duration, an unevaluable segment, or a
/// missed terminal tolerance.
#[verifier::rlimit(100)]
fn calc_path_2(
    lims: &Vec<Fixed>,
    segs: &mut Vec<Segment>,
    base: &Vec<Fixed>,
    starg: Fixed,
    pad: usize,
) -> (r: Result<(), PlanError>)
    requires
        lims@.len() >= 2,
        forall|i: int| 0 <= i < lims@.len() ==> (#[trigger] lims@[i]).wf() && lims@[i]@ > 0,
        3 <= pad <= 4,
        base@.len() == pad,
        forall|i: int| 0 <= i < base@.len() ==> (#[trigger] base@[i]).wf(),
        starg.wf(),
        plan_shape_ok(views(old(segs)@), pad as int),
    ensures
        (r is Err) <==> ({
            let end0 = plan_end(raws(base@), views(old(segs)@));
            ||| (old(segs)@.len() > 0 && !seg_fits(
                views(old(segs)@).last(),
                views(old(segs)@).last().dur,
            ))
            ||| calc2_err(lims@[0]@, lims@[1]@, end0, starg@, pad as int)
        }),
        match r {
            Ok(()) => {
                let end0 = plan_end(raws(base@), views(old(segs)@));
                &&& plan_shape_ok(views(final(segs)@), pad as int)
                &&& final(segs)@.len() >= old(segs)@.len()
                &&& final(segs)@.len() <= old(segs)@.len() + 3
                &&& forall|i: int| 0 <= i < old(segs)@.len() ==> final(segs)@[i] == old(segs)@[i]
                &&& views(final(segs)@) =~~= views(old(segs)@) + calc2_segs(
                    lims@[0]@,
                    lims@[1]@,
                    end0,
                    starg@,
                    pad as int,
                )
                &&& mag(plan_end(raws(base@), views(final(segs)@))[1]) < CLOSE_RAW
                &&& mag(plan_end(raws(base@), views(final(segs)@))[2] - starg@) < CLOSE_RAW
                &&& (final(segs)@.len() > 0 ==> seg_fits(
                    views(final(segs)@).last(),
                    views(final(segs)@).last().dur,
                ))
            },
            Err(e) => e == PlanError::Numeric,
        },
{
    let prep = match calc2_prepare(lims, segs, base, starg, pad) {
        Ok(v) => v,
        Err(e) => {
            proof {
                reveal(calc2_err);
            }
            return Err(e);
        },
    };
    let (cur, t0, t1, t2, a0, v1t, a2) = prep;
    if t0.lt(Fixed::zero()) || t1.lt(Fixed::zero()) || t2.lt(Fixed::zero()) {
        proof {
            reveal(calc2_err);
        }
        return Err(PlanError::Numeric);
    }
    let r = calc2_emit(lims, segs, base, starg, pad, cur, t0, t1, t2, a0, v1t, a2);
    proof {
        reveal(calc2_err);
    }
    r
}

/// Straight-line stage of the level-1 solver: evaluate the plan end,
/// compute the cruise target, ramp times and accelerations, and resolve
/// the degenerate triangle through the quadratic solver.
#[verifier::rlimit(100)]
fn calc2_prepare(
    lims: &Vec<Fixed>,
    segs: &Vec<Segment>,
    base: &Vec<Fixed>,
    starg: Fixed,
    pad: usize,
) -> (r: Result<(Vec<Fixed>, Fixed, Fixed, Fixed, Fixed, Fixed, Fixed), PlanError>)
    requires
        lims@.len() >= 2,
        forall|i: int| 0 <= i < lims@.len() ==> (#[trigger] lims@[i]).wf() && lims@[i]@ > 0,
        3 <= pad <= 4,
        base@.len() == pad,
        forall|i: int| 0 <= i < base@.len() ==> (#[trigger] base@[i]).wf(),
        starg.wf(),
        plan_shape_ok(views(segs@), pad as int),
    ensures
        (r is Err) <==> ({
            ||| (segs@.len() > 0 && !seg_fits(views(segs@).last(), views(segs@).last().dur))
            ||| calc2_err_prefix(
                lims@[0]@,
                lims@[1]@,
                plan_end(raws(base@), views(segs@)),
                starg@,
            )
        }),
        match r {
            Ok(t) => {
                let end0 = plan_end(raws(base@), views(segs@));
                let cm = calc2_plan(lims@[0]@, lims@[1]@, end0, starg@);
                &&& t.0@.len() == pad
                &&& forall|i: int| 0 <= i < t.0@.len() ==> (#[trigger] t.0@[i]).wf()
                &&& raws(t.0@) =~= end0
                &&& t.1.wf() && t.1@ == cm.t0
                &&& t.2.wf() && t.2@ == cm.t1
                &&& t.3.wf() && t.3@ == cm.t2
                &&& t.4.wf() && t.4@ == cm.a0
                &&& t.5.wf() && t.5@ == cm.v1
                &&& t.6.wf() && t.6@ == cm.a2
                &&& (segs@.len() > 0 ==> seg_fits(
                    views(segs@).last(),
                    views(segs@).last().dur,
                ))
            },
            Err(e) => e == PlanError::Numeric,
        },
{
    let ghost l0g = lims@[0]@;
    let ghost l1g = lims@[1]@;
    let ghost padg = pad as int;
    let ghost end0g = plan_end(raws(base@), views(segs@));
    let ghost cm = calc2_plan(l0g, l1g, end0g, starg@);
    let mut cur = match end_state(base, segs, pad) {
        Ok(v) => v,
        Err(e) => {
            return Err(e);
        },
    };
    proof {
        assert(raws(cur@) =~= end0g);
        assert(raws(cur@)[1] == cur@[1]@);
        assert(raws(cur@)[2] == cur@[2]@);
    }
    let s_diff = match starg.sub(cur[2]) {
        Ok(v) => v,
        Err(e) => {
            proof {
                reveal(calc2_err_prefix);
            }
            return Err(e);
        },
    };
    let v0 = cur[1];
    let v1t = match s_diff.signum_unit().mul(lims[1]) {
        Ok(v) => v,
        Err(e) => {
            // Unreachable: a unit sign times a well-formed limit fits.
            proof {
                crate::fixed::lemma_fmul_sgn(s_diff@, l1g);
                assert(false);
            }
            return Err(e);
        },
    };
    proof {
        crate::fixed::lemma_fmul_sgn(s_diff@, l1g);
        assert(v1t@ == cm.v1);
        assert(v1t@ != 0);
    }
    let v1_diff = match v1t.sub(v0) {
        Ok(v) => v,
        Err(e) => {
            proof {
                reveal(calc2_err_prefix);
            }
            return Err(e);
        },
    };
    let a0 = match v1_diff.signum_unit().mul(lims[0]) {
        Ok(v) => v,
        Err(e) => {
            proof {
                crate::fixed::lemma_fmul_sgn(v1_diff@, l0g);
                assert(false);
            }
            return Err(e);
        },
    };
    proof {
        crate::fixed::lemma_fmul_sgn(v1_diff@, l0g);
        assert(a0@ == cm.a0);
        assert(a0@ != 0);
    }
    let mut t0 = match v1_diff.div(a0) {
        Ok(v) => v,
        Err(e) => {
            proof {
                reveal(calc2_err_prefix);
            }
            return Err(e);
        },
    };
    let mut a2 = match v1t.signum_unit().neg().mul(lims[0]) {
        Ok(v) => v,
        Err(e) => {
            proof {
                crate::fixed::lemma_fmul_neg_sgn(v1t@, l0g);
                assert(false);
            }
            return Err(e);
        },
    };
    proof {
        crate::fixed::lemma_fmul_neg_sgn(v1t@, l0g);
        assert(a2@ == cm.a2a);
        assert(a2@ != 0);
    }
    let mut t2 = match v1t.neg().div(a2) {
        Ok(v) => v,
        Err(e) => {
            proof {
                reveal(calc2_err_prefix);
            }
            return Err(e);
        },
    };
    let term1 = match s_diff.div(v1t) {
        Ok(v) => v,
        Err(e) => {
            proof {
                reveal(calc2_err_prefix);
            }
            return Err(e);
        },
    };
    let term2a = match v0.mul(v0) {
        Ok(v) => v,
        Err(e) => {
            proof {
                reveal(calc2_err_prefix);
            }
            return Err(e);
        },
    };
    let term2b = match term2a.div_int(2).div(a0) {
        Ok(v) => v,
        Err(e) => {
            proof {
                reveal(calc2_err_prefix);
            }
            return Err(e);
        },
    };
    let term2 = match term2b.div(v1t) {
        Ok(v) => v,
        Err(e) => {
            proof {
                reveal(calc2_err_prefix);
            }
            return Err(e);
        },
    };
    let term3 = match v1t.div_int(2).div(a0) {
        Ok(v) => v,
        Err(e) => {
            proof {
                reveal(calc2_err_prefix);
            }
            return Err(e);
        },
    };
    let term4 = match v1t.div_int(2).div(a2) {
        Ok(v) => v,
        Err(e) => {
            proof {
                reveal(calc2_err_prefix);
            }
            return Err(e);
        },
    };
    let t1s = match term1.add(term2) {
        Ok(v) => v,
        Err(e) => {
            proof {
                reveal(calc2_err_prefix);
            }
            return Err(e);
        },
    };
    let t1s2 = match t1s.sub(term3) {
        Ok(v) => v,
        Err(e) => {
            proof {
                reveal(calc2_err_prefix);
            }
            return Err(e);
        },
    };
    let mut t1 = match t1s2.add(term4) {
        Ok(v) => v,
        Err(e) => {
            proof {
                reveal(calc2_err_prefix);
            }
            return Err(e);
        },
    };
    proof {
        assert(t1@ == cm.t1a);
        assert((t1@ < 0) == cm.triangle);
    }

    if t1.lt(Fixed::zero()) {
        // Cruise value never reached: solve for the ramp duration that
        // meets the target displacement with no coast phase.
        let x = match v0.div(a0) {
            Ok(v) => v,
            Err(e) => {
                proof {
                    reveal(calc2_err_prefix);
                }
                return Err(e);
            },
        };
        let two = Fixed::of_raw(2 * crate::fixed::SCALE);
        let qb = match two.mul(x) {
            Ok(v) => v,
            Err(e) => {
                proof {
                    reveal(calc2_err_prefix);
                }
                return Err(e);
            },
        };
        let qca = match v0.div_int(2).mul(x) {
            Ok(v) => v,
            Err(e) => {
                proof {
                    reveal(calc2_err_prefix);
                }
                return Err(e);
            },
        };
        let qcb = match qca.div(a0) {
            Ok(v) => v,
            Err(e) => {
                proof {
                    reveal(calc2_err_prefix);
                }
                return Err(e);
            },
        };
        let qcc = match s_diff.div(a0) {
            Ok(v) => v,
            Err(e) => {
                proof {
                    reveal(calc2_err_prefix);
                }
                return Err(e);
            },
        };
        let qc = match qcb.sub(qcc) {
            Ok(v) => v,
            Err(e) => {
                proof {
                    reveal(calc2_err_prefix);
                }
                return Err(e);
            },
        };
        proof {
            assert(x@ == cm.x);
            assert(qb@ == cm.qb);
            assert(qc@ == cm.qc);
        }
        let one = Fixed::of_raw(crate::fixed::SCALE);
        let roots = match crate::poly::Poly::solve_quadratic(one, qb, qc) {
            Ok(v) => v,
            Err(e) => {
                proof {
                    reveal(calc2_err_prefix);
                }
                return Err(e);
            },
        };
        if roots.len() < 2 {
            proof {
                reveal(calc2_err_prefix);
                if crate::poly::quad_disc(SCALE as int, cm.qb, cm.qc) >= 0 {
                    assert(roots@.len() == 2);
                }
            }
            return Err(PlanError::Numeric);
        }
        t0 = roots[1];
        t1 = Fixed::zero();
        t2 = match t0.add(x) {
            Ok(v) => v,
            Err(e) => {
                proof {
                    reveal(calc2_err_prefix);
                }
                return Err(e);
            },
        };
        if Fixed::zero().lt(roots[0]) {
            // Both roots positive: a shortened move that crosses the
            // target during the first ramp, so the final ramp flips.
            a2 = a2.neg();
        }
        proof {
            assert(t0@ == cm.t0);
            assert(t2@ == cm.t2);
            assert(a2@ == cm.a2);
        }
    }
    proof {
        assert(t0@ == cm.t0);
        assert(t1@ == cm.t1);
        assert(t2@ == cm.t2);
        assert(a2@ == cm.a2);
    }

    proof {
        reveal(calc2_err_prefix);
    }
    Ok((cur, t0, t1, t2, a0, v1t, a2))
}

/// Emission stage of the level-1 solver: append the (up to three)
/// named segments and check the terminal tolerances.
#[verifier::rlimit(100)]
fn calc2_emit(
    lims: &Vec<Fixed>,
    segs: &mut Vec<Segment>,
    base: &Vec<Fixed>,
    starg: Fixed,
    pad: usize,
    cur0: Vec<Fixed>,
    t0: Fixed,
    t1: Fixed,
    t2: Fixed,
    a0: Fixed,
    v1t: Fixed,
    a2: Fixed,
) -> (r: Result<(), PlanError>)
    requires
        lims@.len() >= 2,
        forall|i: int| 0 <= i < lims@.len() ==> (#[trigger] lims@[i]).wf() && lims@[i]@ > 0,
        3 <= pad <= 4,
        base@.len() == pad,
        forall|i: int| 0 <= i < base@.len() ==> (#[trigger] base@[i]).wf(),
        starg.wf(),
        plan_shape_ok(views(old(segs)@), pad as int),
        old(segs)@.len() > 0 ==> seg_fits(views(old(segs)@).last(), views(old(segs)@).last().dur),
        cur0@.len() == pad,
        forall|i: int| 0 <= i < cur0@.len() ==> (#[trigger] cur0@[i]).wf(),
        raws(cur0@) =~= plan_end(raws(base@), views(old(segs)@)),
        t0.wf(),
        t1.wf(),
        t2.wf(),
        a0.wf(),
        v1t.wf(),
        a2.wf(),
        ({
            let cm = calc2_plan(
                lims@[0]@,
                lims@[1]@,
                plan_end(raws(base@), views(old(segs)@)),
                starg@,
            );
            &&& t0@ == cm.t0
            &&& t1@ == cm.t1
            &&& t2@ == cm.t2
            &&& a0@ == cm.a0
            &&& v1t@ == cm.v1
            &&& a2@ == cm.a2
        }),
        t0@ >= 0,
        t1@ >= 0,
        t2@ >= 0,
    ensures
        (r is Err) <==> calc2_err_tail(
            lims@[0]@,
            lims@[1]@,
            plan_end(raws(base@), views(old(segs)@)),
            starg@,
            pad as int,
        ),
        match r {
            Ok(()) => {
                let end0 = plan_end(raws(base@), views(old(segs)@));
                &&& plan_shape_ok(views(final(segs)@), pad as int)
                &&& final(segs)@.len() >= old(segs)@.len()
                &&& final(segs)@.len() <= old(segs)@.len() + 3
                &&& forall|i: int| 0 <= i < old(segs)@.len() ==> final(segs)@[i] == old(segs)@[i]
                &&& views(final(segs)@) =~~= views(old(segs)@) + calc2_segs(
                    lims@[0]@,
                    lims@[1]@,
                    end0,
                    starg@,
                    pad as int,
                )
                &&& mag(plan_end(raws(base@), views(final(segs)@))[1]) < CLOSE_RAW
                &&& mag(plan_end(raws(base@), views(final(segs)@))[2] - starg@) < CLOSE_RAW
                &&& (final(segs)@.len() > 0 ==> seg_fits(
                    views(final(segs)@).last(),
                    views(final(segs)@).last().dur,
                ))
            },
            Err(e) => e == PlanError::Numeric,
        },
{
    let ghost l0g = lims@[0]@;
    let ghost l1g = lims@[1]@;
    let ghost padg = pad as int;
    let ghost end0g = plan_end(raws(base@), views(old(segs)@));
    let ghost cm = calc2_plan(l0g, l1g, end0g, starg@);
    let mut cur = cur0;
    let ghost mut builtg: Seq<SegView> = Seq::<SegView>::empty();
    let tiny = Fixed::of_raw(TINY_RAW);
    if tiny.lt(t0.abs()) {
        let iv = head_tail(a0, &cur, 0);
        proof {
            assert(forall|i: int| 0 <= i < iv@.len() ==> (#[trigger] iv@[i]).wf());
            assert(raws(iv@) =~= end0g.update(0, cm.a0)) by {
                assert forall|m: int| 0 <= m < raws(iv@).len() implies raws(iv@)[m] == end0g.update(
                    0,
                    cm.a0,
                )[m] by {
                    assert(raws(iv@)[m] == iv@[m]@);
                    if m > 0 {
                        assert(iv@[m] == cur@[m]);
                        assert(raws(cur@)[m] == cur@[m]@);
                    }
                }
            }
        }
        cur = match push_and_advance(segs, iv, t0, pad) {
            Ok(v) => v,
            Err(e) => {
                proof {
                    reveal(calc2_err_tail);
                    assert(!seg_fits(calc2_seg1(l0g, l1g, end0g, starg@, padg), cm.t0));
                }
                return Err(e);
            },
        };
        proof {
            assert(segs@.last()@ == calc2_seg1(l0g, l1g, end0g, starg@, padg)) by {
                assert(segs@.last()@.vals =~= calc2_seg1(l0g, l1g, end0g, starg@, padg).vals);
            }
            builtg = builtg.push(calc2_seg1(l0g, l1g, end0g, starg@, padg));
            assert(views(segs@) =~~= views(old(segs)@) + builtg);
            assert(raws(cur@) =~= calc2_e1(l0g, l1g, end0g, starg@, padg));
        }
    }
    proof {
        assert(raws(cur@) =~= calc2_e1(l0g, l1g, end0g, starg@, padg));
        assert(views(segs@) =~~= views(old(segs)@) + builtg);
    }
    if tiny.lt(t1.abs()) {
        let iv = head_tail(v1t, &cur, 1);
        proof {
            assert(forall|i: int| 0 <= i < iv@.len() ==> (#[trigger] iv@[i]).wf());
            assert(raws(iv@) =~= calc2_e1(l0g, l1g, end0g, starg@, padg).subrange(
                1,
                padg,
            ).update(0, cm.v1)) by {
                assert forall|m: int|
                    0 <= m < raws(iv@).len() implies raws(iv@)[m] == calc2_e1(
                    l0g,
                    l1g,
                    end0g,
                    starg@,
                    padg,
                ).subrange(1, padg).update(0, cm.v1)[m] by {
                    assert(raws(iv@)[m] == iv@[m]@);
                    if m > 0 {
                        assert(iv@[m] == cur@[1 + m]);
                        assert(raws(cur@)[1 + m] == cur@[1 + m]@);
                    }
                }
            }
        }
        cur = match push_and_advance(segs, iv, t1, pad) {
            Ok(v) => v,
            Err(e) => {
                proof {
                    reveal(calc2_err_tail);
                    assert(!seg_fits(calc2_seg2(l0g, l1g, end0g, starg@, padg), cm.t1));
                }
                return Err(e);
            },
        };
        proof {
            assert(segs@.last()@ == calc2_seg2(l0g, l1g, end0g, starg@, padg)) by {
                assert(segs@.last()@.vals =~= calc2_seg2(l0g, l1g, end0g, starg@, padg).vals);
            }
            builtg = builtg.push(calc2_seg2(l0g, l1g, end0g, starg@, padg));
            assert(views(segs@) =~~= views(old(segs)@) + builtg);
            assert(raws(cur@) =~= calc2_e2(l0g, l1g, end0g, starg@, padg));
        }
    }
    proof {
        assert(raws(cur@) =~= calc2_e2(l0g, l1g, end0g, starg@, padg));
        assert(views(segs@) =~~= views(old(segs)@) + builtg);
    }
    if tiny.lt(t2.abs()) {
        let iv = head_tail(a2, &cur, 0);
        proof {
            assert(forall|i: int| 0 <= i < iv@.len() ==> (#[trigger] iv@[i]).wf());
            assert(raws(iv@) =~= calc2_e2(l0g, l1g, end0g, starg@, padg).update(0, cm.a2)) by {
                assert forall|m: int|
                    0 <= m < raws(iv@).len() implies raws(iv@)[m] == calc2_e2(
                    l0g,
                    l1g,
                    end0g,
                    starg@,
                    padg,
                ).update(0, cm.a2)[m] by {
                    assert(raws(iv@)[m] == iv@[m]@);
                    if m > 0 {
                        assert(iv@[m] == cur@[m]);
                        assert(raws(cur@)[m] == cur@[m]@);
                    }
                }
            }
        }
        cur = match push_and_advance(segs, iv, t2, pad) {
            Ok(v) => v,
            Err(e) => {
                proof {
                    reveal(calc2_err_tail);
                    assert(!seg_fits(calc2_seg3(l0g, l1g, end0g, starg@, padg), cm.t2));
                }
                return Err(e);
            },
        };
        proof {
            assert(segs@.last()@ == calc2_seg3(l0g, l1g, end0g, starg@, padg)) by {
                assert(segs@.last()@.vals =~= calc2_seg3(l0g, l1g, end0g, starg@, padg).vals);
            }
            builtg = builtg.push(calc2_seg3(l0g, l1g, end0g, starg@, padg));
            assert(views(segs@) =~~= views(old(segs)@) + builtg);
            assert(raws(cur@) =~= calc2_end(l0g, l1g, end0g, starg@, padg));
        }
    }
    proof {
        assert(raws(cur@) =~= calc2_end(l0g, l1g, end0g, starg@, padg));
        assert(views(segs@) =~~= views(old(segs)@) + builtg);
        assert(builtg =~~= calc2_segs(l0g, l1g, end0g, starg@, padg));
    }

    // Terminal check, mirrored from the construction\'s own invariant:
    // the plan must end with slot 1 at rest and slot 2 on target.
    let endv = match end_state(base, segs, pad) {
        Ok(v) => v,
        Err(e) => {
            // Unreachable: every emitted segment was evaluated when it
            // was appended, and an untouched plan was evaluated on
            // entry.
            proof {
                assert(false);
            }
            return Err(e);
        },
    };
    proof {
        assert(raws(endv@) =~= raws(cur@));
        assert(raws(endv@)[1] == endv@[1]@);
        assert(raws(endv@)[2] == endv@[2]@);
    }
    let e1 = endv[1].raw();
    if e1 >= CLOSE_RAW || e1 <= -CLOSE_RAW {
        proof {
            reveal(calc2_err_tail);
        }
        return Err(PlanError::Numeric);
    }
    let e2 = endv[2].raw() - starg.raw();
    if e2 >= CLOSE_RAW || e2 <= -CLOSE_RAW {
        proof {
            reveal(calc2_err_tail);
        }
        return Err(PlanError::Numeric);
    }
    proof {
        reveal(calc2_err_tail);
    }
    Ok(())
}


/// Exactly when the jerk-limited construction reports a failure
/// (numeric or infeasible), over the state it grows from.
#[verifier::opaque]
pub open spec fn calc3_err(
    l0: int,
    l1: int,
    l2: int,
    base3: int,
    end0: Seq<int>,
    starg: int,
    pad: int,
) -> bool {
    let sd3 = starg - base3;
    let v3 = if sd3 >= 0 {
        l2
    } else {
        -l2
    };
    let ea = calc2_end(l0, l1, end0, v3, pad);
    let eb = calc2_end(l0, l1, ea, 0, pad);
    let deficit = starg - eb[3];
    let t3 = fdiv(deficit, v3);
    let coast = SegView { vals: ea.subrange(2, pad).update(0, v3), dur: t3, pad: pad };
    let ec = if t3 > TINY_RAW {
        seg_state_at(coast, t3)
    } else {
        ea
    };
    ||| !fits(sd3)
    ||| calc2_err(l0, l1, end0, v3, pad)
    ||| calc2_err(l0, l1, ea, 0, pad)
    ||| !fits(deficit)
    ||| !fits(t3)
    ||| t3 < 0
    ||| (t3 > TINY_RAW && !seg_fits(coast, t3))
    ||| calc2_err(l0, l1, ec, 0, pad)
    ||| mag(calc2_end(l0, l1, ec, 0, pad)[3] - starg) >= CLOSE_RAW
}

/// Position adjustment under a jerk limit: ramp the velocity to the
/// peak value and back with two nested applications of the level-below
/// solver, then insert a coast at exactly the peak velocity, sized from
/// the remaining position deficit, and a final ramp-down.  A negative
/// coast duration means the target is too close to finish the ramps:
/// exactly that request, and no other, is reported as `Infeasible`.
#[verifier::rlimit(100)]
fn calc_path_3(
    lims: &Vec<Fixed>,
    segs: &mut Vec<Segment>,
    base: &Vec<Fixed>,
    starg: Fixed,
    pad: usize,
) -> (r: Result<(), PlanError>)
    requires
        lims@.len() == 3,
        forall|i: int| 0 <= i < lims@.len() ==> (#[trigger] lims@[i]).wf() && lims@[i]@ > 0,
        pad == 4,
        base@.len() == pad,
        forall|i: int| 0 <= i < base@.len() ==> (#[trigger] base@[i]).wf(),
        starg.wf(),
        plan_shape_ok(views(old(segs)@), pad as int),
    ensures
        ({
            let end0 = plan_end(raws(base@), views(old(segs)@));
            let sd3 = starg@ - raws(base@)[3];
            let v3 = if sd3 >= 0 {
                lims@[2]@
            } else {
                -(lims@[2]@)
            };
            let ea = calc2_end(lims@[0]@, lims@[1]@, end0, v3, pad as int);
            let eb = calc2_end(lims@[0]@, lims@[1]@, ea, 0, pad as int);
            let deficit = starg@ - eb[3];
            let t3 = fdiv(deficit, v3);
            let coast = (SegView {
                vals: ea.subrange(2, pad as int).update(0, v3),
                dur: t3,
                pad: pad as int,
            });
            let ec = if t3 > TINY_RAW {
                seg_state_at(coast, t3)
            } else {
                ea
            };
            let pre_err = {
                ||| (old(segs)@.len() > 0 && !seg_fits(
                    views(old(segs)@).last(),
                    views(old(segs)@).last().dur,
                ))
                ||| !fits(sd3)
                ||| calc2_err(lims@[0]@, lims@[1]@, end0, v3, pad as int)
                ||| calc2_err(lims@[0]@, lims@[1]@, ea, 0, pad as int)
                ||| !fits(deficit)
                ||| !fits(t3)
            };
            &&& ((r == Result::<(), PlanError>::Err(PlanError::Infeasible)) <==> (!pre_err && t3
                < 0))
            &&& ((r is Err) <==> (pre_err || t3 < 0 || {
                ||| (t3 > TINY_RAW && !seg_fits(coast, t3))
                ||| calc2_err(lims@[0]@, lims@[1]@, ec, 0, pad as int)
                ||| mag(calc2_end(lims@[0]@, lims@[1]@, ec, 0, pad as int)[3] - starg@)
                    >= CLOSE_RAW
            }))
        }),
        match r {
            Ok(()) => {
                &&& plan_shape_ok(views(final(segs)@), pad as int)
                &&& (final(segs)@.len() > 0 ==> seg_fits(
                    views(final(segs)@).last(),
                    views(final(segs)@).last().dur,
                ))
                &&& mag(plan_end(raws(base@), views(final(segs)@))[1]) < CLOSE_RAW
                &&& mag(plan_end(raws(base@), views(final(segs)@))[2]) < CLOSE_RAW
                &&& mag(plan_end(raws(base@), views(final(segs)@))[3] - starg@) < CLOSE_RAW
            },
            Err(e) => e == PlanError::Numeric || e == PlanError::Infeasible,
        },
{
    let ghost l0g = lims@[0]@;
    let ghost l1g = lims@[1]@;
    let ghost padg = pad as int;
    let ghost end0g = plan_end(raws(base@), views(old(segs)@));
    proof {
        assert(raws(base@)[3] == base@[3]@);
    }
    let s_diff = match starg.sub(base[3]) {
        Ok(v) => v,
        Err(e) => {
            return Err(e);
        },
    };
    let v3t = match s_diff.signum_unit().mul(lims[2]) {
        Ok(v) => v,
        Err(e) => {
            // Unreachable: a unit sign times a well-formed limit fits.
            proof {
                crate::fixed::lemma_fmul_sgn(s_diff@, lims@[2]@);
                assert(false);
            }
            return Err(e);
        },
    };
    let ghost v3g = v3t@;
    proof {
        crate::fixed::lemma_fmul_sgn(s_diff@, lims@[2]@);
        assert(v3g != 0);
    }
    match calc_path_2(lims, segs, base, v3t, pad) {
        Ok(()) => {},
        Err(e) => {
            return Err(e);
        },
    }
    let ghost eag = calc2_end(l0g, l1g, end0g, v3g, padg);
    proof {
        lemma_calc2_plan_end(
            l0g,
            l1g,
            end0g,
            v3g,
            padg,
            raws(base@),
            views(old(segs)@),
        );
        assert(plan_end(raws(base@), views(segs@)) == eag);
    }
    let coast_index = segs.len();
    let ghost midv = views(segs@);
    match calc_path_2(lims, segs, base, Fixed::zero(), pad) {
        Ok(()) => {},
        Err(e) => {
            return Err(e);
        },
    }
    let ghost ebg = calc2_end(l0g, l1g, eag, 0, padg);
    proof {
        lemma_calc2_plan_end(l0g, l1g, eag, 0, padg, raws(base@), midv);
        assert(plan_end(raws(base@), views(segs@)) == ebg);
    }
    let cur = match end_state(base, segs, pad) {
        Ok(v) => v,
        Err(e) => {
            // Unreachable: the plan\'s last segment was evaluated when
            // it was appended.
            proof {
                assert(false);
            }
            return Err(e);
        },
    };
    proof {
        assert(raws(cur@) =~= ebg);
        assert(raws(cur@)[3] == cur@[3]@);
    }
    let deficit = match starg.sub(cur[3]) {
        Ok(v) => v,
        Err(e) => {
            return Err(e);
        },
    };
    let t3 = match deficit.div(v3t) {
        Ok(v) => v,
        Err(e) => {
            return Err(e);
        },
    };
    if t3.lt(Fixed::zero()) {
        // Target too close to complete the ramps without coasting; the
        // peak-velocity reduction would need the cubic solver.
        return Err(PlanError::Infeasible);
    }

    let ghost mid = segs@;
    while segs.len() > coast_index
        invariant
            coast_index <= segs@.len() <= mid.len(),
            segs@ =~= mid.take(segs@.len() as int),
            plan_shape_ok(views(mid), pad as int),
        decreases segs@.len(),
    {
        segs.pop();
        proof {
            assert(segs@ =~= mid.take(segs@.len() as int));
        }
    }
    proof {
        assert(segs@ =~= mid.take(coast_index as int));
        assert(views(segs@) =~~= midv) by {
            assert forall|i: int| 0 <= i < views(segs@).len() implies views(segs@)[i]
                == midv[i] by {
                assert(views(segs@)[i] == segs@[i]@);
                assert(segs@[i] == mid[i]);
                assert(views(mid)[i] == mid[i]@);
            }
            assert(views(segs@).len() == midv.len());
        }
        assert(plan_end(raws(base@), views(segs@)) == eag);
        assert forall|i: int| 0 <= i < views(segs@).len() implies (seg_wf(
            #[trigger] views(segs@)[i],
        ) && views(segs@)[i].pad == pad as int) by {
            assert(views(segs@)[i] == midv[i]);
        }
    }
    let cur2 = match end_state(base, segs, pad) {
        Ok(v) => v,
        Err(e) => {
            // Unreachable: the truncated plan\'s last segment was
            // evaluated when it was appended.
            proof {
                assert(false);
            }
            return Err(e);
        },
    };
    proof {
        assert(raws(cur2@) =~= eag);
    }
    let ghost coastg = (SegView {
        vals: eag.subrange(2, padg).update(0, v3g),
        dur: t3@,
        pad: padg,
    });
    let tiny = Fixed::of_raw(TINY_RAW);
    if tiny.lt(t3) {
        let iv = head_tail(v3t, &cur2, 2);
        proof {
            assert(forall|i: int| 0 <= i < iv@.len() ==> (#[trigger] iv@[i]).wf());
            assert(raws(iv@) =~= coastg.vals) by {
                assert forall|m: int| 0 <= m < raws(iv@).len() implies raws(iv@)[m]
                    == coastg.vals[m] by {
                    assert(raws(iv@)[m] == iv@[m]@);
                    if m > 0 {
                        assert(iv@[m] == cur2@[2 + m]);
                        assert(raws(cur2@)[2 + m] == cur2@[2 + m]@);
                    }
                }
            }
        }
        match push_and_advance(segs, iv, t3, pad) {
            Ok(_) => {},
            Err(e) => {
                return Err(e);
            },
        }
        proof {
            assert(segs@.last()@ == coastg) by {
                assert(segs@.last()@.vals =~= coastg.vals);
            }
            assert(views(segs@) =~~= midv.push(coastg));
            assert(plan_end(raws(base@), views(segs@)) == seg_state_at(coastg, t3@));
        }
    }
    let ghost ecg = if t3@ > TINY_RAW {
        seg_state_at(coastg, t3@)
    } else {
        eag
    };
    proof {
        assert(plan_end(raws(base@), views(segs@)) == ecg);
    }
    let ghost prev = views(segs@);
    match calc_path_2(lims, segs, base, Fixed::zero(), pad) {
        Ok(()) => {},
        Err(e) => {
            return Err(e);
        },
    }
    proof {
        lemma_calc2_plan_end(l0g, l1g, ecg, 0, padg, raws(base@), prev);
        assert(plan_end(raws(base@), views(segs@)) == calc2_end(l0g, l1g, ecg, 0, padg));
    }
    // Terminal position check: the coast was sized to land the plan on
    // the target, and a plan that misses it is rejected.
    let endv = match end_state(base, segs, pad) {
        Ok(v) => v,
        Err(e) => {
            // Unreachable: the plan\'s last segment was evaluated when
            // it was appended.
            proof {
                assert(false);
            }
            return Err(e);
        },
    };
    proof {
        assert(raws(endv@)[3] == endv@[3]@);
    }
    let e3 = endv[3].raw() - starg.raw();
    if e3 >= CLOSE_RAW || e3 <= -CLOSE_RAW {
        return Err(PlanError::Numeric);
    }
    Ok(())
}

/// Real-time trajectory planner for one axis.
///
/// Owns the fixed limit vector (highest derivative first), the current
/// plan as a FIFO queue of segments, the elapsed time within the plan,
/// the last-reported state vector (highest derivative first), and the
/// position target used to null out drift when the plan completes.
pub struct Path {
    limits: Vec<Fixed>,
    segments: Vec<Segment>,
    time: Fixed,
    state: Vec<Fixed>,
    target: Fixed,
}

impl View for Path {
    type V = PathView;

    closed spec fn view(&self) -> PathView {
        PathView {
            limits: raws(self.limits@),
            segs: views(self.segments@),
            time: self.time@,
            state: raws(self.state@),
            target: self.target@,
        }
    }
}

impl Path {
    /// Planner invariant: valid limits, a state vector of matching
    /// width, and a plan that is well-shaped, continuous, within limits,
    /// and not yet consumed past its first segment.
    pub open spec fn wf(self) -> bool {
        &&& 1 <= self@.limits.len() <= 2
        &&& forall|i: int|
            0 <= i < self@.limits.len() ==> (fits(#[trigger] self@.limits[i])
                && self@.limits[i] > 0)
        &&& self@.state.len() == self@.limits.len() + 2
        &&& forall|i: int| 0 <= i < self@.state.len() ==> fits(#[trigger] self@.state[i])
        &&& fits(self@.time)
        &&& 0 <= self@.time
        &&& fits(self@.target)
        &&& plan_shape_ok(self@.segs, self@.limits.len() as int + 2)
        &&& plan_continuous(self@.segs, BTOL_RAW as int)
        &&& plan_within_limits(self@.limits, self@.segs, SLACK_RAW as int)
        &&& plan_durations_ok(self@.segs)
        &&& self@.segs.len() <= 7
        &&& (self@.segs.len() > 0 ==> self@.time <= self@.segs[0].dur)
    }

    /// Build an idle planner from the limit vector, given highest order
    /// last (acceleration, then optionally jerk); it is stored highest
    /// order first.  One limit plans acceleration-limited trapezoids,
    /// two plan jerk-limited S-curves.
    pub fn new(limits: Vec<Fixed>) -> (p: Path)
        requires
            1 <= limits@.len() <= 2,
            forall|i: int| 0 <= i < limits@.len() ==> (#[trigger] limits@[i]).wf()
                && limits@[i]@ > 0,
        ensures
            p.wf(),
            p@.limits.len() == limits@.len(),
            forall|i: int|
                0 <= i < limits@.len() ==> #[trigger] p@.limits[i] == limits@[limits@.len() - 1
                    - i]@,
            p@.segs.len() == 0,
            p@.time == 0,
            p@.target == 0,
            p@.state.len() == limits@.len() + 2,
            forall|i: int| 0 <= i < p@.state.len() ==> #[trigger] p@.state[i] == 0,
    {
        let n = limits.len();
        let mut rev: Vec<Fixed> = Vec::new();
        let mut i: usize = 0;
        while i < n
            invariant
                i <= n,
                n == limits@.len(),
                rev@.len() == i,
                forall|m: int| 0 <= m < i ==> #[trigger] rev@[m] == limits@[n - 1 - m],
            decreases n - i,
        {
            rev.push(limits[n - 1 - i]);
            i = i + 1;
        }
        let mut state: Vec<Fixed> = Vec::new();
        let mut k: usize = 0;
        while k < n + 2
            invariant
                n <= 2,
                k <= n + 2,
                state@.len() == k,
                forall|m: int| 0 <= m < k ==> (#[trigger] state@[m])@ == 0,
            decreases n + 2 - k,
        {
            state.push(Fixed::zero());
            k = k + 1;
        }
        Path {
            limits: rev,
            segments: Vec::new(),
            time: Fixed::zero(),
            state,
            target: Fixed::zero(),
        }
    }

    /// Whether a plan is currently in progress.
    pub fn is_active(&self) -> (b: bool)
        ensures
            b == (self@.segs.len() > 0),
    {
        self.segments.len() > 0
    }

    /// The externally observable state: (position, velocity,
    /// acceleration), read from the fixed tail of the state vector.
    pub fn get_state(&self) -> (r: (Fixed, Fixed, Fixed))
        requires
            self.wf(),
        ensures
            r.0@ == self@.state[self@.state.len() - 1],
            r.1@ == self@.state[self@.state.len() - 2],
            r.2@ == self@.state[self@.state.len() - 3],
            r.0.wf(),
            r.1.wf(),
            r.2.wf(),
    {
        let n = self.state.len();
        proof {
            assert(self@.state[n - 1] == self.state@[n - 1]@);
            assert(self@.state[n - 2] == self.state@[n - 2]@);
            assert(self@.state[n - 3] == self.state@[n - 3]@);
        }
        (self.state[n - 1], self.state[n - 2], self.state[n - 3])
    }

    /// Discard the current plan and build a fresh one from the live
    /// state toward `s_target`, cruising at no more than `v_limit`.
    ///
    /// On success the rebuilt plan is continuous, starts at the current
    /// state, respects every configured limit, ends with its first-order
    /// slot at rest and its second-order slot on target within the
    /// solver tolerance, and the elapsed time restarts at zero.  On any
    /// failure the planner is left exactly as it was.  An
    /// acceleration-limited planner never reports `Infeasible`.
    #[verifier::rlimit(100)]
    pub fn replan(&mut self, s_target: Fixed, v_limit: Fixed) -> (r: Result<(), PlanError>)
        requires
            old(self).wf(),
            s_target.wf(),
            v_limit.wf(),
            v_limit@ > 0,
        ensures
            final(self)@.limits == old(self)@.limits,
            final(self)@.state == old(self)@.state,
            match r {
                Ok(()) => {
                    &&& final(self).wf()
                    &&& final(self)@.time == 0
                    &&& final(self)@.target == s_target@
                    &&& plan_continuous(final(self)@.segs, BTOL_RAW as int)
                    &&& plan_within_limits(
                        final(self)@.limits,
                        final(self)@.segs,
                        SLACK_RAW as int,
                    )
                    &&& first_close(
                        final(self)@.state,
                        final(self)@.segs,
                        final(self)@.state.len() as int,
                        BTOL_RAW as int,
                    )
                    &&& plan_durations_ok(final(self)@.segs)
                    &&& final(self)@.segs.len() <= 7
                    &&& mag(plan_end(final(self)@.state, final(self)@.segs)[1]) < CLOSE_RAW
                    &&& (final(self)@.limits.len() == 1 ==> mag(
                        plan_end(final(self)@.state, final(self)@.segs)[2] - s_target@,
                    ) < CLOSE_RAW)
                    &&& (final(self)@.limits.len() == 2 ==> mag(
                        plan_end(final(self)@.state, final(self)@.segs)[2],
                    ) < CLOSE_RAW)
                    &&& (final(self)@.limits.len() == 2 ==> mag(
                        plan_end(final(self)@.state, final(self)@.segs)[3] - s_target@,
                    ) < CLOSE_RAW)
                },
                Err(e) => {
                    &&& final(self)@ == old(self)@
                    &&& (old(self)@.limits.len() == 1 ==> e == PlanError::Numeric)
                },
            },
            // A zero-distance move from rest yields an empty plan.
            ((forall|m: int|
                0 <= m < old(self)@.state.len() - 1 ==> #[trigger] old(self)@.state[m] == 0)
                && old(self)@.state[old(self)@.state.len() - 1] == s_target@) ==> (r is Ok
                && final(self)@.segs.len() == 0),
    {
        let n = self.state.len();
        let mut at_rest = true;
        let mut i: usize = 0;
        while i < n - 1
            invariant
                i <= n - 1,
                n == self.state@.len(),
                n >= 3,
                at_rest ==> (forall|m: int| 0 <= m < i ==> #[trigger] self@.state[m] == 0),
                !at_rest ==> (exists|m: int| 0 <= m < i && #[trigger] self@.state[m] != 0),
            decreases n - 1 - i,
        {
            if self.state[i].raw() != 0 {
                proof {
                    assert(self@.state[i as int] == self.state@[i as int]@);
                }
                at_rest = false;
            } else {
                proof {
                    assert(self@.state[i as int] == self.state@[i as int]@);
                }
            }
            i = i + 1;
        }
        if at_rest && self.state[n - 1].raw() == s_target.raw() {
            // Zero-distance move from rest: nothing to plan.
            proof {
                assert(self@.state[n - 1] == self.state@[n - 1]@);
            }
            self.segments = Vec::new();
            self.time = Fixed::zero();
            self.target = s_target;
            return Ok(());
        }
        let pad = self.limits.len() + 2;
        let mut ext = copy_vec(&self.limits);
        ext.push(v_limit);
        proof {
            assert forall|i: int| 0 <= i < self.limits@.len() implies ((#[trigger] self
                .limits@[i]).wf() && self.limits@[i]@ > 0) by {
                assert(self@.limits[i] == self.limits@[i]@);
            }
            assert forall|i: int| 0 <= i < self.state@.len() implies (#[trigger] self
                .state@[i]).wf() by {
                assert(self@.state[i] == self.state@[i]@);
            }
        }
        let mut ns: Vec<Segment> = Vec::new();
        let built = if self.limits.len() == 1 {
            calc_path_2(&ext, &mut ns, &self.state, s_target, pad)
        } else {
            calc_path_3(&ext, &mut ns, &self.state, s_target, pad)
        };
        match built {
            Ok(()) => {},
            Err(e) => {
                return Err(e);
            },
        }
        match check_plan(&self.limits, &self.state, &ns, pad) {
            Ok(true) => {},
            Ok(false) => {
                return Err(PlanError::Numeric);
            },
            Err(e) => {
                return Err(e);
            },
        }
        self.segments = ns;
        self.time = Fixed::zero();
        self.target = s_target;
        Ok(())
    }

    /// Discard the current plan and decelerate to zero velocity from the
    /// live state; whatever position results becomes the new target.
    ///
    /// On success the plan is continuous, starts at the current state,
    /// respects the limits, and for a jerk-limited planner ends with
    /// acceleration and velocity below the solver tolerance; the new
    /// target is exactly the position the plan ends at.  On failure the
    /// planner is unchanged.
    #[verifier::rlimit(100)]
    pub fn stop(&mut self) -> (r: Result<(), PlanError>)
        requires
            old(self).wf(),
        ensures
            final(self)@.limits == old(self)@.limits,
            final(self)@.state == old(self)@.state,
            match r {
                Ok(()) => {
                    &&& final(self).wf()
                    &&& final(self)@.time == 0
                    &&& plan_continuous(final(self)@.segs, BTOL_RAW as int)
                    &&& plan_within_limits(
                        final(self)@.limits,
                        final(self)@.segs,
                        SLACK_RAW as int,
                    )
                    &&& first_close(
                        final(self)@.state,
                        final(self)@.segs,
                        final(self)@.state.len() as int,
                        BTOL_RAW as int,
                    )
                    &&& plan_durations_ok(final(self)@.segs)
                    &&& final(self)@.segs.len() <= 7
                    &&& final(self)@.target == plan_end(
                        final(self)@.state,
                        final(self)@.segs,
                    )[final(self)@.state.len() - 1]
                    &&& (final(self)@.limits.len() == 2 ==> {
                        &&& mag(plan_end(final(self)@.state, final(self)@.segs)[1]) < CLOSE_RAW
                        &&& mag(plan_end(final(self)@.state, final(self)@.segs)[2]) < CLOSE_RAW
                    })
                    &&& (final(self)@.limits.len() == 1 ==> 2 * SCALE * mag(
                        plan_end(final(self)@.state, final(self)@.segs)[1],
                    ) <= (2 * TINY_RAW + 1) * final(self)@.limits[0] + SCALE)
                    // Acceleration-limited stop: at most one ramp at the
                    // signed limit, lasting the rounded time to rest.
                    &&& (final(self)@.limits.len() == 1 ==> {
                        let vd = 0 - final(self)@.state[1];
                        let aa = if vd >= 0 {
                            final(self)@.limits[0]
                        } else {
                            -(final(self)@.limits[0])
                        };
                        let tt = fdiv(vd, aa);
                        ||| (mag(tt) > TINY_RAW && final(self)@.segs.len() == 1
                            && final(self)@.segs[0].vals =~= final(self)@.state.update(0, aa)
                            && final(self)@.segs[0].dur == tt)
                        ||| (mag(tt) <= TINY_RAW && final(self)@.segs.len() == 0)
                    })
                },
                Err(e) => final(self)@ == old(self)@ && e == PlanError::Numeric,
            },
            // Stopping an idle planner at rest is a no-op plan: nothing
            // is emitted and the target becomes the current position.
            ((old(self)@.segs.len() == 0 && (forall|m: int|
                0 <= m < old(self)@.state.len() - 1 ==> #[trigger] old(self)@.state[m] == 0))
                ==> (r is Ok && final(self)@.segs.len() == 0 && final(self)@.target == old(
                self,
            )@.state[old(self)@.state.len() - 1])),
    {
        let n = self.state.len();
        let mut at_rest = self.segments.len() == 0;
        let mut i: usize = 0;
        while i < n - 1
            invariant
                i <= n - 1,
                n == self.state@.len(),
                n >= 3,
                at_rest ==> (self@.segs.len() == 0 && (forall|m: int|
                    0 <= m < i ==> #[trigger] self@.state[m] == 0)),
                !at_rest ==> (self@.segs.len() > 0 || (exists|m: int|
                    0 <= m < i && #[trigger] self@.state[m] != 0)),
            decreases n - 1 - i,
        {
            proof {
                assert(self@.state[i as int] == self.state@[i as int]@);
            }
            if self.state[i].raw() != 0 {
                at_rest = false;
            }
            i = i + 1;
        }
        if at_rest {
            proof {
                assert(self@.state[n - 1] == self.state@[n - 1]@);
                if self@.limits.len() == 1 {
                    assert(self@.state[1] == 0);
                    assert((#[trigger] self@.limits[0]) > 0);
                    vstd::arithmetic::div_mod::lemma_basic_div(
                        self@.limits[0],
                        2 * self@.limits[0],
                    );
                    assert(fdiv(0 - self@.state[1], self@.limits[0]) == 0);
                }
            }
            self.time = Fixed::zero();
            self.target = self.state[n - 1];
            return Ok(());
        }
        let pad = self.limits.len() + 2;
        proof {
            assert forall|i: int| 0 <= i < self.limits@.len() implies ((#[trigger] self
                .limits@[i]).wf() && self.limits@[i]@ > 0) by {
                assert(self@.limits[i] == self.limits@[i]@);
            }
            assert forall|i: int| 0 <= i < self.state@.len() implies (#[trigger] self
                .state@[i]).wf() by {
                assert(self@.state[i] == self.state@[i]@);
            }
        }
        let mut ns: Vec<Segment> = Vec::new();
        let built = if self.limits.len() == 1 {
            calc_path_1(&self.limits, &mut ns, &self.state, Fixed::zero(), pad)
        } else {
            calc_path_2(&self.limits, &mut ns, &self.state, Fixed::zero(), pad)
        };
        match built {
            Ok(()) => {},
            Err(e) => {
                return Err(e);
            },
        }
        match check_plan(&self.limits, &self.state, &ns, pad) {
            Ok(true) => {},
            Ok(false) => {
                return Err(PlanError::Numeric);
            },
            Err(e) => {
                return Err(e);
            },
        }
        let endv = match end_state(&self.state, &ns, pad) {
            Ok(v) => v,
            Err(e) => {
                return Err(e);
            },
        };
        let nt = endv[pad - 1];
        self.segments = ns;
        self.time = Fixed::zero();
        self.target = nt;
        Ok(())
    }

    /// Advance simulation time by `dt`, popping expired segments from
    /// the front of the plan.  When the plan completes, the state snaps
    /// exactly to zero derivatives at the stored target, eliminating
    /// accumulated drift; otherwise the state is re-evaluated on the new
    /// head segment.  A planner with no plan is left untouched.
    pub fn update(&mut self, dt: Fixed) -> (r: Result<(), PlanError>)
        requires
            old(self).wf(),
            dt.wf(),
            dt@ >= 0,
        ensures
            final(self)@.limits == old(self)@.limits,
            final(self)@.target == old(self)@.target,
            // Failure exactly when the advanced time leaves the range or
            // the segment it lands in cannot be evaluated there.
            (r is Err) <==> (old(self)@.segs.len() > 0 && {
                let tt = old(self)@.time + dt@;
                let k = pop_count(old(self)@.segs, tt);
                ||| !fits(tt)
                ||| (fits(tt) && k < old(self)@.segs.len() && !seg_fits(
                    old(self)@.segs[k],
                    tt - sum_dur(old(self)@.segs, k),
                ))
            }),
            match r {
                Ok(()) => {
                    let tt = old(self)@.time + dt@;
                    let k = pop_count(old(self)@.segs, tt);
                    &&& final(self).wf()
                    &&& (old(self)@.segs.len() == 0 ==> final(self)@ == old(self)@)
                    &&& (old(self)@.segs.len() > 0 ==> {
                        &&& final(self)@.segs =~= old(self)@.segs.skip(k)
                        &&& final(self)@.time == tt - sum_dur(old(self)@.segs, k)
                        &&& (k < old(self)@.segs.len() ==> final(self)@.state =~= seg_state_at(
                            old(self)@.segs[k],
                            tt - sum_dur(old(self)@.segs, k),
                        ))
                        &&& (k == old(self)@.segs.len() ==> final(self)@.state =~= Seq::new(
                            old(self)@.state.len(),
                            |i: int|
                                if i == old(self)@.state.len() - 1 {
                                    old(self)@.target
                                } else {
                                    0
                                },
                        ))
                    })
                },
                Err(e) => e == PlanError::Numeric && final(self)@ == old(self)@,
            },
    {
        let n = self.segments.len();
        if n == 0 {
            return Ok(());
        }
        let mut t = match self.time.add(dt) {
            Ok(v) => v,
            Err(e) => {
                return Err(e);
            },
        };
        let mut k: usize = 0;
        let mut halt = false;
        proof {
            assert(views(self.segments@).skip(0) =~= views(self.segments@));
        }
        while !halt
            invariant
                0 <= k <= n,
                n == self.segments@.len(),
                n > 0,
                self.wf(),
                t.wf(),
                t@ >= 0,
                t@ == old(self)@.time + dt@ - sum_dur(views(self.segments@), k as int),
                pop_count(views(self.segments@), old(self)@.time + dt@) == k + pop_count(
                    views(self.segments@).skip(k as int),
                    t@,
                ),
                halt ==> (k == n || (k < n && t@ < views(self.segments@)[k as int].dur)),
                self.segments@ == old(self).segments@,
                self.limits == old(self).limits,
                self.state == old(self).state,
                self.time == old(self).time,
                self.target == old(self).target,
            decreases n - k + (if halt { 0int } else { 1int }),
        {
            if k == n {
                halt = true;
            } else {
                proof {
                    assert(seg_wf(views(self.segments@)[k as int]));
                    assert(views(self.segments@).skip(k as int)[0] == views(
                        self.segments@,
                    )[k as int]);
                }
                let dur = self.segments[k].get_duration();
                if t.lt(dur) {
                    halt = true;
                } else {
                    let t2 = match t.sub(dur) {
                        Ok(v) => v,
                        Err(e) => {
                            proof {
                                assert(false);
                            }
                            return Err(e);
                        },
                    };
                    proof {
                        assert(views(self.segments@).skip(k as int).skip(1) =~= views(
                            self.segments@,
                        ).skip(k as int + 1));
                    }
                    t = t2;
                    k = k + 1;
                }
            }
        }
        proof {
            if k < n {
                assert(views(self.segments@).skip(k as int)[0] == views(self.segments@)[k as int]);
            }
            assert(pop_count(views(self.segments@).skip(k as int), t@) == 0);
            assert(k as int == pop_count(old(self)@.segs, old(self)@.time + dt@));
        }

        if k == n {
            // Plan complete: zero out accumulated inaccuracies by
            // snapping to the stored target.
            let len = self.state.len();
            let mut nsv: Vec<Fixed> = Vec::new();
            let mut m: usize = 0;
            while m + 1 < len
                invariant
                    m < len,
                    nsv@.len() == m,
                    forall|q: int| 0 <= q < m ==> (#[trigger] nsv@[q])@ == 0,
                    forall|q: int| 0 <= q < m ==> (#[trigger] nsv@[q]).wf(),
                decreases len - m,
            {
                nsv.push(Fixed::zero());
                m = m + 1;
            }
            nsv.push(self.target);
            self.segments = Vec::new();
            self.time = t;
            self.state = nsv;
            proof {
                assert(final(self)@.segs =~= old(self)@.segs.skip(n as int));
                let ghost want = Seq::new(
                    old(self)@.state.len(),
                    |i: int|
                        if i == old(self)@.state.len() - 1 {
                            old(self)@.target
                        } else {
                            0
                        },
                );
                assert forall|q: int|
                    0 <= q < final(self)@.state.len() implies final(self)@.state[q] == want[q] by {
                    assert(final(self)@.state[q] == final(self).state@[q]@);
                }
                assert(final(self)@.state =~= want);
            }
            return Ok(());
        }

        proof {
            assert(seg_wf(views(self.segments@)[k as int]));
        }
        let es = match self.segments[k].get_state_at(t) {
            Ok(v) => v,
            Err(e) => {
                return Err(e);
            },
        };
        let mut j: usize = 0;
        while j < k
            invariant
                0 <= j <= k,
                k < n,
                n == old(self).segments@.len(),
                self.segments@ =~= old(self).segments@.skip(j as int),
                self.limits == old(self).limits,
                self.state == old(self).state,
                self.time == old(self).time,
                self.target == old(self).target,
            decreases k - j,
        {
            self.segments.remove(0);
            proof {
                assert(old(self).segments@.skip(j as int).remove(0) =~= old(
                    self,
                ).segments@.skip(j as int + 1));
            }
            j = j + 1;
        }
        self.time = t;
        self.state = es;
        proof {
            let ghost kk = k as int;
            assert(self@.segs =~= old(self)@.segs.skip(kk)) by {
                assert(views(self.segments@).len() == old(self)@.segs.skip(kk).len());
                assert forall|i: int|
                    0 <= i < views(self.segments@).len() implies views(self.segments@)[i] == old(
                    self,
                )@.segs.skip(kk)[i] by {
                    assert(views(self.segments@)[i] == self.segments@[i]@);
                    assert(self.segments@[i] == old(self).segments@[kk + i]);
                    assert(old(self)@.segs[kk + i] == old(self).segments@[kk + i]@);
                }
            }
            assert forall|i: int|
                0 <= i < self@.segs.len() implies (seg_wf(#[trigger] self@.segs[i])
                && self@.segs[i].pad == self@.limits.len() as int + 2) by {
                assert(self@.segs[i] == old(self)@.segs.skip(kk)[i]);
                assert(old(self)@.segs.skip(kk)[i] == old(self)@.segs[kk + i]);
                assert(seg_wf(old(self)@.segs[kk + i]) && old(self)@.segs[kk + i].pad == old(
                    self,
                )@.limits.len() as int + 2);
            }
            assert forall|i: int|
                0 <= i < self@.segs.len() - 1 implies #[trigger] boundary_close(
                self@.segs[i],
                self@.segs[i + 1],
                BTOL_RAW as int,
            ) by {
                assert(self@.segs[i] == old(self)@.segs[kk + i]);
                assert(self@.segs[i + 1] == old(self)@.segs[kk + i + 1]);
                assert(boundary_close(
                    old(self)@.segs[kk + i],
                    old(self)@.segs[kk + i + 1],
                    BTOL_RAW as int,
                ));
            }
            assert forall|i: int|
                0 <= i < self@.segs.len() implies #[trigger] seg_limits_ok(
                self@.limits,
                self@.segs[i],
                SLACK_RAW as int,
            ) by {
                assert(self@.segs[i] == old(self)@.segs[kk + i]);
                assert(seg_limits_ok(old(self)@.limits, old(self)@.segs[kk + i], SLACK_RAW as int));
            }
            assert forall|i: int|
                0 <= i < self@.segs.len() implies #[trigger] self@.segs[i].dur > TINY_RAW by {
                assert(self@.segs[i] == old(self)@.segs[kk + i]);
                assert(old(self)@.segs[kk + i].dur > TINY_RAW);
            }
            assert forall|q: int| 0 <= q < self@.state.len() implies fits(
                #[trigger] self@.state[q],
            ) by {
                assert(self@.state[q] == self.state@[q]@);
            }
            assert(self@.segs[0] == old(self)@.segs[kk]);
            assert(self@.state =~= seg_state_at(self@.segs[0], self@.time)) by {
                assert forall|m: int|
                    0 <= m < self@.state.len() implies self@.state[m] == seg_state_at(
                    self@.segs[0],
                    self@.time,
                )[m] by {
                    assert(self@.state[m] == self.state@[m]@);
                }
            }
            assert(self.wf());
        }
        Ok(())
    }
}

/// Law (continuity): a well-formed planner's plan joins continuously:
/// across every segment boundary the position agrees exactly, and
/// velocity (and acceleration, for jerk-limited plans) within the
/// boundary tolerance.
pub proof fn lemma_plan_continuity(p: Path)
    requires
        p.wf(),
    ensures
        plan_continuous(p@.segs, BTOL_RAW as int),
{
}

/// Law (limit respect, boundary form): every segment of a well-formed
/// planner's plan holds each limited derivative inside its configured
/// limit, up to the rounding slack, at both of its ends.
pub proof fn lemma_plan_limit_respect(p: Path)
    requires
        p.wf(),
    ensures
        plan_within_limits(p@.limits, p@.segs, SLACK_RAW as int),
{
}

/// Law (limit respect, pointwise form): at every offset inside every
/// segment of a well-formed planner's plan, each limited derivative
/// stays inside its configured limit up to the rounding slack.
pub proof fn lemma_plan_limit_at_offset(p: Path, i: int, t: int, k: int)
    requires
        p.wf(),
        0 <= i < p@.segs.len(),
        0 <= t <= p@.segs[i].dur,
        0 <= k < p@.limits.len(),
    ensures
        mag(seg_state_at(p@.segs[i], t)[k]) <= p@.limits[k] + SLACK_RAW,
{
    assert(seg_wf(p@.segs[i]));
    assert(seg_limits_ok(p@.limits, p@.segs[i], SLACK_RAW as int));
    lemma_seg_limit_at_offset(p@.limits, p@.segs[i], t, k);
}

} // verus!
