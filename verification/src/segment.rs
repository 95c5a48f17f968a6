use vstd::prelude::*;
use crate::err::PlanError;
use crate::fixed::{Fixed, fits, fmul, rdiv, mag};

verus! {

/// Mathematical content of a segment: raw initial values (highest
/// derivative first), raw duration, and the padded output width.
pub struct SegView {
    pub vals: Seq<int>,
    pub dur: int,
    pub pad: int,
}

/// Accumulator after `i` steps of the Horner evaluation of output slot
/// `j`: starting from the highest derivative, each step folds in the next
/// initial value, dividing the running term by the factorial degree it
/// has reached.  Slot `j` of the state at offset `t` is `acc_val(vals, t,
/// j, j)`.
pub open spec fn acc_val(vals: Seq<int>, t: int, j: int, i: int) -> int
    decreases i,
{
    if i <= 0 {
        vals[0]
    } else {
        vals[i] + rdiv(fmul(acc_val(vals, t, j, i - 1), t), j - i + 1)
    }
}

/// Whether every intermediate of the slot-`j` evaluation stays in the
/// representable range through step `i`.
pub open spec fn acc_fits(vals: Seq<int>, t: int, j: int, i: int) -> bool
    decreases i,
{
    if i <= 0 {
        true
    } else {
        &&& acc_fits(vals, t, j, i - 1)
        &&& fits(fmul(acc_val(vals, t, j, i - 1), t))
        &&& fits(vals[i] + rdiv(fmul(acc_val(vals, t, j, i - 1), t), j - i + 1))
    }
}

/// Raw value of output slot `j` (within the unpadded initial values) at
/// offset `t`.
pub open spec fn slot_val(vals: Seq<int>, t: int, j: int) -> int {
    acc_val(vals, t, j, j)
}

/// Whether the slot-`j` evaluation stays in range throughout.
pub open spec fn slot_fits(vals: Seq<int>, t: int, j: int) -> bool {
    acc_fits(vals, t, j, j)
}

/// The full padded state a segment reports at offset `t`: zeros for the
/// derivative orders the segment does not track, then each evaluated
/// slot.
pub open spec fn seg_state_at(v: SegView, t: int) -> Seq<int> {
    Seq::new(
        v.pad as nat,
        |k: int|
            if k < v.pad - v.vals.len() {
                0
            } else {
                slot_val(v.vals, t, k - (v.pad - v.vals.len()))
            },
    )
}

/// The padded state at offset zero: zeros, then the initial values
/// themselves.
pub open spec fn seg_init_state(v: SegView) -> Seq<int> {
    Seq::new(
        v.pad as nat,
        |k: int|
            if k < v.pad - v.vals.len() {
                0
            } else {
                v.vals[k - (v.pad - v.vals.len())]
            },
    )
}

/// Whether every slot evaluation at offset `t` stays in range.
pub open spec fn seg_fits(v: SegView, t: int) -> bool {
    forall|j: int| 0 <= j < v.vals.len() ==> #[trigger] slot_fits(v.vals, t, j)
}

/// Structural well-formedness of a segment.
pub open spec fn seg_wf(v: SegView) -> bool {
    &&& 1 <= v.vals.len() <= v.pad <= 8
    &&& forall|i: int| 0 <= i < v.vals.len() ==> fits(#[trigger] v.vals[i])
    &&& fits(v.dur)
    &&& 0 <= v.dur
}

/// A fit bound transfers down to every earlier evaluation step.
proof fn lemma_acc_fits_down(vals: Seq<int>, t: int, j: int, hi: int, lo: int)
    requires
        0 <= lo <= hi,
        acc_fits(vals, t, j, hi),
    ensures
        acc_fits(vals, t, j, lo),
    decreases hi - lo,
{
    if lo < hi {
        assert(acc_fits(vals, t, j, hi - 1));
        lemma_acc_fits_down(vals, t, j, hi - 1, lo);
    }
}

/// One phase of motion: the highest controlled derivative is held
/// constant, and every lower derivative follows by exact polynomial
/// evaluation of the initial values.  Immutable once built.
pub struct Segment {
    initvals: Vec<Fixed>,
    duration: Fixed,
    padto: usize,
}

impl View for Segment {
    type V = SegView;

    closed spec fn view(&self) -> SegView {
        SegView {
            vals: self.initvals@.map_values(|f: Fixed| f@),
            dur: self.duration@,
            pad: self.padto as int,
        }
    }
}

/// Evaluate output slot `j` of the initial-value list at offset `t`.
fn eval_slot(iv: &Vec<Fixed>, t: Fixed, j: usize) -> (r: Result<Fixed, PlanError>)
    requires
        j < iv@.len(),
        iv@.len() <= 8,
        forall|i: int| 0 <= i < iv@.len() ==> (#[trigger] iv@[i]).wf(),
        t.wf(),
    ensures
        match r {
            Ok(f) => {
                &&& f.wf()
                &&& f@ == slot_val(iv@.map_values(|f: Fixed| f@), t@, j as int)
                &&& slot_fits(iv@.map_values(|f: Fixed| f@), t@, j as int)
            },
            Err(e) => {
                &&& e == PlanError::Numeric
                &&& !slot_fits(iv@.map_values(|f: Fixed| f@), t@, j as int)
            },
        },
{
    let ghost vals = iv@.map_values(|f: Fixed| f@);
    let mut acc = iv[0];
    let mut i: usize = 1;
    while i <= j
        invariant
            1 <= i <= j + 1,
            j < iv@.len(),
            iv@.len() <= 8,
            forall|m: int| 0 <= m < iv@.len() ==> (#[trigger] iv@[m]).wf(),
            t.wf(),
            acc.wf(),
            vals == iv@.map_values(|f: Fixed| f@),
            acc@ == acc_val(vals, t@, j as int, i as int - 1),
            acc_fits(vals, t@, j as int, i as int - 1),
        decreases j + 1 - i,
    {
        let prod = match acc.mul(t) {
            Ok(p) => p,
            Err(e) => {
                proof {
                    if acc_fits(vals, t@, j as int, j as int) {
                        lemma_acc_fits_down(vals, t@, j as int, j as int, i as int);
                    }
                }
                return Err(e);
            },
        };
        let term = prod.div_int((j - i + 1) as i64);
        let next = match iv[i].add(term) {
            Ok(s) => s,
            Err(e) => {
                proof {
                    if acc_fits(vals, t@, j as int, j as int) {
                        lemma_acc_fits_down(vals, t@, j as int, j as int, i as int);
                    }
                }
                return Err(e);
            },
        };
        acc = next;
        i = i + 1;
    }
    Ok(acc)
}

impl Segment {
    /// Structural well-formedness.
    pub open spec fn wf(self) -> bool {
        seg_wf(self@)
    }

    /// Build a segment from its initial values (highest derivative
    /// first), a nonnegative duration, and the padded output width.
    pub fn new(initvals: Vec<Fixed>, duration: Fixed, padto: usize) -> (s: Segment)
        requires
            1 <= initvals@.len() <= padto <= 8,
            forall|i: int| 0 <= i < initvals@.len() ==> (#[trigger] initvals@[i]).wf(),
            duration.wf(),
            duration@ >= 0,
        ensures
            s.wf(),
            s@.vals == initvals@.map_values(|f: Fixed| f@),
            s@.dur == duration@,
            s@.pad == padto as int,
    {
        let s = Segment { initvals, duration, padto };
        proof {
            assert(forall|i: int|
                0 <= i < s@.vals.len() ==> fits(#[trigger] s@.vals[i]));
        }
        s
    }

    /// Number of initial values this phase carries.
    pub fn init_len(&self) -> (n: usize)
        requires
            self.wf(),
        ensures
            n == self@.vals.len(),
    {
        self.initvals.len()
    }

    /// Duration of this phase.
    pub fn get_duration(&self) -> (d: Fixed)
        requires
            self.wf(),
        ensures
            d@ == self@.dur,
            d.wf(),
    {
        self.duration
    }

    /// State at offset `t` within the phase, padded with zeros up to the
    /// configured width.  Offsets outside `[0, duration]` are excluded by
    /// contract.
    pub fn get_state_at(&self, t: Fixed) -> (r: Result<Vec<Fixed>, PlanError>)
        requires
            self.wf(),
            t.wf(),
            0 <= t@,
            t@ <= self@.dur,
        ensures
            match r {
                Ok(v) => {
                    &&& v@.len() == self@.pad
                    &&& forall|k: int| 0 <= k < self@.pad ==> (#[trigger] v@[k]).wf()
                    &&& forall|k: int|
                        0 <= k < self@.pad ==> (#[trigger] v@[k])@ == seg_state_at(self@, t@)[k]
                    &&& seg_fits(self@, t@)
                },
                Err(e) => e == PlanError::Numeric && !seg_fits(self@, t@),
            },
    {
        let n = self.initvals.len();
        let zeros = self.padto - n;
        let mut out: Vec<Fixed> = Vec::new();
        let mut k: usize = 0;
        while k < zeros
            invariant
                k <= zeros,
                zeros == self.padto - n,
                n == self.initvals@.len(),
                out@.len() == k,
                forall|m: int| 0 <= m < k ==> (#[trigger] out@[m])@ == 0,
                forall|m: int| 0 <= m < k ==> (#[trigger] out@[m]).wf(),
            decreases zeros - k,
        {
            out.push(Fixed::zero());
            k = k + 1;
        }
        let mut j: usize = 0;
        while j < n
            invariant
                j <= n,
                zeros == self.padto - n,
                n == self.initvals@.len(),
                self.wf(),
                t.wf(),
                out@.len() == zeros + j,
                forall|m: int| 0 <= m < zeros ==> (#[trigger] out@[m])@ == 0,
                forall|m: int| 0 <= m < zeros + j ==> (#[trigger] out@[m]).wf(),
                forall|m: int|
                    zeros <= m < zeros + j ==> (#[trigger] out@[m])@ == slot_val(
                        self@.vals,
                        t@,
                        m - zeros,
                    ),
                forall|m: int| 0 <= m < j ==> #[trigger] slot_fits(self@.vals, t@, m),
            decreases n - j,
        {
            proof {
                assert forall|m: int| 0 <= m < self.initvals@.len() implies (#[trigger] self
                    .initvals@[m]).wf() by {
                    assert(self@.vals[m] == self.initvals@[m]@);
                }
            }
            let v = match eval_slot(&self.initvals, t, j) {
                Ok(v) => v,
                Err(e) => {
                    return Err(e);
                },
            };
            out.push(v);
            j = j + 1;
        }
        proof {
            assert(forall|k: int|
                0 <= k < self@.pad ==> (#[trigger] out@[k])@ == seg_state_at(self@, t@)[k]);
        }
        Ok(out)
    }

    /// The padded initial values: the state this phase starts from, with
    /// zeros for the derivative orders it does not track.
    pub fn init_state(&self) -> (r: Vec<Fixed>)
        requires
            self.wf(),
        ensures
            r@.len() == self@.pad,
            forall|k: int| 0 <= k < self@.pad ==> (#[trigger] r@[k]).wf(),
            forall|k: int| 0 <= k < self@.pad ==> (#[trigger] r@[k])@ == seg_init_state(self@)[k],
    {
        let n = self.initvals.len();
        let zeros = self.padto - n;
        let mut out: Vec<Fixed> = Vec::new();
        let mut k: usize = 0;
        while k < zeros
            invariant
                k <= zeros,
                zeros == self.padto - n,
                n == self.initvals@.len(),
                out@.len() == k,
                forall|m: int| 0 <= m < k ==> (#[trigger] out@[m])@ == 0,
                forall|m: int| 0 <= m < k ==> (#[trigger] out@[m]).wf(),
            decreases zeros - k,
        {
            out.push(Fixed::zero());
            k = k + 1;
        }
        let mut j: usize = 0;
        while j < n
            invariant
                j <= n,
                zeros == self.padto - n,
                n == self.initvals@.len(),
                self.wf(),
                out@.len() == zeros + j,
                forall|m: int| 0 <= m < zeros ==> (#[trigger] out@[m])@ == 0,
                forall|m: int| 0 <= m < zeros + j ==> (#[trigger] out@[m]).wf(),
                forall|m: int|
                    zeros <= m < zeros + j ==> (#[trigger] out@[m])@ == self@.vals[m - zeros],
            decreases n - j,
        {
            let v = self.initvals[j];
            proof {
                assert(self@.vals[j as int] == self.initvals@[j as int]@);
                assert(fits(self@.vals[j as int]));
            }
            out.push(v);
            j = j + 1;
        }
        proof {
            assert(forall|k: int|
                0 <= k < self@.pad ==> (#[trigger] out@[k])@ == seg_init_state(self@)[k]);
        }
        out
    }

    /// State at the end of the phase.
    pub fn get_end_state(&self) -> (r: Result<Vec<Fixed>, PlanError>)
        requires
            self.wf(),
        ensures
            match r {
                Ok(v) => {
                    &&& v@.len() == self@.pad
                    &&& forall|k: int| 0 <= k < self@.pad ==> (#[trigger] v@[k]).wf()
                    &&& forall|k: int|
                        0 <= k < self@.pad ==> (#[trigger] v@[k])@ == seg_state_at(
                            self@,
                            self@.dur,
                        )[k]
                    &&& seg_fits(self@, self@.dur)
                },
                Err(e) => e == PlanError::Numeric && !seg_fits(self@, self@.dur),
            },
    {
        let d = self.duration;
        self.get_state_at(d)
    }
}

} // verus!
