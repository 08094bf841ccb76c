//! Evaluators reshape a scorer's output through a calibration curve. The
//! verified core carries the linear (affine) curve in fixed point; curves
//! that need transcendental arithmetic live with the application.

use vstd::prelude::*;

use crate::scorer::SCORE_ONE;

verus! {

/// An affine curve through the calibration points `(xa, ya)` and `(xb, yb)`,
/// clamped to the input domain `xa..=xb`. All coordinates are fixed-point
/// fractions of [`SCORE_ONE`].
#[derive(Clone, Copy, PartialEq, Eq, Structural, Debug)]
pub struct Linear {
    pub xa: u64,
    pub ya: u64,
    pub xb: u64,
    pub yb: u64,
}

/// Calibration points that define a usable curve: a non-empty input domain
/// inside the unit interval, outputs inside the unit interval.
pub open spec fn linear_wf(l: Linear) -> bool {
    &&& l.xa < l.xb
    &&& l.xb <= SCORE_ONE
    &&& l.ya <= SCORE_ONE
    &&& l.yb <= SCORE_ONE
}

/// The curve's value at `t`: `t` is clamped into `xa..=xb`, then mapped
/// affinely from `(xa, ya)` to `(xb, yb)`, rounding the slope term down.
pub open spec fn linear_eval_spec(l: Linear, t: u64) -> int {
    let tc: int = if t < l.xa {
        l.xa as int
    } else if t > l.xb {
        l.xb as int
    } else {
        t as int
    };
    if l.yb >= l.ya {
        l.ya + (tc - l.xa) * (l.yb - l.ya) / (l.xb - l.xa)
    } else {
        l.ya - (tc - l.xa) * (l.ya - l.yb) / (l.xb - l.xa)
    }
}

impl Linear {
    /// A linear evaluator through `(xa, ya)` and `(xb, yb)`, given in either
    /// x-order (the line through two points does not depend on their order);
    /// only equal x-coordinates are excluded, a genuine singularity.
    pub fn new(xa: u64, ya: u64, xb: u64, yb: u64) -> (l: Linear)
        requires
            xa != xb,
            xa <= SCORE_ONE,
            xb <= SCORE_ONE,
            ya <= SCORE_ONE,
            yb <= SCORE_ONE,
        ensures
            l == (if xa < xb {
                Linear { xa, ya, xb, yb }
            } else {
                Linear { xa: xb, ya: yb, xb: xa, yb: ya }
            }),
            linear_wf(l),
    {
        if xa < xb {
            Linear { xa, ya, xb, yb }
        } else {
            Linear { xa: xb, ya: yb, xb: xa, yb: ya }
        }
    }

    /// Evaluates the curve at `t`; the result always lies between `ya` and
    /// `yb`, so inside the unit interval.
    pub fn eval(&self, t: u64) -> (r: u64)
        requires
            linear_wf(*self),
        ensures
            r as int == linear_eval_spec(*self, t),
            r <= SCORE_ONE,
    {
        let tc = if t < self.xa {
            self.xa
        } else if t > self.xb {
            self.xb
        } else {
            t
        };
        let dx = self.xb - self.xa;
        if self.yb >= self.ya {
            let dy = self.yb - self.ya;
            proof {
                lemma_slope_bound(tc as int - self.xa as int, dy as int, dx as int);
                assert((tc - self.xa) * dy <= SCORE_ONE * SCORE_ONE) by (nonlinear_arith)
                    requires
                        tc - self.xa <= SCORE_ONE,
                        dy <= SCORE_ONE,
                        0 <= tc - self.xa,
                        0 <= dy,
                ;
            }
            let d = (tc - self.xa) * dy / dx;
            self.ya + d
        } else {
            let dy = self.ya - self.yb;
            proof {
                lemma_slope_bound(tc as int - self.xa as int, dy as int, dx as int);
                assert((tc - self.xa) * dy <= SCORE_ONE * SCORE_ONE) by (nonlinear_arith)
                    requires
                        tc - self.xa <= SCORE_ONE,
                        dy <= SCORE_ONE,
                        0 <= tc - self.xa,
                        0 <= dy,
                ;
            }
            let d = (tc - self.xa) * dy / dx;
            self.ya - d
        }
    }
}

/// The slope term of a clamped affine interpolation never exceeds the output
/// span: for `0 <= u <= dx`, `u * dy / dx <= dy`.
proof fn lemma_slope_bound(u: int, dy: int, dx: int)
    requires
        0 <= u <= dx,
        0 <= dy,
        0 < dx,
    ensures
        0 <= u * dy / dx <= dy,
{
    assert(u * dy <= dx * dy) by (nonlinear_arith)
        requires
            0 <= u <= dx,
            0 <= dy,
    ;
    assert(u * dy >= 0) by (nonlinear_arith)
        requires
            0 <= u,
            0 <= dy,
    ;
    vstd::arithmetic::div_mod::lemma_div_is_ordered(u * dy, dx * dy, dx);
    vstd::arithmetic::div_mod::lemma_div_multiples_vanish(dy, dx);
    vstd::arithmetic::div_mod::lemma_div_pos_is_pos(u * dy, dx);
}

} // verus!
