//! The impulse-response cache's value type: a validated left/right pair of
//! time-domain impulse responses, immutable once built and replaced
//! wholesale, never edited in place.

use vstd::prelude::*;
use crate::{COEFF_LIMIT, FILTER_LEN_LIMIT, WINDOW_LIMIT};
use crate::conv::{int_seq, vec_bounded};

verus! {

/// A configuration the engine cannot run with.  These are construction-time
/// errors: once an engine or an impulse response exists, processing never
/// fails.
#[derive(Debug, Clone, Copy, PartialEq, Eq, Structural)]
pub enum ConfigError {
    /// The two ears' impulse responses differ in length.
    ChannelMismatch,
    /// The impulse response has no coefficients.
    EmptyFilter,
    /// The impulse response is longer than `FILTER_LEN_LIMIT`.
    FilterTooLong,
    /// A coefficient's magnitude exceeds `COEFF_LIMIT`.
    CoefficientOutOfRange,
    /// The analysis window size is zero.
    ZeroWindow,
    /// The analysis window size exceeds `WINDOW_LIMIT`.
    WindowTooLarge,
    /// A replacement impulse response's length differs from the length the
    /// engine was built for; changing the length requires a new engine.
    FilterLengthChanged,
}

/// A direction-dependent pair of time-domain impulse responses, one per ear,
/// in fixed-point coefficients.
pub struct ImpulseResponse {
    /// Left-ear coefficients.
    pub left: Vec<i64>,
    /// Right-ear coefficients.
    pub right: Vec<i64>,
}

impl ImpulseResponse {
    /// Both ears have the same positive, bounded length and every
    /// coefficient is within the fixed-point range.
    pub open spec fn wf(&self) -> bool {
        &&& self.left.len() == self.right.len()
        &&& 1 <= self.left.len() <= FILTER_LEN_LIMIT
        &&& vec_bounded(self.left@, COEFF_LIMIT as int)
        &&& vec_bounded(self.right@, COEFF_LIMIT as int)
    }

    /// The filter length both ears share.
    pub open spec fn spec_len(&self) -> int {
        self.left.len() as int
    }

    /// Validates and wraps an impulse-response pair.  Succeeds exactly when
    /// the two ears have one and the same length, that length is positive
    /// and at most `FILTER_LEN_LIMIT`, and every coefficient's magnitude is
    /// at most `COEFF_LIMIT`.
    pub fn new(left: Vec<i64>, right: Vec<i64>) -> (r: Result<ImpulseResponse, ConfigError>)
        ensures
            r matches Ok(ir) ==> {
                &&& ir.wf()
                &&& ir.left@ == left@
                &&& ir.right@ == right@
            },
            r matches Err(e) ==> {
                &&& (e == ConfigError::ChannelMismatch <==> left.len() != right.len())
                &&& (e == ConfigError::EmptyFilter <==> left.len() == right.len()
                    && left.len() == 0)
                &&& (e == ConfigError::FilterTooLong <==> left.len() == right.len()
                    && left.len() > FILTER_LEN_LIMIT)
                &&& (e == ConfigError::CoefficientOutOfRange <==> left.len() == right.len()
                    && 1 <= left.len() <= FILTER_LEN_LIMIT && !(vec_bounded(left@,
                    COEFF_LIMIT as int) && vec_bounded(right@, COEFF_LIMIT as int)))
            },
            r is Ok <==> {
                &&& left.len() == right.len()
                &&& 1 <= left.len() <= FILTER_LEN_LIMIT
                &&& vec_bounded(left@, COEFF_LIMIT as int)
                &&& vec_bounded(right@, COEFF_LIMIT as int)
            },
    {
        if left.len() != right.len() {
            return Err(ConfigError::ChannelMismatch);
        }
        if left.len() == 0 {
            return Err(ConfigError::EmptyFilter);
        }
        if left.len() > FILTER_LEN_LIMIT {
            return Err(ConfigError::FilterTooLong);
        }
        if !coeffs_in_range(&left) || !coeffs_in_range(&right) {
            return Err(ConfigError::CoefficientOutOfRange);
        }
        Ok(ImpulseResponse { left, right })
    }

    /// The number of coefficients per ear.
    pub fn filter_len(&self) -> (r: usize)
        ensures
            r == self.spec_len(),
    {
        self.left.len()
    }

    /// The left-ear coefficients as mathematical integers.
    pub open spec fn left_view(&self) -> Seq<int> {
        int_seq(self.left@)
    }

    /// The right-ear coefficients as mathematical integers.
    pub open spec fn right_view(&self) -> Seq<int> {
        int_seq(self.right@)
    }
}

/// Checks that every coefficient's magnitude is at most `COEFF_LIMIT`.
fn coeffs_in_range(v: &Vec<i64>) -> (r: bool)
    ensures
        r <==> vec_bounded(v@, COEFF_LIMIT as int),
{
    let mut i: usize = 0;
    while i < v.len()
        invariant
            i <= v.len(),
            forall|k: int| 0 <= k < i ==> -(COEFF_LIMIT as int) <= (#[trigger] v@[k]) as int
                <= COEFF_LIMIT as int,
        decreases v.len() - i,
    {
        let c = v[i];
        if c > COEFF_LIMIT || c < -COEFF_LIMIT {
            return false;
        }
        i = i + 1;
    }
    true
}

} // verus!
