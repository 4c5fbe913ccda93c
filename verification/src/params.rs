//! Control-surface vocabulary shared with the collaborators that turn a
//! spatial direction into an impulse-response pair.  The engine itself
//! consumes only ready impulse responses; these names identify which
//! coordinate of the listening direction a control update addresses.

use vstd::prelude::*;

verus! {

/// Which coordinate of the spatial direction a parameter update sets.
#[derive(Debug, Clone, Copy, PartialEq, Eq, Structural)]
pub enum CoordParam {
    /// Front-back axis.
    Xcoord,
    /// Left-right axis.
    Ycoord,
    /// Up-down axis.
    Zcoord,
}

} // verus!
