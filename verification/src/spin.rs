use vstd::prelude::*;

verus! {

/// The spin state of a placement.
#[derive(Clone, Copy, PartialEq, Eq, Debug, PartialOrd, Ord, Structural)]
pub enum Spin {
    NoSpin,
    Mini,
    Full,
}

/// Which placements count as spins.
#[derive(Clone, Copy, PartialEq, Eq, Debug, Structural)]
pub enum Spins {
    NoSpins,
    T,
    All,
}

/// The number of spin states.
pub const SPIN_STATES: usize = 3;

/// The rank `0..3` of a spin state: NoSpin < Mini < Full.
pub open spec fn spin_index(s: Spin) -> int {
    match s {
        Spin::NoSpin => 0,
        Spin::Mini => 1,
        Spin::Full => 2,
    }
}

} // verus!
