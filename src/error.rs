use vstd::prelude::*;

verus! {

/// Why a declared process or system state was rejected.
#[derive(Debug, Clone, Copy, PartialEq, Eq, Structural)]
pub enum ValidationError {
    /// A process's allocation and maximum need differ in length from each
    /// other or from the resource capacity vector.
    LengthMismatch,
    /// A process holds more of resource `index` than its declared maximum need.
    OverAllocation { index: usize },
    /// A process's allocation or maximum need for resource `index` (`value`)
    /// is more than the system has in total (`limit`).
    ExceedsCapacity { index: usize, value: u8, limit: u8 },
    /// A system was finalized without any process.
    EmptySystem,
    /// The processes together hold `deficit` more units of resource `index`
    /// than the system has.
    OverCommitted { index: usize, deficit: u128 },
}

} // verus!
