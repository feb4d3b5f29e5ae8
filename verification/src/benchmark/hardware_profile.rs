use vstd::prelude::*;

verus! {

/// The machine that a benchmark ran on.
#[derive(Clone, Debug, PartialEq, Eq)]
pub struct HardwareProfile {
    pub id: String,
    /// Whether the hardware is pinned, so that measurements can be compared.
    pub pinned: bool,
}

} // verus!
