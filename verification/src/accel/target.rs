use crate::solver::backend::AccelerationTarget;
use vstd::prelude::*;

verus! {

/// Every kernel that a run can ask for, the pure one first.
pub fn all_targets() -> (targets: [AccelerationTarget; 4])
    ensures
        targets@ == seq![
            AccelerationTarget::PureRust,
            AccelerationTarget::Native,
            AccelerationTarget::Cuda,
            AccelerationTarget::Rocm,
        ],
{
    [
        AccelerationTarget::PureRust,
        AccelerationTarget::Native,
        AccelerationTarget::Cuda,
        AccelerationTarget::Rocm,
    ]
}

} // verus!
