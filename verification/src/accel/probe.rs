use crate::solver::backend::AccelerationTarget;
use vstd::prelude::*;

verus! {

/// Whether a kernel can be used in this build: only the pure one can.
pub fn is_available(target: AccelerationTarget) -> (yes: bool)
    ensures
        yes == (target == AccelerationTarget::PureRust),
{
    match target {
        AccelerationTarget::PureRust => true,
        AccelerationTarget::Native => crate::accel::native::available(),
        AccelerationTarget::Cuda => crate::accel::cuda::available(),
        AccelerationTarget::Rocm => crate::accel::rocm::available(),
    }
}

} // verus!
