use vstd::prelude::*;

verus! {

/// Whether the ROCm kernel is part of this build. It is not.
pub fn available() -> (yes: bool)
    ensures
        !yes,
{
    false
}

} // verus!
