//! Default hooks that a stage author can use as stand-ins.
use vstd::prelude::*;

use crate::{PipeState, PipeU};

verus! {

/// An admission hook that lets every entity in.
pub fn function_control<T: PipeU>(pipe_u: &T) -> (r: PipeState)
    ensures
        r == PipeState::ConsumeState,
{
    PipeState::ConsumeState
}

/// A processing hook that never advances: the entity stays at its stage.
pub fn function_core<T: PipeU>(pipe_u: &T) -> (r: PipeState)
    ensures
        r == PipeState::ConsumeState,
{
    PipeState::ConsumeState
}

} // verus!
