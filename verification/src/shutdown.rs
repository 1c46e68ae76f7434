//! The shutdown flag and the index of the chunk generation has reached, which a shutdown
//! reports so that a later run can resume there.
use vstd::prelude::*;

verus! {

/// Whether a shutdown was requested, and how far generation has come.
#[derive(Debug, Clone, Copy, PartialEq, Eq, Structural)]
pub struct ShutdownState {
    pub shutdown_requested: bool,
    pub current_chunk_index: usize,
}

impl ShutdownState {
    /// No shutdown requested, at chunk index 0.
    pub fn new() -> (s: Self)
        ensures
            !s.shutdown_requested,
            s.current_chunk_index == 0,
    {
        ShutdownState { shutdown_requested: false, current_chunk_index: 0 }
    }
}

/// Records that a shutdown was requested; the chunk index stays.
pub fn request_shutdown(state: &mut ShutdownState)
    ensures
        final(state).shutdown_requested,
        final(state).current_chunk_index == old(state).current_chunk_index,
{
    state.shutdown_requested = true;
}

/// Whether a shutdown was requested.
pub fn is_shutdown_requested(state: &ShutdownState) -> (b: bool)
    ensures
        b == state.shutdown_requested,
{
    state.shutdown_requested
}

/// Records that generation has reached chunk `index`; the shutdown flag stays.
pub fn update_current_chunk_index(state: &mut ShutdownState, index: usize)
    ensures
        final(state).current_chunk_index == index,
        final(state).shutdown_requested == old(state).shutdown_requested,
{
    state.current_chunk_index = index;
}

/// The chunk index generation has reached.
pub fn get_current_chunk_index(state: &ShutdownState) -> (index: usize)
    ensures
        index == state.current_chunk_index,
{
    state.current_chunk_index
}

} // verus!
