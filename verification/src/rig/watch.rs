//! What one wait over a pipe and the end condition found.

use vstd::prelude::*;

verus! {

/// The pipe has something to read, or nobody who could speak is left.
#[derive(Copy, Clone, PartialEq, Eq, Debug, Structural)]
pub enum Ready {
    Spoke,
    Gone,
}

/// What one `poll` over the pipe and the end condition says, given the
/// events each reported and the bit that means readable. The pipe is asked
/// first: a ready end does not imply an empty pipe. The end is read as
/// ready on any event at all, since a handle reports a hang-up where a
/// process reports readable. Neither, and the poll goes again.
pub fn ready_of(pipe: i16, end: i16, readable: i16) -> (r: Option<Ready>)
    ensures
        r == if pipe & readable != 0 {
            Some(Ready::Spoke)
        } else if end != 0 {
            Some(Ready::Gone)
        } else {
            None::<Ready>
        },
{
    if pipe & readable != 0 {
        Some(Ready::Spoke)
    } else if end != 0 {
        Some(Ready::Gone)
    } else {
        None
    }
}

} // verus!
