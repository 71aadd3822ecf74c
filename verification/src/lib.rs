//! Run bash under instrumentation, and hear what it says: the wire's framing
//! and messages, what a shell says of itself, and the views a run is read
//! through.

pub mod digits;
pub mod failure;
pub mod quoting;
pub mod rig;
pub mod scratch;
pub mod shell;
pub mod text;
