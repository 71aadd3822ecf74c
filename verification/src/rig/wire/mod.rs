//! The protocol: frames on a pipe, the messages they carry, and the answers
//! sent back.

pub mod control;
pub mod framing;
pub mod lines;
pub mod message;
pub mod reply;

pub use framing::{Kind, Line, Reassembly, Sent, FRAME_LIMIT};
pub use message::{field, Account, Answer, Heard, Message, Micros, Pid, Stamp, Verb};
