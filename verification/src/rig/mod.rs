//! Run bash under instrumentation, and hear what it says.

pub mod attended;
pub mod capture;
pub mod codegen;
pub mod control;
pub mod dispatch;
pub mod driving;
pub mod error;
pub mod instrument;
pub mod listen;
pub mod frame;
pub mod record;
pub mod run;
pub mod session;
pub mod source;
pub mod status;
pub mod steering;
pub mod tree;
pub mod watch;
pub mod wire;
