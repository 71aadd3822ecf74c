//! How bash ended.

use vstd::prelude::*;

use crate::digits::decimal;

verus! {

/// How bash ended. `wait(2)` yields exactly one of these, and both fields
/// are the width the kernel gives them.
#[derive(Copy, Clone, PartialEq, Eq, Debug, Structural)]
pub enum ExitStatus {
    Code(u8),
    Signal(u8),
}

/// What a shell reports for a status: the code, or `128 + n` for a signal.
pub open spec fn shell_code_of(status: ExitStatus) -> int {
    match status {
        ExitStatus::Code(code) => code as int,
        ExitStatus::Signal(signal) => 128 + signal,
    }
}

impl ExitStatus {
    /// What a shell would report for it: `128 + n` for a signal.
    pub fn shell_code(self) -> (r: i32)
        ensures
            r == shell_code_of(self),
    {
        match self {
            ExitStatus::Code(code) => code as i32,
            ExitStatus::Signal(signal) => 128 + signal as i32,
        }
    }

    /// After `wait(2)` a process has either exited or been signalled, so
    /// reading the two fields out of the raw status is total: `WTERMSIG` is
    /// the low seven bits, `WEXITSTATUS` the second byte, and there is no
    /// third outcome to default to.
    pub fn from_wait(raw: i32, signalled: bool) -> (r: Self)
        ensures
            r == if signalled {
                ExitStatus::Signal((raw & 0x7f) as u8)
            } else {
                ExitStatus::Code(((raw >> 8) & 0xff) as u8)
            },
    {
        if signalled {
            ExitStatus::Signal((raw & 0x7f) as u8)
        } else {
            ExitStatus::Code(((raw >> 8) & 0xff) as u8)
        }
    }

    /// `exit <code>`, or `killed by signal <n>`.
    pub fn to_string(&self) -> (s: String)
        ensures
            s@ == match self {
                ExitStatus::Code(code) => "exit "@ + decimal(*code as nat),
                ExitStatus::Signal(signal) => "killed by signal "@ + decimal(*signal as nat),
            },
    {
        let (mut s, n) = match self {
            ExitStatus::Code(code) => (crate::text::owned("exit "), *code),
            ExitStatus::Signal(signal) => (crate::text::owned("killed by signal "), *signal),
        };
        let digits = crate::digits::decimal_text(n as u64);
        crate::text::push_str(&mut s, digits.as_str());
        s
    }
}

} // verus!
