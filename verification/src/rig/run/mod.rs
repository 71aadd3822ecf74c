//! What a run is made of before it starts, and what it comes to: the setup,
//! where it keeps its files, how bash ended, and what went wrong.

pub mod behaviour;
pub mod rigging;
pub mod turn;

pub use turn::Turn;

use vstd::prelude::*;

use super::capture::Capture;
use super::codegen::{AssetError, BashSrc};
use crate::digits::signed_decimal;

verus! {

/// Where a run keeps its pipe, its prelude, and anything a step wrote.
/// `Temporary` discards them when the run ends; `At` keeps them, which is
/// what you want when something went wrong.
#[derive(PartialEq, Eq, Debug)]
pub enum Workspace {
    Temporary,
    At(String),
}

/// How a run starts. A pure value: no I/O happens until the runtime uses
/// it.
#[derive(Debug)]
pub struct Setup {
    pub bash: BashSrc,
    pub env: Vec<(String, String)>,
    pub workspace: Workspace,
    pub debug: bool,
}

pub open spec fn env_views(env: Seq<(String, String)>) -> Seq<(Seq<char>, Seq<char>)> {
    env.map_values(|p: (String, String)| (p.0@, p.1@))
}

impl Setup {
    /// No bash, no environment, a workspace of the run's own, no trace.
    pub fn new() -> (r: Self)
        ensures
            r.bash@ == Seq::<char>::empty(),
            r.env@.len() == 0,
            r.workspace == Workspace::Temporary,
            !r.debug,
    {
        Self { bash: BashSrc::empty(), env: Vec::new(), workspace: Workspace::Temporary, debug: false }
    }

    pub fn bash(self, bash: BashSrc) -> (r: Self)
        ensures
            r.bash == bash,
            r.env == self.env,
            r.workspace == self.workspace,
            r.debug == self.debug,
    {
        Self { bash, ..self }
    }

    /// Environment for the subject's own code. The rig's own mechanisms use
    /// none: the prelude carries its configuration baked in.
    pub fn env(self, key: &str, value: &str) -> (r: Self)
        ensures
            r.bash == self.bash,
            env_views(r.env@) == env_views(self.env@).push((key@, value@)),
            r.workspace == self.workspace,
            r.debug == self.debug,
    {
        let mut env = self.env;
        let ghost before = env_views(env@);
        env.push((crate::text::owned(key), crate::text::owned(value)));
        assert(env_views(env@) =~= before.push((key@, value@)));
        Self { env, ..self }
    }

    pub fn in_workspace(self, workspace: Workspace) -> (r: Self)
        ensures
            r.bash == self.bash,
            r.env == self.env,
            r.workspace == workspace,
            r.debug == self.debug,
    {
        Self { workspace, ..self }
    }

    /// Traces the bash side into `debug.log`, surfaced as `Outcome::debug`.
    pub fn debug(self, on: bool) -> (r: Self)
        ensures
            r.bash == self.bash,
            r.env == self.env,
            r.workspace == self.workspace,
            r.debug == on,
    {
        Self { debug: on, ..self }
    }
}

impl Clone for Workspace {
    fn clone(&self) -> (r: Self)
        ensures
            r == *self,
    {
        match self {
            Workspace::Temporary => Workspace::Temporary,
            Workspace::At(dir) => Workspace::At(dir.clone()),
        }
    }
}

impl Clone for Setup {
    fn clone(&self) -> (r: Self)
        ensures
            r.bash@ == self.bash@,
            env_views(r.env@) == env_views(self.env@),
            r.workspace == self.workspace,
            r.debug == self.debug,
    {
        let mut env: Vec<(String, String)> = Vec::new();
        for i in 0..self.env.len()
            invariant
                env_views(env@) == env_views(self.env@.take(i as int)),
        {
            let ghost before = env_views(env@);
            let (key, value) = &self.env[i];
            env.push((key.clone(), value.clone()));
            assert(self.env@.take(i + 1).drop_last() =~= self.env@.take(i as int));
            assert(env_views(env@) =~= before.push((key@, value@)));
        }
        assert(self.env@.take(self.env@.len() as int) =~= self.env@);
        Setup { bash: self.bash.clone(), env, workspace: self.workspace.clone(), debug: self.debug }
    }
}

impl Default for Setup {
    fn default() -> (r: Self)
        ensures
            r.bash@ == Seq::<char>::empty(),
            r.env@.len() == 0,
            r.workspace == Workspace::Temporary,
            !r.debug,
    {
        Self::new()
    }
}

/// How the wrapped bash process ended. No `Option`: a process that did not
/// exit normally was signalled, and both are reportable.
#[derive(Copy, Clone, PartialEq, Eq, Debug, Structural)]
pub enum ExitStatus {
    Code(i32),
    Signal(i32),
}

impl ExitStatus {
    /// Shell convention: a signalled process reports `128 + signal`.
    pub fn code(self) -> (r: i32)
        requires
            self matches ExitStatus::Signal(signal) ==> signal <= i32::MAX - 128,
        ensures
            r == match self {
                ExitStatus::Code(code) => code as int,
                ExitStatus::Signal(signal) => 128 + signal,
            },
    {
        match self {
            ExitStatus::Code(code) => code,
            ExitStatus::Signal(signal) => 128 + signal,
        }
    }

    /// What `std::process::ExitStatus` says of a process, as its `code()`
    /// and its `signal()`: the code where it exited, the signal where it did
    /// not, and signal 0 where neither is known.
    pub fn of(code: Option<i32>, signal: Option<i32>) -> (r: Self)
        ensures
            r == match (code, signal) {
                (Some(c), _) => ExitStatus::Code(c),
                (None, Some(s)) => ExitStatus::Signal(s),
                (None, None) => ExitStatus::Signal(0),
            },
    {
        match (code, signal) {
            (Some(c), _) => ExitStatus::Code(c),
            (None, Some(s)) => ExitStatus::Signal(s),
            (None, None) => ExitStatus::Signal(0),
        }
    }

    /// `exit <code>`, or `killed by signal <n>`.
    pub fn to_string(&self) -> (s: String)
        ensures
            s@ == match self {
                ExitStatus::Code(code) => "exit "@ + signed_decimal(*code as int),
                ExitStatus::Signal(signal) => "killed by signal "@ + signed_decimal(*signal as int),
            },
    {
        let (mut s, n) = match self {
            ExitStatus::Code(code) => (crate::text::owned("exit "), *code),
            ExitStatus::Signal(signal) => (crate::text::owned("killed by signal "), *signal),
        };
        let digits = crate::digits::signed_text(n);
        crate::text::push_str(&mut s, digits.as_str());
        s
    }
}

/// What a wrapper has to tell its caller: how much it wrote, and how the
/// wrapped program ended.
#[derive(Debug)]
pub struct Report {
    pub written: usize,
    pub status: ExitStatus,
}

#[derive(Debug)]
pub struct Outcome {
    pub capture: Capture,
    pub status: ExitStatus,
    /// The bash side's own trace, when the setup asked for it.
    pub debug: Vec<String>,
}

/// What stopped a run, and the cause underneath as text.
#[derive(Debug)]
pub enum RigError {
    Workspace(String),
    Asset(AssetError),
    Prelude { path: String, cause: String },
    Pipe(String),
    Spawn(String),
    Wait(String),
    Read(String),
    Reply(String),
}

impl RigError {
    /// How the error reads.
    pub fn to_string(&self) -> (s: String)
        ensures
            s@ == match self {
                RigError::Workspace(cause) => "run workspace: "@ + cause@,
                RigError::Asset(cause) => super::codegen::asset::asset_error_text(*cause),
                RigError::Prelude { path, cause } => "prelude "@ + path@ + ": "@ + cause@,
                RigError::Pipe(cause) => "instrumentation pipe: "@ + cause@,
                RigError::Spawn(cause) => "spawn bash: "@ + cause@,
                RigError::Wait(cause) => "wait for bash: "@ + cause@,
                RigError::Read(cause) => "read the pipe: "@ + cause@,
                RigError::Reply(cause) => "answer a question: "@ + cause@,
            },
    {
        let (lead, cause) = match self {
            RigError::Asset(cause) => return cause.to_string(),
            RigError::Prelude { path, cause } => {
                let mut s = crate::text::owned("prelude ");
                crate::text::push_str(&mut s, path.as_str());
                crate::text::push_str(&mut s, ": ");
                crate::text::push_str(&mut s, cause.as_str());
                return s;
            },
            RigError::Workspace(cause) => ("run workspace: ", cause),
            RigError::Pipe(cause) => ("instrumentation pipe: ", cause),
            RigError::Spawn(cause) => ("spawn bash: ", cause),
            RigError::Wait(cause) => ("wait for bash: ", cause),
            RigError::Read(cause) => ("read the pipe: ", cause),
            RigError::Reply(cause) => ("answer a question: ", cause),
        };
        let mut s = crate::text::owned(lead);
        crate::text::push_str(&mut s, cause.as_str());
        s
    }
}

impl From<AssetError> for RigError {
    fn from(cause: AssetError) -> (r: Self) {
        RigError::Asset(cause)
    }
}

impl vstd::std_specs::convert::FromSpecImpl<AssetError> for RigError {
    open spec fn obeys_from_spec() -> bool {
        true
    }

    open spec fn from_spec(v: AssetError) -> Self {
        RigError::Asset(v)
    }
}

} // verus!
