//! A steering loop, for driving a shell one call at a time.
//!
//! The client supplies a [`Steering`] impl; [`Repl`] keeps what the loop
//! needs between turns. Nothing new is invented for it — the loop asks over
//! the ordinary gateway, the next call arrives as an ordinary sourced
//! continuation, and its outcome goes back as an ordinary message.

use vstd::prelude::*;

use super::codegen::src::seq_text;
use super::codegen::{BashSrc, Codegen};
use super::control::{debug_quoted, Reply};
use super::dispatch::emit_text;
use super::capture::Capture;
use super::record::{FromRecord, Record};
use super::wire::message::field_of;
use crate::digits::i32_of;
use crate::quoting::{emit_scalar, scalar_form};

verus! {

pub const RAN_TAG: &'static str = "__RAN__";

/// The verb the loop asks by.
pub const VERB: &'static str = "__repl";

/// What a dispatched call did.
#[derive(Clone, PartialEq, Eq, Debug)]
pub struct Ran {
    pub command: String,
    pub status: i32,
}

/// Why a `__RAN__` record lacking `key` does not read.
pub open spec fn missing(key: Seq<char>) -> Seq<char> {
    "__RAN__ is missing "@ + debug_quoted(key)
}

/// What a `__RAN__` record's pairs read as: the command and its status, or
/// why not.
pub open spec fn ran_of(args: Seq<Seq<char>>) -> Result<(Seq<char>, i32), Seq<char>> {
    match field_of(args, "command"@) {
        None => Err(missing("command"@)),
        Some(command) => match field_of(args, "status"@) {
            None => Err(missing("status"@)),
            Some(status) => match i32_of(status) {
                Some(n) => Ok((command, n)),
                None => Err("status is not a number"@),
            },
        },
    }
}

fn missing_text(key: &str) -> (r: String)
    ensures
        r@ == missing(key@),
{
    let mut r = crate::text::owned("__RAN__ is missing ");
    let q = super::control::quoted(key);
    crate::text::push_str(&mut r, q.as_str());
    r
}

impl FromRecord for Ran {
    type Err = String;

    open spec fn claims(record: (Seq<char>, Seq<Seq<char>>)) -> bool {
        record.0 == RAN_TAG@
    }

    open spec fn decodes_to(record: (Seq<char>, Seq<Seq<char>>), value: Result<Ran, String>) -> bool {
        match (ran_of(record.1), value) {
            (Ok((command, status)), Ok(ran)) => ran.command@ == command && ran.status == status,
            (Err(why), Err(e)) => e@ == why,
            _ => false,
        }
    }

    fn from_record(record: &Record) -> (r: Option<Result<Ran, String>>) {
        if !crate::text::same(record.tag.as_str(), RAN_TAG) {
            return None;
        }
        let command = match record.field("command") {
            Some(c) => c,
            None => return Some(Err(missing_text("command"))),
        };
        let status = match record.field("status") {
            Some(s) => s,
            None => return Some(Err(missing_text("status"))),
        };
        let cs = crate::text::chars_of(status);
        match crate::digits::parse_i32(cs.as_slice()) {
            Some(n) => Some(Ok(Ran { command: crate::text::owned(command), status: n })),
            None => Some(Err(crate::text::owned("status is not a number"))),
        }
    }
}

/// What the operator wants next.
#[derive(Debug)]
pub enum Turn {
    Run(String),
    Stop,
}

/// How a steering loop decides. `last` is `None` on the first turn, and
/// afterwards describes the call that just finished.
pub trait Steering {
    fn next(&self, last: Option<&Ran>) -> Turn;
}

/// The step the shell sources: run the call, keep its status for the next
/// ask, and report what happened over the wire.
pub open spec fn step_text(command: Seq<char>, debug: bool) -> Seq<char> {
    seq_text(
        seq![
            command,
            "__BC__repl_rc=$?"@,
            "declare -a __bc_ran=(__RAN__ command "@ + scalar_form(command)
                + " status \"$__BC__repl_rc\")"@,
            emit_text("__bc_ran"@, debug),
        ],
    )
}

/// The step for `command`, as text.
pub fn step_body(command: &str, codegen: &Codegen) -> (r: String)
    ensures
        r@ == step_text(command@, codegen.is_debugging()),
{
    let quoted = emit_scalar(command);
    let mut declare = crate::text::owned("declare -a __bc_ran=(__RAN__ command ");
    crate::text::push_str(&mut declare, quoted.as_str());
    crate::text::push_str(&mut declare, " status \"$__BC__repl_rc\")");
    let ghost d = declare@;
    let emitted = codegen.emit("__bc_ran");
    let ghost e = emitted@;
    let parts = vec![
        BashSrc::raw(crate::text::owned(command)),
        BashSrc::raw(crate::text::owned("__BC__repl_rc=$?")),
        BashSrc::raw(declare),
        emitted,
    ];
    assert(super::codegen::src::src_views(parts@) =~~= seq![command@, "__BC__repl_rc=$?"@, d, e]);
    let body = BashSrc::seq(parts);
    crate::text::owned(body.as_str())
}

/// The status an ask of the loop reports: the word after the verb, read as
/// `str::parse` reads an `i32`, or 0 where there is none or it does not read.
pub open spec fn reported_status(ask: Seq<Seq<char>>) -> i32 {
    if ask.len() > 1 {
        match i32_of(ask[1]) {
            Some(n) => n,
            None => 0,
        }
    } else {
        0
    }
}

/// What an ask tells the steering of the call dispatched before it: that
/// call, with the status the ask reports; nothing on the first turn.
pub fn outcome(dispatched: Option<String>, ask: &Record) -> (r: Option<Ran>)
    ensures
        match dispatched {
            Some(command) => r matches Some(ran) && ran.command == command && ran.status
                == reported_status(crate::text::views(ask.args@)),
            None => r is None,
        },
{
    let status: i32 = if ask.args.len() > 1 {
        let cs = crate::text::chars_of(ask.args[1].as_str());
        match crate::digits::parse_i32(cs.as_slice()) {
            Some(n) => n,
            None => 0,
        }
    } else {
        0
    };
    match dispatched {
        Some(command) => Some(Ran { command, status }),
        None => None,
    }
}

/// What the loop answers a turn with, and the call it leaves pending: a
/// call to run is sourced as its step and stays pending until the next ask
/// reports it; stopping ends the loop with status 1 and leaves nothing
/// pending.
pub fn reply_to(turn: Turn) -> (r: (Reply, Option<String>))
    ensures
        match turn {
            Turn::Run(command) => (r.0 matches Reply::Source { body } && body@ == step_text(command@, false))
                && r.1 == Some(command),
            Turn::Stop => r.0 == (Reply::Continue { status: 1 }) && r.1 is None,
        },
{
    match turn {
        Turn::Run(command) => {
            let body = step_body(command.as_str(), &Codegen::new());
            (Reply::Source { body }, Some(command))
        },
        Turn::Stop => (Reply::Continue { status: 1 }, None),
    }
}

/// Whether `reply` is what a turn is answered with: a call to run is
/// sourced as its step; stopping ends the loop with status 1.
pub open spec fn answers_turn(turn: Turn, reply: Reply) -> bool {
    match turn {
        Turn::Run(command) => reply matches Reply::Source { body } && body@ == step_text(command@, false),
        Turn::Stop => reply == (Reply::Continue { status: 1 }),
    }
}

/// Whether `next` may be asked to choose, given `seen`.
pub open spec fn chooses_from<N: Fn(&Capture) -> Turn>(next: &N, seen: &Capture) -> bool {
    call_requires(*next, (seen,))
}

/// Whether `next` may choose `turn`, given `seen`.
pub open spec fn chose<N: Fn(&Capture) -> Turn>(next: &N, seen: &Capture, turn: Turn) -> bool {
    call_ensures(*next, (seen,), turn)
}

/// A steering loop between turns: the steering, and the call it last
/// dispatched, whose outcome the next ask reports.
pub struct Repl<S> {
    steering: S,
    dispatched: Option<String>,
}

impl<S: Steering> Repl<S> {
    /// The call dispatched and not yet reported.
    pub closed spec fn pending(&self) -> Option<Seq<char>> {
        match self.dispatched {
            Some(c) => Some(c@),
            None => None,
        }
    }

    pub fn new(steering: S) -> (r: Self)
        ensures
            r.pending() is None,
    {
        Self { steering, dispatched: None }
    }

    /// One ask of the loop: the outcome of the last call, as [`outcome`]
    /// reads it off the pending call and the ask, goes to the steering, and
    /// what it chooses is answered as [`reply_to`] answers it.
    pub fn answer(&mut self, ask: &Record) -> (r: Reply)
        ensures
            match r {
                Reply::Source { body } => final(self).pending() matches Some(command) && body@ == step_text(
                    command,
                    false,
                ),
                Reply::Continue { status } => status == 1 && final(self).pending() is None,
                Reply::Fail { .. } => false,
            },
    {
        let last = outcome(self.dispatched.take(), ask);
        let turn = match &last {
            Some(ran) => self.steering.next(Some(ran)),
            None => self.steering.next(None),
        };
        let (reply, pending) = reply_to(turn);
        self.dispatched = pending;
        reply
    }
}

} // verus!
