//! Running bash without writing a rig: a conversation that keeps everything
//! it hears and answers each question from what has been heard so far.

use vstd::prelude::*;

use super::capture::Capture;
use super::error::RigError;
use super::record::Line;
use super::run::turn::Turn;
use super::run::{env_views, ExitStatus, Setup};
use super::wire::reply::Reply;
use crate::digits::signed_decimal;

verus! {

/// What a shell that asks is told when nobody is there to answer: 127, the
/// status a shell gives a word it cannot find.
pub open spec fn unanswered_words() -> Seq<Seq<char>> {
    seq!["return"@, signed_decimal(127)]
}

/// A conversation: how the run starts, and the answer every question gets,
/// given everything heard so far.
pub struct Conversing<A> {
    setup: Setup,
    answer: A,
}

impl<A: for<'a> FnMut(&Capture, &Turn<'a>) -> Result<Reply, RigError>> Conversing<A> {
    /// How the run starts.
    pub closed spec fn how(&self) -> Setup {
        self.setup
    }

    /// What answers.
    pub closed spec fn answerer(&self) -> A {
        self.answer
    }

    pub fn new(setup: Setup, answer: A) -> (r: Self)
        ensures
            r.how() == setup,
            r.answerer() == answer,
    {
        Self { setup, answer }
    }

    /// The run starts from the setup it was given, having heard nothing.
    pub fn start(&self) -> (r: (Setup, Capture))
        ensures
            r.0.bash@ == self.how().bash@,
            env_views(r.0.env@) == env_views(self.how().env@),
            r.0.workspace == self.how().workspace,
            r.0.debug == self.how().debug,
            r.1@ == Seq::<(super::record::Stamp, (Seq<char>, Seq<Seq<char>>))>::empty(),
    {
        (self.setup.clone(), Capture::new(Vec::new()))
    }

    /// Everything said is kept, in the order it was heard.
    pub fn heard(&self, seen: &mut Capture, said: Line)
        ensures
            final(seen)@ == old(seen)@.push(said@),
    {
        let ghost before = seen@;
        seen.lines.push(said);
        assert(seen@ =~= before.push(said@));
    }

    /// A question is answered from what has been heard so far.
    pub fn answer(&mut self, seen: &Capture, asked: &Turn) -> (r: Result<Reply, RigError>)
        requires
            call_requires(old(self).answerer(), (seen, asked)),
        ensures
            call_ensures(old(self).answerer(), (seen, asked), r),
            final(self).how() == old(self).how(),
    {
        (self.answer)(seen, asked)
    }

    /// What the run comes to: everything heard, and how bash ended.
    pub fn ended(self, seen: Capture, status: ExitStatus) -> (r: (Capture, ExitStatus))
        ensures
            r.0@ == seen@,
            r.1 == status,
    {
        (seen, status)
    }
}

/// A conversation that keeps everything and answers nothing: every question
/// is told to return 127.
pub fn listening(setup: Setup) -> (r: Conversing<
    impl for<'a> FnMut(&Capture, &Turn<'a>) -> Result<Reply, RigError>,
>)
    ensures
        r.how() == setup,
        forall|seen: &Capture, asked: &Turn| call_requires(r.answerer(), (seen, asked)),
        forall|seen: &Capture, asked: &Turn, reply: Result<Reply, RigError>|
            call_ensures(r.answerer(), (seen, asked), reply) ==> (reply matches Ok(words) && words@
                == unanswered_words()),
{
    let answer = |seen: &Capture, asked: &Turn| -> (reply: Result<Reply, RigError>)
        ensures
            reply matches Ok(words) && words@ == unanswered_words(),
    { Ok(Reply::status(127)) };
    Conversing { setup, answer }
}

} // verus!
