//! What a rig does, complete at construction: the bash a subject gets, and
//! what it is told when it asks. Bash composes, so several contributions
//! combine into one behaviour's speech; answers do not — there is one
//! conversation, so a behaviour has exactly one answer, and it is total.

use vstd::prelude::*;

use crate::rig::capture::Capture;
use crate::rig::codegen::BashSrc;
use crate::rig::control::Reply;
use crate::rig::record::Record;
use crate::rig::steering::{answers_turn, chooses_from, chose, reply_to, Turn};

verus! {

/// What a shell that asks is told when the behaviour has nothing to say to
/// it: the status a shell gives a word it cannot find.
pub const UNANSWERED: i32 = 127;

/// The bash a subject is given, and the one function that answers it.
pub struct Behaviour<F> {
    speak: BashSrc,
    answer: Option<F>,
}

impl<F: Fn(&Record, &Capture) -> Reply> Behaviour<F> {
    /// The bash the subject is given.
    pub closed spec fn speech(&self) -> Seq<char> {
        self.speak@
    }

    /// The answer, where one was given.
    pub closed spec fn answerer(&self) -> Option<F> {
        self.answer
    }

    /// Says nothing, and tells anything that asks [`UNANSWERED`].
    pub fn new() -> (r: Self)
        ensures
            r.speech() == Seq::<char>::empty(),
            r.answerer() is None,
    {
        Self { speak: BashSrc::empty(), answer: None }
    }

    pub fn speaking(self, bash: BashSrc) -> (r: Self)
        ensures
            r.speech() == bash@,
            r.answerer() == self.answerer(),
    {
        Self { speak: bash, answer: self.answer }
    }

    /// One function, always given an answer to give: it sees the question
    /// and everything the run has recorded.
    pub fn answering<G: Fn(&Record, &Capture) -> Reply>(self, answer: G) -> (r: Behaviour<G>)
        ensures
            r.speech() == self.speech(),
            r.answerer() == Some(answer),
    {
        Behaviour { speak: self.speak, answer: Some(answer) }
    }

    pub fn bash(&self) -> (r: &BashSrc)
        ensures
            r@ == self.speech(),
    {
        &self.speak
    }

    /// What `ask` is told, given everything heard so far.
    pub fn reply(&self, ask: &Record, seen: &Capture) -> (r: Reply)
        requires
            self.answerer() matches Some(f) ==> call_requires(f, (ask, seen)),
        ensures
            match self.answerer() {
                Some(f) => call_ensures(f, (ask, seen), r),
                None => r == (Reply::Continue { status: UNANSWERED }),
            },
    {
        match &self.answer {
            Some(answer) => answer(ask, seen),
            None => Reply::Continue { status: UNANSWERED },
        }
    }
}

impl<F: Fn(&Record, &Capture) -> Reply> Default for Behaviour<F> {
    fn default() -> (r: Self)
        ensures
            r.speech() == Seq::<char>::empty(),
            r.answerer() is None,
    {
        Self::new()
    }
}

/// A loop driven by one function of the history: the repl's own bash,
/// spoken as it is, and an answer to every ask that turns what `next`
/// chooses, given everything heard so far, into the reply for that turn.
pub fn repl<N: Fn(&Capture) -> Turn>(bash: BashSrc, next: N) -> (r: Behaviour<
    impl Fn(&Record, &Capture) -> Reply,
>)
    ensures
        r.speech() == bash@,
        r.answerer() is Some,
        forall|ask: &Record, seen: &Capture|
            call_requires(next, (seen,)) ==> call_requires(r.answerer()->0, (ask, seen)),
        forall|ask: &Record, seen: &Capture, reply: Reply|
            call_ensures(r.answerer()->0, (ask, seen), reply) ==> exists|turn: Turn|
                call_ensures(next, (seen,), turn) && answers_turn(turn, reply),
{
    let answer = move |ask: &Record, seen: &Capture| -> (reply: Reply)
        requires
            chooses_from(&next, seen),
        ensures
            exists|turn: Turn| chose(&next, seen, turn) && answers_turn(turn, reply),
    {
        let turn = next(seen);
        let ghost chosen = turn;
        let (reply, _) = reply_to(turn);
        assert(answers_turn(chosen, reply));
        reply
    };
    Behaviour { speak: bash, answer: Some(answer) }
}

} // verus!
