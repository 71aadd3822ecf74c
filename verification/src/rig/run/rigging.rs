//! A rig assembled from parts rather than declared as a type.

use vstd::prelude::*;

use super::turn::Turn;
use super::{env_views, Setup};
use crate::rig::error::RigError;
use crate::rig::wire::reply::Reply;

verus! {

/// For a rig that is not worth naming: how a run starts, and a closure that
/// answers, owning its state the way an implementation owns its fields.
pub struct Rigging<F> {
    setup: Setup,
    answer: F,
}

impl<F: for<'a> FnMut(&Turn<'a>) -> Result<Reply, RigError>> Rigging<F> {
    /// How a run of this rig starts.
    pub closed spec fn how(&self) -> Setup {
        self.setup
    }

    /// What answers.
    pub closed spec fn answerer(&self) -> F {
        self.answer
    }

    pub fn new(setup: Setup, answer: F) -> (r: Self)
        ensures
            r.how() == setup,
            r.answerer() == answer,
    {
        Self { setup, answer }
    }

    /// How a run starts: the setup it was made with, every time.
    pub fn setup(&self) -> (r: Setup)
        ensures
            r.bash@ == self.how().bash@,
            env_views(r.env@) == env_views(self.how().env@),
            r.workspace == self.how().workspace,
            r.debug == self.how().debug,
    {
        self.setup.clone()
    }

    /// What the closure answers `turn` with.
    pub fn answer(&mut self, turn: &Turn) -> (r: Result<Reply, RigError>)
        requires
            call_requires(old(self).answerer(), (turn,)),
        ensures
            call_ensures(old(self).answerer(), (turn,), r),
            final(self).how() == old(self).how(),
    {
        (self.answer)(turn)
    }
}

} // verus!
