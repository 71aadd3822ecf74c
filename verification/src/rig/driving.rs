//! What a driven run hands back.

use vstd::prelude::*;

use super::attended::Attended;
use super::status::ExitStatus;
use crate::failure::Failure;
use crate::text::{joined, views};

verus! {

/// What a driven run produced.
///
/// Reaching one means bash was started and seen out. A `Failure` instead
/// means the run never got that far.
#[derive(Debug)]
pub struct Run<K> {
    /// Every shell that joined, in the order they did.
    pub shells: Vec<Attended<K>>,
    /// How bash ended — its own, whether or not anything else went wrong.
    pub subject: ExitStatus,
    /// What went wrong closing up, if anything. After the subject reached
    /// its own end.
    pub failed: Option<Failure>,
}

/// A run that closed cleanly.
#[derive(Debug)]
pub struct Whole<K> {
    pub shells: Vec<Attended<K>>,
    pub subject: ExitStatus,
}

impl<K> Run<K> {
    /// The run with its closing-up discharged.
    pub fn whole(self) -> (r: Result<Whole<K>, Failure>)
        ensures
            match self.failed {
                Some(why) => r == Err::<Whole<K>, Failure>(why),
                None => r == Ok::<Whole<K>, Failure>(Whole { shells: self.shells, subject: self.subject }),
            },
    {
        match self.failed {
            Some(why) => Err(why),
            None => Ok(Whole { shells: self.shells, subject: self.subject }),
        }
    }
}

/// Starting the subject: the command line must name a program, and a
/// failure to spawn it is told as `spawning` and the words, space-separated.
pub fn spawning(said: &[String]) -> (r: Result<String, Failure>)
    ensures
        match r {
            Ok(doing) => said@.len() > 0 && doing@ == "spawning "@ + joined(views(said@), seq![' ']),
            Err(f) => said@.len() == 0 && f.spec_doing() == "starting the subject"@ && f.spec_cause()
                == "the command line is empty"@,
        },
{
    if said.len() == 0 {
        return Err(
            Failure::new(
                crate::text::owned("starting the subject"),
                crate::text::owned("the command line is empty"),
            ),
        );
    }
    let ghost words = views(said@);
    let mut doing = crate::text::owned("spawning ");
    let ghost lead = doing@;
    crate::text::push_str(&mut doing, said[0].as_str());
    assert(words.take(1) =~= seq![words[0]]);
    let mut i: usize = 1;
    while i < said.len()
        invariant
            1 <= i <= said@.len(),
            words == views(said@),
            lead == "spawning "@,
            doing@ == lead + joined(words.take(i as int), seq![' ']),
        decreases said@.len() - i,
    {
        let ghost before = doing@;
        crate::text::push_char(&mut doing, ' ');
        crate::text::push_str(&mut doing, said[i].as_str());
        proof {
            assert(words.take(i + 1).drop_last() =~= words.take(i as int));
            assert(words.take(i + 1).last() == said@[i as int]@);
            assert(doing@ =~= lead + joined(words.take(i + 1), seq![' ']));
        }
        i = i + 1;
    }
    assert(words.take(said@.len() as int) =~= words);
    Ok(doing)
}

/// What a served session produced.
#[derive(Debug)]
pub struct Served<K> {
    /// Every shell that joined, in the order they did.
    pub shells: Vec<Attended<K>>,
    /// What went wrong closing up, if anything.
    pub failed: Option<Failure>,
}

} // verus!
