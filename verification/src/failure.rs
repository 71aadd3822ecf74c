//! One error for anything that stops a piece of work: what was being done,
//! and what went wrong underneath.

use vstd::prelude::*;

verus! {

/// A context and a cause rather than an enum, since every use is to say it.
#[derive(Clone, Debug)]
pub struct Failure {
    doing: String,
    cause: String,
}

impl Failure {
    pub fn new(doing: String, cause: String) -> (f: Self)
        ensures
            f.spec_doing() == doing@,
            f.spec_cause() == cause@,
    {
        Self { doing, cause }
    }

    /// What was being attempted.
    pub closed spec fn spec_doing(&self) -> Seq<char> {
        self.doing@
    }

    /// What went wrong underneath.
    pub closed spec fn spec_cause(&self) -> Seq<char> {
        self.cause@
    }

    pub fn doing(&self) -> (s: &str)
        ensures
            s@ == self.spec_doing(),
    {
        self.doing.as_str()
    }

    pub fn cause(&self) -> (s: &str)
        ensures
            s@ == self.spec_cause(),
    {
        self.cause.as_str()
    }

    /// `doing: cause` — how a failure reads.
    pub fn to_string(&self) -> (s: String)
        ensures
            s@ == self.spec_doing() + seq![':', ' '] + self.spec_cause(),
    {
        let mut s = self.doing.clone();
        crate::text::push_char(&mut s, ':');
        crate::text::push_char(&mut s, ' ');
        crate::text::push_str(&mut s, self.cause.as_str());
        s
    }
}

/// Says what was being attempted when a `Result` went wrong.
pub trait Doing<T>: Sized {
    fn doing(self, what: String) -> (r: Result<T, Failure>);
}

impl<T> Doing<T> for Result<T, String> {
    /// The value where there is one; otherwise a failure in doing `what`,
    /// caused by the error.
    fn doing(self, what: String) -> (r: Result<T, Failure>)
        ensures
            match self {
                Ok(v) => r == Ok::<T, Failure>(v),
                Err(cause) => r matches Err(f) && f.spec_doing() == what@ && f.spec_cause() == cause@,
            },
    {
        match self {
            Ok(v) => Ok(v),
            Err(cause) => Err(Failure::new(what, cause)),
        }
    }
}

} // verus!
