//! The one way out of a run: what was being attempted, and what went wrong
//! doing it.

use vstd::prelude::*;

verus! {

/// What was being attempted, and what went wrong doing it.
#[derive(Clone, Debug)]
pub struct RigError {
    doing: String,
    cause: String,
}

impl RigError {
    pub fn new(doing: String, cause: String) -> (r: Self)
        ensures
            r.spec_doing() == doing@,
            r.spec_cause() == cause@,
    {
        Self { doing, cause }
    }

    pub closed spec fn spec_doing(&self) -> Seq<char> {
        self.doing@
    }

    pub closed spec fn spec_cause(&self) -> Seq<char> {
        self.cause@
    }

    /// `doing: cause`.
    pub fn to_string(&self) -> (s: String)
        ensures
            s@ == self.spec_doing() + ": "@ + self.spec_cause(),
    {
        let mut s = self.doing.clone();
        crate::text::push_str(&mut s, ": ");
        crate::text::push_str(&mut s, self.cause.as_str());
        s
    }
}

/// Says what a failure was in aid of, and turns its cause into a
/// [`RigError`].
pub trait Doing<T>: Sized {
    fn doing(self, what: String) -> (r: Result<T, RigError>);
}

impl<T> Doing<T> for Result<T, String> {
    fn doing(self, what: String) -> (r: Result<T, RigError>)
        ensures
            match self {
                Ok(v) => r == Ok::<T, RigError>(v),
                Err(cause) => r matches Err(e) && e.spec_doing() == what@ && e.spec_cause() == cause@,
            },
    {
        match self {
            Ok(v) => Ok(v),
            Err(cause) => Err(RigError::new(what, cause)),
        }
    }
}

} // verus!
