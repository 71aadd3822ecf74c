//! One question, and where to put what a reply refers to.

use vstd::prelude::*;

use crate::digits::decimal;
use crate::rig::record::{Line, Stamp};

verus! {

/// One question a shell asked: the line that asked it, its arguments, and
/// the workspace a step answering it is written into.
pub struct Turn<'a> {
    asked: &'a Line,
    args: &'a [String],
    dir: &'a str,
}

impl<'a> Turn<'a> {
    pub closed spec fn asked(&self) -> (Stamp, (Seq<char>, Seq<Seq<char>>)) {
        self.asked@
    }

    pub closed spec fn arguments(&self) -> Seq<String> {
        self.args@
    }

    pub closed spec fn dir(&self) -> Seq<char> {
        self.dir@
    }

    pub fn new(asked: &'a Line, args: &'a [String], dir: &'a str) -> (r: Self)
        ensures
            r.asked() == asked@,
            r.arguments() == args@,
            r.dir() == dir@,
    {
        Self { asked, args, dir }
    }

    pub fn args(&self) -> (r: &[String])
        ensures
            r@ == self.arguments(),
    {
        self.args
    }

    pub fn stamp(&self) -> (r: Stamp)
        ensures
            r == self.asked().0,
    {
        self.asked.stamp
    }

    /// Where a step answering this question is written:
    /// `<dir>/step.<pid>.<seq>.bash`.
    pub fn step_file(&self) -> (r: String)
        ensures
            r@ == self.dir() + "/step."@ + decimal(self.asked().0.pid.0 as nat) + "."@ + decimal(
                self.asked().0.seq as nat,
            ) + ".bash"@,
    {
        let stamp = self.stamp();
        let mut path = crate::text::owned(self.dir);
        crate::text::push_str(&mut path, "/step.");
        let pid = crate::digits::decimal_text(stamp.pid.0 as u64);
        crate::text::push_str(&mut path, pid.as_str());
        crate::text::push_str(&mut path, ".");
        let seq = crate::digits::decimal_text(stamp.seq as u64);
        crate::text::push_str(&mut path, seq.as_str());
        crate::text::push_str(&mut path, ".bash");
        path
    }
}

} // verus!
