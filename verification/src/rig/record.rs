//! The message layer of a single-pipe run.
//!
//! A message is one bash array literal — `('tag' 'arg' …)` — which bash
//! reconstructs with `declare -a`. The same shape travels in both
//! directions, and an element may itself be an array literal, so structure
//! survives the trip without sentinels.

use vstd::prelude::*;

pub use super::wire::{Micros, Pid};
use crate::quoting::{array_form, array_words, emit_array, parse_array};
use crate::text::{has_char, views};

verus! {

/// Rig-owned provenance, stamped by the sending shell.
#[derive(Copy, Clone, PartialEq, Eq, Debug, Structural)]
pub struct Stamp {
    pub at: Micros,
    pub pid: Pid,
    pub seq: u32,
}

/// The order a capture is read in: by clock, then pid, then sequence.
pub open spec fn stamp_before(a: Stamp, b: Stamp) -> bool {
    ||| a.at.0 < b.at.0
    ||| a.at.0 == b.at.0 && a.pid.0 < b.pid.0
    ||| a.at.0 == b.at.0 && a.pid.0 == b.pid.0 && a.seq < b.seq
}

impl Stamp {
    pub(crate) fn order(&self) -> (r: (Micros, Pid, u32))
        ensures
            r == (self.at, self.pid, self.seq),
    {
        (self.at, self.pid, self.seq)
    }

    /// Whether `self` comes strictly before `other` in a capture's order.
    pub fn before(&self, other: &Stamp) -> (r: bool)
        ensures
            r == stamp_before(*self, *other),
    {
        self.at.0 < other.at.0 || (self.at.0 == other.at.0 && self.pid.0 < other.pid.0) || (
        self.at.0 == other.at.0 && self.pid.0 == other.pid.0 && self.seq < other.seq)
    }
}

/// Tool-owned payload. `args` is opaque to the rig.
#[derive(Clone, PartialEq, Eq, Debug)]
pub struct Record {
    pub tag: String,
    pub args: Vec<String>,
}

impl View for Record {
    type V = (Seq<char>, Seq<Seq<char>>);

    open spec fn view(&self) -> (Seq<char>, Seq<Seq<char>>) {
        (self.tag@, views(self.args@))
    }
}

/// What went wrong reading the wire.
#[derive(Clone, PartialEq, Eq, Debug)]
pub enum WireError {
    Shape(String),
    Message(String),
}

impl WireError {
    /// How the error reads.
    pub fn to_string(&self) -> (s: String)
        ensures
            s@ == match self {
                WireError::Shape(what) => "malformed frame: "@ + what@,
                WireError::Message(what) => "malformed message: "@ + what@,
            },
    {
        match self {
            WireError::Shape(what) => {
                let mut s = crate::text::owned("malformed frame: ");
                crate::text::push_str(&mut s, what.as_str());
                s
            },
            WireError::Message(what) => {
                let mut s = crate::text::owned("malformed message: ");
                crate::text::push_str(&mut s, what.as_str());
                s
            },
        }
    }
}

/// What a message literal reads as: its first word the tag, the rest the
/// arguments. An empty literal is no message.
pub open spec fn record_of(literal: Seq<char>) -> Option<(Seq<char>, Seq<Seq<char>>)> {
    match array_words(literal) {
        Some(w) => if w.len() > 0 {
            Some((w[0], w.skip(1)))
        } else {
            None
        },
        None => None,
    }
}

impl Record {
    pub fn new(tag: String, args: Vec<String>) -> (r: Self)
        ensures
            r@ == (tag@, views(args@)),
    {
        Self { tag, args }
    }

    /// Value of the first `key value` pair with this key.
    pub fn field(&self, key: &str) -> (r: Option<&str>)
        ensures
            match r {
                Some(v) => super::wire::message::field_of(self@.1, key@) == Some(v@),
                None => super::wire::message::field_of(self@.1, key@) is None,
            },
    {
        super::wire::field(self.args.as_slice(), key)
    }

    /// Reads one message literal.
    pub fn parse_message(literal: &str) -> (r: Result<Self, WireError>)
        ensures
            match r {
                Ok(record) => record_of(literal@) == Some(record@),
                Err(e) => record_of(literal@) is None && (e matches WireError::Message(why) && why@
                    == if array_words(literal@) is None {
                    "not an array literal"@
                } else {
                    "empty message"@
                }),
            },
    {
        let words = match parse_array(literal) {
            Ok(words) => words,
            Err(_) => return Err(WireError::Message(crate::text::owned("not an array literal"))),
        };
        if words.len() == 0 {
            return Err(WireError::Message(crate::text::owned("empty message")));
        }
        let ghost all = views(words@);
        let mut words = words;
        let args = words.split_off(1);
        assert(views(args@) =~= all.skip(1));
        let tag = match words.pop() {
            Some(tag) => tag,
            None => return Err(WireError::Message(crate::text::owned("empty message"))),
        };
        assert(tag@ == all[0]);
        Ok(Self { tag, args })
    }

    /// Tag first, then the arguments — the message as a flat word list.
    pub fn words(&self) -> (r: Vec<String>)
        ensures
            views(r@) == seq![self@.0] + self@.1,
    {
        let mut r: Vec<String> = Vec::new();
        r.push(self.tag.clone());
        let mut i: usize = 0;
        while i < self.args.len()
            invariant
                0 <= i <= self.args@.len(),
                views(r@) == seq![self.tag@] + views(self.args@).take(i as int),
            decreases self.args@.len() - i,
        {
            let ghost before = views(r@);
            r.push(self.args[i].clone());
            assert(views(r@) == before.push(self.args@[i as int]@));
            i = i + 1;
            assert(views(self.args@).take(i as int) == views(self.args@).take(i - 1).push(
                self.args@[i - 1]@,
            ));
        }
        assert(views(self.args@).take(i as int) == views(self.args@));
        r
    }

    /// The message as one line: the array literal of its words, which
    /// `parse_message` reads back as this record.
    pub fn to_message(&self) -> (s: String)
        ensures
            s@ == array_form(seq![self@.0] + self@.1),
            record_of(s@) == Some(self@),
            !has_char(s@, '\n'),
    {
        let words = self.words();
        let s = emit_array(words.as_slice());
        assert((seq![self@.0] + self@.1).skip(1) =~= self@.1);
        s
    }
}

/// A value with the provenance it arrived under.
#[derive(Debug)]
pub struct Stamped<T> {
    pub stamp: Stamp,
    pub value: T,
}

impl<T: View> View for Stamped<T> {
    type V = (Stamp, T::V);

    open spec fn view(&self) -> (Stamp, T::V) {
        (self.stamp, self.value@)
    }
}

/// One record off the wire, with its stamp.
pub type Line = Stamped<Record>;

/// Typed decode of one record family. A tool states its family once, in
/// its decoder, instead of at every filter site: a record of another family
/// is declined (`None`); one of this family decodes or says why not.
pub trait FromRecord: Sized {
    type Err;

    /// Whether a record is of this family.
    spec fn claims(record: (Seq<char>, Seq<Seq<char>>)) -> bool;

    /// Whether `value` is what a record of this family decodes to.
    spec fn decodes_to(record: (Seq<char>, Seq<Seq<char>>), value: Result<Self, Self::Err>) -> bool;

    fn from_record(record: &Record) -> (r: Option<Result<Self, Self::Err>>)
        ensures
            r is Some <==> Self::claims(record@),
            r matches Some(value) ==> Self::decodes_to(record@, value),
    ;
}

} // verus!
