//! Where a shell came from. An ordinary record — the wire has no special
//! cases — written by the wire itself as the preamble to a shell's first
//! utterance.

use vstd::prelude::*;

use crate::digits::u32_of;
use crate::rig::record::{FromRecord, Pid, Record};
use crate::rig::wire::message::field_of;
use crate::text::views;

verus! {

pub const ORIGIN_TAG: &'static str = "__ORIGIN__";

#[derive(PartialEq, Eq, Debug)]
pub struct Origin {
    /// The shell that emitted before this one, which a subshell has and the
    /// first shell of a run does not.
    pub parent: Option<Pid>,
    pub shlvl: u32,
    /// `BASH_SOURCE[-1]`, absent under `bash -c`.
    pub source: Option<String>,
}

pub type OriginView = (Option<Pid>, u32, Option<Seq<char>>);

impl View for Origin {
    type V = OriginView;

    open spec fn view(&self) -> OriginView {
        (
            self.parent,
            self.shlvl,
            match self.source {
                Some(s) => Some(s@),
                None => None,
            },
        )
    }
}

impl Clone for Origin {
    fn clone(&self) -> (r: Self)
        ensures
            r@ == self@,
    {
        let source = match &self.source {
            Some(s) => Some(s.clone()),
            None => None,
        };
        Origin { parent: self.parent, shlvl: self.shlvl, source }
    }
}

/// The pair an origin is missing, or could not read.
#[derive(Clone, PartialEq, Eq, Debug)]
pub struct BadField(pub &'static str);

impl View for BadField {
    type V = Seq<char>;

    open spec fn view(&self) -> Seq<char> {
        self.0@
    }
}

impl BadField {
    /// How the error reads.
    pub fn to_string(&self) -> (s: String)
        ensures
            s@ == "missing or unreadable field "@ + self.0@,
    {
        let mut s = crate::text::owned("missing or unreadable field ");
        crate::text::push_str(&mut s, self.0);
        s
    }
}

/// A pair's value, where it is there and not empty.
pub open spec fn set_field(words: Seq<Seq<char>>, key: Seq<char>) -> Option<Seq<char>> {
    match field_of(words, key) {
        Some(v) => if v.len() > 0 {
            Some(v)
        } else {
            None
        },
        None => None,
    }
}

/// A pair read as a number: `Some(None)` where it is absent or empty,
/// `None` where it is there and does not read.
pub open spec fn count_field(words: Seq<Seq<char>>, key: Seq<char>) -> Option<Option<u32>> {
    match set_field(words, key) {
        Some(v) => match u32_of(v) {
            Some(n) => Some(Some(n)),
            None => None,
        },
        None => Some(None),
    }
}

/// What an origin's pairs read as, or the key that stopped them.
pub open spec fn origin_of(words: Seq<Seq<char>>) -> Result<OriginView, Seq<char>> {
    match count_field(words, "parent"@) {
        None => Err("parent"@),
        Some(parent) => match count_field(words, "shlvl"@) {
            Some(Some(shlvl)) => Ok(
                (
                    match parent {
                        Some(p) => Some(Pid(p)),
                        None => None,
                    },
                    shlvl,
                    set_field(words, "source"@),
                ),
            ),
            _ => Err("shlvl"@),
        },
    }
}

fn set<'a>(words: &'a [String], key: &str) -> (r: Option<&'a str>)
    ensures
        match r {
            Some(v) => set_field(views(words@), key@) == Some(v@),
            None => set_field(views(words@), key@) is None,
        },
{
    match crate::rig::wire::field(words, key) {
        Some(value) => if value.is_empty() {
            None
        } else {
            Some(value)
        },
        None => None,
    }
}

fn number(words: &[String], key: &'static str) -> (r: Result<Option<u32>, BadField>)
    ensures
        match r {
            Ok(n) => count_field(views(words@), key@) == Some(n),
            Err(e) => count_field(views(words@), key@) is None && e@ == key@,
        },
{
    match set(words, key) {
        Some(value) => {
            let cs = crate::text::chars_of(value);
            match crate::digits::parse_u32(cs.as_slice()) {
                Some(n) => Ok(Some(n)),
                None => Err(BadField(key)),
            }
        },
        None => Ok(None),
    }
}

impl Origin {
    /// An origin's pairs, read.
    pub fn decode(words: &[String]) -> (r: Result<Self, BadField>)
        ensures
            match origin_of(views(words@)) {
                Ok(o) => r matches Ok(origin) && origin@ == o,
                Err(key) => r matches Err(e) && e@ == key,
            },
    {
        let parent = number(words, "parent")?;
        let shlvl = match number(words, "shlvl")? {
            Some(n) => n,
            None => return Err(BadField("shlvl")),
        };
        let source = match set(words, "source") {
            Some(s) => Some(crate::text::owned(s)),
            None => None,
        };
        let parent = match parent {
            Some(p) => Some(Pid(p)),
            None => None,
        };
        Ok(Self { parent, shlvl, source })
    }
}

impl FromRecord for Origin {
    type Err = BadField;

    open spec fn claims(record: (Seq<char>, Seq<Seq<char>>)) -> bool {
        record.0 == ORIGIN_TAG@
    }

    open spec fn decodes_to(record: (Seq<char>, Seq<Seq<char>>), value: Result<Origin, BadField>) -> bool {
        match (origin_of(record.1), value) {
            (Ok(o), Ok(origin)) => origin@ == o,
            (Err(key), Err(e)) => e@ == key,
            _ => false,
        }
    }

    fn from_record(record: &Record) -> (r: Option<Result<Self, BadField>>) {
        if crate::text::same(record.tag.as_str(), ORIGIN_TAG) {
            Some(Self::decode(record.args.as_slice()))
        } else {
            None
        }
    }
}

} // verus!
