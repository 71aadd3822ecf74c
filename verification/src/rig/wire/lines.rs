//! A fifo's bytes, cut at newlines. Bytes out; what a line means is the
//! reader's. The reading itself belongs to whoever holds the fifo: this is
//! what it does with each read.

use vstd::prelude::*;

use super::framing::{frames_of, DELIMITER};
use super::message::{Heard, Micros};
use crate::failure::Failure;
use crate::text::{first_byte, lemma_first_byte_bound};

verus! {

/// `String::from_utf8_lossy`: the text the bytes encode, each invalid
/// sequence read as U+FFFD.
pub uninterp spec fn lossy_text(bytes: Seq<u8>) -> Seq<char>;

/// `String::from_utf8_lossy`, owned.
#[verifier::external_body]
pub(crate) fn lossy(bytes: &[u8]) -> (r: String)
    ensures
        r@ == lossy_text(bytes@),
{
    String::from_utf8_lossy(bytes).into_owned()
}

/// One line, without its newline, and the run's clock at the read that
/// completed it.
#[derive(Debug)]
pub struct Raw {
    pub bytes: Vec<u8>,
    pub heard_at: Micros,
}

/// A line's bytes as the text a message is read from: each invalid
/// sequence read as U+FFFD.
pub fn heard(raw: Raw) -> (r: Heard)
    ensures
        r.text@ == lossy_text(raw.bytes@),
        r.heard_at == raw.heard_at,
{
    Heard { text: lossy(raw.bytes.as_slice()), heard_at: raw.heard_at }
}

/// The bytes of a fifo no newline has ended yet.
#[derive(Debug)]
pub struct Cut {
    bytes: Vec<u8>,
}

pub open spec fn raw_views(lines: Seq<Raw>) -> Seq<(Seq<u8>, Micros)> {
    lines.map_values(|l: Raw| (l.bytes@, l.heard_at))
}

/// Lines all read at one moment.
pub open spec fn stamped(lines: Seq<Seq<u8>>, heard_at: Micros) -> Seq<(Seq<u8>, Micros)> {
    lines.map_values(|l: Seq<u8>| (l, heard_at))
}

impl Cut {
    /// What is held, waiting for its newline.
    pub closed spec fn pending(&self) -> Seq<u8> {
        self.bytes@
    }

    pub fn new() -> (r: Self)
        ensures
            r.pending() == Seq::<u8>::empty(),
    {
        Self { bytes: Vec::new() }
    }

    /// Everything one read carried arrived at one moment: each line it
    /// completes, with that moment, and what is left held back.
    pub fn cut(&mut self, bytes: &[u8], heard_at: Micros) -> (r: Vec<Raw>)
        ensures
            ({
                let (lines, left) = frames_of(old(self).pending() + bytes@);
                &&& raw_views(r@) == stamped(lines, heard_at)
                &&& final(self).pending() == left
            }),
    {
        let ghost buf = self.bytes@ + bytes@;
        crate::text::append_bytes(&mut self.bytes, bytes);
        let total = self.bytes.len();
        assert(total == buf.len());
        let mut ready: Vec<Raw> = Vec::new();
        let mut from: usize = 0;
        assert(buf.skip(0) == buf);
        loop
            invariant
                self.bytes@ == buf,
                from <= buf.len(),
                buf.len() <= usize::MAX,
                raw_views(ready@) + stamped(frames_of(buf.skip(from as int)).0, heard_at) == stamped(
                    frames_of(buf).0,
                    heard_at,
                ),
                frames_of(buf.skip(from as int)).1 == frames_of(buf).1,
            ensures
                first_byte(buf.skip(from as int), DELIMITER) is None,
            decreases buf.len() - from,
        {
            match crate::text::find_byte(self.bytes.as_slice(), from, DELIMITER) {
                Some(end) => {
                    let ghost here = buf.skip(from as int);
                    proof {
                        lemma_first_byte_bound(here, DELIMITER);
                    }
                    let line = crate::text::bytes_of(self.bytes.as_slice(), from, end);
                    assert(line@ == here.take(end - from));
                    assert(here.skip(end - from + 1) == buf.skip(end + 1));
                    let ghost before = raw_views(ready@);
                    ready.push(Raw { bytes: line, heard_at });
                    assert(raw_views(ready@) == before.push((here.take(end - from), heard_at)));
                    assert(stamped(frames_of(here).0, heard_at) =~= seq![(here.take(end - from), heard_at)]
                        + stamped(frames_of(buf.skip(end + 1)).0, heard_at));
                    assert(before.push((here.take(end - from), heard_at)) + stamped(
                        frames_of(buf.skip(end + 1)).0,
                        heard_at,
                    ) =~= before + stamped(frames_of(here).0, heard_at));
                    from = end + 1;
                },
                None => {
                    break;
                },
            }
        }
        let n = self.bytes.len();
        let left = crate::text::bytes_of(self.bytes.as_slice(), from, n);
        assert(left@ == buf.skip(from as int));
        assert(frames_of(buf.skip(from as int)).0.len() == 0);
        assert(stamped(frames_of(buf.skip(from as int)).0, heard_at) =~= Seq::<(Seq<u8>, Micros)>::empty());
        assert(raw_views(ready@) =~= stamped(frames_of(buf).0, heard_at));
        self.bytes = left;
        ready
    }

    /// Nothing may be left half-read. `what` names the fifo, as it names
    /// itself in a complaint.
    pub fn finish(self, what: &str) -> (r: Result<(), Failure>)
        ensures
            match r {
                Ok(_) => self.pending().len() == 0,
                Err(f) => self.pending().len() > 0 && f.spec_doing() == "closing "@ + what@
                    && f.spec_cause() == "a line was cut short: "@ + super::super::control::debug_quoted(
                    lossy_text(self.pending()),
                ),
            },
    {
        if self.bytes.len() == 0 {
            return Ok(());
        }
        let text = lossy(self.bytes.as_slice());
        let mut doing = crate::text::owned("closing ");
        crate::text::push_str(&mut doing, what);
        let mut cause = crate::text::owned("a line was cut short: ");
        let q = super::super::control::quoted(text.as_str());
        crate::text::push_str(&mut cause, q.as_str());
        Err(Failure::new(doing, cause))
    }
}

} // verus!
