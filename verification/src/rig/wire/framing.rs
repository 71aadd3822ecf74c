//! Bytes in, whole messages out.
//!
//! A frame on the up pipe is `<marker> <pid> <seq> <chunk>` and a delimiter.
//! The header carries only what reassembly needs: whether more chunks
//! follow, and the key they share. Everything else about a message is inside
//! it, and is not read until the message is whole.

use std::collections::HashMap;

use vstd::prelude::*;
use vstd::utf8::{decode_utf8, valid_utf8};

use super::message::{at_header, read_at, rest_of, Micros, Pid};
use crate::digits::{ascii_chars, u32_of, unsigned};
use crate::failure::Failure;
use crate::quoting::{array_words, parse_array};
use crate::text::{first_byte, lemma_first_byte_bound, views};

verus! {

broadcast use vstd::std_specs::hash::group_hash_axioms;

pub const DELIMITER: u8 = 10u8;

/// How long one frame may be before a message is cut into several: the
/// bash side's `__BC__limit`, kept under `PIPE_BUF` so frames from many
/// writers never interleave.
pub const FRAME_LIMIT: usize = 3800;

/// What a message is, as the protocol's first word says.
#[derive(Copy, Clone, PartialEq, Eq, Debug, Structural)]
pub enum Kind {
    /// A shell's account of itself, the first thing it sends.
    Join,
    Say,
    Ask,
}

/// Who sent a message, and when, as the protocol's headers say.
#[derive(Copy, Clone, PartialEq, Eq, Debug, Structural)]
pub struct Sent {
    pub pid: Pid,
    /// `$PPID`'s emitting shell: the one this shell was forked from.
    pub parent: Pid,
    pub shlvl: u32,
    pub seq: u32,
    /// The sending shell's `$EPOCHREALTIME`.
    pub sent_at: Micros,
    /// The run's clock at the read that completed the message.
    pub heard_at: Micros,
}

/// One whole message off the pipe: what kind, who sent it, and the words the
/// client wrote.
#[derive(Debug)]
pub struct Line {
    pub kind: Kind,
    pub sent: Sent,
    pub words: Vec<String>,
}

impl View for Line {
    type V = (Kind, Sent, Seq<Seq<char>>);

    open spec fn view(&self) -> (Kind, Sent, Seq<Seq<char>>) {
        (self.kind, self.sent, views(self.words@))
    }
}

/// The word the protocol writes for each kind of message.
pub open spec fn kind_word(kind: Kind) -> Seq<char> {
    match kind {
        Kind::Join => "JOIN"@,
        Kind::Say => "SAY"@,
        Kind::Ask => "ASK"@,
    }
}

impl Kind {
    /// The word the protocol writes for this kind.
    pub fn marker(&self) -> (r: &'static str)
        ensures
            r@ == kind_word(*self),
    {
        match self {
            Kind::Join => "JOIN",
            Kind::Say => "SAY",
            Kind::Ask => "ASK",
        }
    }
}

pub open spec fn kind_named(w: Seq<char>) -> Option<Kind> {
    if w == seq!['J', 'O', 'I', 'N'] {
        Some(Kind::Join)
    } else if w == seq!['S', 'A', 'Y'] {
        Some(Kind::Say)
    } else if w == seq!['A', 'S', 'K'] {
        Some(Kind::Ask)
    } else {
        None
    }
}

/// A `key=<count>` header.
pub open spec fn count_header(word: Seq<char>, key: Seq<char>) -> Option<u32> {
    if word.len() > key.len() && word.take(key.len() as int) == key && word[key.len() as int]
        == '=' {
        match unsigned(word.skip(key.len() as int + 1), u32::MAX as nat) {
            Some(n) => Some(n as u32),
            None => None,
        }
    } else {
        None
    }
}

pub open spec fn parent_key() -> Seq<char> {
    seq!['p', 'a', 'r', 'e', 'n', 't']
}

pub open spec fn shlvl_key() -> Seq<char> {
    seq!['s', 'h', 'l', 'v', 'l']
}

/// A whole message's text, read: the kind, then `at=`, `parent=` and
/// `shlvl=` headers, then the client's words.
pub open spec fn line_of(pid: Pid, seq: u32, heard_at: Micros, text: Seq<char>) -> Option<
    (Kind, Sent, Seq<Seq<char>>),
> {
    match array_words(text) {
        Some(w) => if w.len() >= 4 {
            match (
                kind_named(w[0]),
                at_header(w[1]),
                count_header(w[2], parent_key()),
                count_header(w[3], shlvl_key()),
            ) {
                (Some(kind), Some(at), Some(parent), Some(shlvl)) => Some(
                    (
                        kind,
                        Sent {
                            pid,
                            parent: Pid(parent),
                            shlvl,
                            seq,
                            sent_at: at,
                            heard_at,
                        },
                        w.skip(4),
                    ),
                ),
                _ => None,
            }
        } else {
            None
        },
        None => None,
    }
}

/// Why a whole message's text does not read.
pub open spec fn line_refusal(text: Seq<char>) -> Seq<char> {
    match array_words(text) {
        None => "not an array literal"@,
        Some(w) => if w.len() < 4 {
            "the message ended early"@
        } else if kind_named(w[0]) is None {
            "not a verb"@
        } else if at_header(w[1]) is None {
            "no at= header"@
        } else if count_header(w[2], parent_key()) is None {
            "no parent= header"@
        } else {
            "no shlvl= header"@
        },
    }
}

/// A decimal field of the header, read as `str::parse` reads text.
pub open spec fn number_field(raw: Seq<u8>) -> Option<u32> {
    match unsigned(ascii_chars(raw), u32::MAX as nat) {
        Some(n) => Some(n as u32),
        None => None,
    }
}

/// A frame's header and the chunk behind it: the continuation marker (`+`
/// more follow, `.` the last), the pid, the sequence number. The first three
/// fields end at a space; the chunk is everything after the third.
pub open spec fn header_of(raw: Seq<u8>) -> Option<(bool, u32, u32, Seq<u8>)> {
    match first_byte(raw, 32) {
        None => None,
        Some(i) => {
            let marker = raw.take(i);
            let rest1 = raw.skip(i + 1);
            match first_byte(rest1, 32) {
                None => None,
                Some(j) => {
                    let rest2 = rest1.skip(j + 1);
                    match first_byte(rest2, 32) {
                        None => None,
                        Some(l) => {
                            let continues = if marker == seq![43u8] {
                                Some(true)
                            } else if marker == seq![46u8] {
                                Some(false)
                            } else {
                                None
                            };
                            match (
                                continues,
                                number_field(rest1.take(j)),
                                number_field(rest2.take(l)),
                            ) {
                                (Some(c), Some(pid), Some(seq)) => Some(
                                    (c, pid, seq, rest2.skip(l + 1)),
                                ),
                                _ => None,
                            }
                        },
                    }
                },
            }
        },
    }
}

/// The key the chunks of one message share.
pub open spec fn key_of(pid: u32, seq: u32) -> u64 {
    (pid as nat * 0x1_0000_0000 + seq as nat) as u64
}

/// The message so far under `key`.
pub open spec fn so_far(partial: Map<u64, Seq<u8>>, key: u64) -> Seq<u8> {
    if partial.contains_key(key) {
        partial[key]
    } else {
        Seq::empty()
    }
}

/// One frame, taken: the messages left part way afterwards, and either a
/// refusal (`None`), nothing whole yet, or a message completed by it. A
/// completed message leaves the partial map whether or not it reads.
pub open spec fn step(partial: Map<u64, Seq<u8>>, frame: Seq<u8>, heard_at: Micros) -> (
    Map<u64, Seq<u8>>,
    Option<Option<(Kind, Sent, Seq<Seq<char>>)>>,
) {
    match header_of(frame) {
        None => (partial, None),
        Some((continues, pid, seq, chunk)) => {
            let key = key_of(pid, seq);
            let message = so_far(partial, key) + chunk;
            if continues {
                (partial.insert(key, message), Some(None))
            } else {
                let left = partial.remove(key);
                if !valid_utf8(message) {
                    (left, None)
                } else {
                    match line_of(Pid(pid), seq, heard_at, decode_utf8(message)) {
                        Some(line) => (left, Some(Some(line))),
                        None => (left, None),
                    }
                }
            }
        },
    }
}

/// Frames taken in order until one is refused: the partial map afterwards,
/// the messages completed, and whether every frame was taken.
pub open spec fn run(partial: Map<u64, Seq<u8>>, frames: Seq<Seq<u8>>, heard_at: Micros) -> (
    Map<u64, Seq<u8>>,
    Seq<(Kind, Sent, Seq<Seq<char>>)>,
    bool,
)
    decreases frames.len(),
{
    if frames.len() == 0 {
        (partial, Seq::empty(), true)
    } else {
        let (before, lines, ok) = run(partial, frames.drop_last(), heard_at);
        if !ok {
            (before, lines, false)
        } else {
            let (after, outcome) = step(before, frames.last(), heard_at);
            match outcome {
                None => (after, lines, false),
                Some(None) => (after, lines, true),
                Some(Some(line)) => (after, lines.push(line), true),
            }
        }
    }
}

/// The buffer cut at each delimiter: the frames it holds whole, and what is
/// left after the last delimiter.
pub open spec fn frames_of(buf: Seq<u8>) -> (Seq<Seq<u8>>, Seq<u8>)
    decreases buf.len(),
{
    match first_byte(buf, DELIMITER) {
        None => (Seq::empty(), buf),
        Some(i) => {
            proof {
                lemma_first_byte_bound(buf, DELIMITER);
            }
            let (rest, left) = frames_of(buf.skip(i + 1));
            (seq![buf.take(i)] + rest, left)
        },
    }
}


/// Bytes no delimiter has terminated yet, and messages whose last chunk has
/// not arrived, by the `(pid, seq)` their chunks share.
pub struct Reassembly {
    /// Bytes rather than text, because a read boundary falls anywhere,
    /// including inside a character.
    bytes: Vec<u8>,
    /// Bytes for the same reason: the sender cuts a message where the frame
    /// fills, which may be inside a character.
    partial: HashMap<u64, Vec<u8>>,
}

impl Default for Reassembly {
    /// Nothing read yet.
    fn default() -> (r: Self)
        ensures
            r.pending() == Seq::<u8>::empty(),
            r.parts() == Map::<u64, Seq<u8>>::empty(),
    {
        Self::new()
    }
}

impl Reassembly {
    /// The bytes no delimiter has ended yet.
    pub closed spec fn pending(&self) -> Seq<u8> {
        self.bytes@
    }

    /// The messages part way, by the key their chunks share.
    pub closed spec fn parts(&self) -> Map<u64, Seq<u8>> {
        self.partial@.map_values(|v: Vec<u8>| v@)
    }

    pub fn new() -> (r: Self)
        ensures
            r.pending() == Seq::<u8>::empty(),
            r.parts() == Map::<u64, Seq<u8>>::empty(),
    {
        let r = Self { bytes: Vec::new(), partial: HashMap::new() };
        assert(r.parts() =~= Map::<u64, Seq<u8>>::empty());
        r
    }

    /// Everything in one read arrived at one moment, which is the `heard_at`
    /// every message completed by it carries.
    ///
    /// The buffer is cut once, after every frame in it has been found. A
    /// frame that will not read ends the feed: the messages before it have
    /// been taken, and it is the error.
    pub fn feed(&mut self, bytes: &[u8], heard_at: Micros) -> (r: Result<Vec<Line>, Failure>)
        ensures
            ({
                let (frames, left) = frames_of(old(self).pending() + bytes@);
                let (parts, lines, ok) = run(old(self).parts(), frames, heard_at);
                &&& final(self).pending() == left
                &&& final(self).parts() == parts
                &&& match r {
                    Ok(got) => ok && got@.map_values(|l: Line| l@) == lines,
                    Err(_) => !ok,
                }
            }),
    {
        let ghost buf = self.bytes@ + bytes@;
        crate::text::append_bytes(&mut self.bytes, bytes);
        assert(self.bytes@ == buf);

        let total = self.bytes.len();
        assert(total == buf.len());
        let mut framed: Vec<Vec<u8>> = Vec::new();
        let mut cut: usize = 0;
        assert(buf.skip(0) == buf);
        loop
            invariant
                self.bytes@ == buf,
                cut <= buf.len(),
                buf.len() <= usize::MAX,
                framed@.map_values(|f: Vec<u8>| f@) + frames_of(buf.skip(cut as int)).0
                    == frames_of(buf).0,
                frames_of(buf.skip(cut as int)).1 == frames_of(buf).1,
            ensures
                first_byte(buf.skip(cut as int), DELIMITER) is None,
            decreases buf.len() - cut,
        {
            match crate::text::find_byte(self.bytes.as_slice(), cut, DELIMITER) {
                Some(end) => {
                    let ghost here = buf.skip(cut as int);
                    proof {
                        lemma_first_byte_bound(here, DELIMITER);
                    }
                    let frame = crate::text::bytes_of(self.bytes.as_slice(), cut, end);
                    assert(frame@ == here.take(end - cut));
                    assert(here.skip(end - cut + 1) == buf.skip(end + 1));
                    let ghost before = framed@.map_values(|f: Vec<u8>| f@);
                    framed.push(frame);
                    assert(framed@.map_values(|f: Vec<u8>| f@) == before.push(here.take(end - cut)));
                    assert(before.push(here.take(end - cut)) + frames_of(buf.skip(end + 1)).0
                        == before + frames_of(here).0);
                    cut = end + 1;
                },
                None => {
                    break;
                },
            }
        }
        let n = self.bytes.len();
        let left = crate::text::bytes_of(self.bytes.as_slice(), cut, n);
        assert(left@ == buf.skip(cut as int));
        assert(frames_of(buf.skip(cut as int)).0.len() == 0);
        assert(framed@.map_values(|f: Vec<u8>| f@) == frames_of(buf).0);
        self.bytes = left;

        let ghost frames = frames_of(buf).0;
        let ghost start = self.parts();
        let mut whole: Vec<Line> = Vec::new();
        let mut i: usize = 0;
        while i < framed.len()
            invariant
                0 <= i <= framed@.len(),
                frames == framed@.map_values(|f: Vec<u8>| f@),
                frames == frames_of(buf).0,
                start == old(self).parts(),
                buf == old(self).pending() + bytes@,
                self.bytes@ == frames_of(buf).1,
                run(start, frames.take(i as int), heard_at) == (
                    self.parts(),
                    whole@.map_values(|l: Line| l@),
                    true,
                ),
            decreases framed@.len() - i,
        {
            assert(frames.take(i + 1).drop_last() == frames.take(i as int));
            assert(frames.take(i + 1).last() == framed@[i as int]@);
            match self.accept(framed[i].as_slice(), heard_at) {
                Ok(Some(line)) => {
                    let ghost before = whole@.map_values(|l: Line| l@);
                    whole.push(line);
                    assert(whole@.map_values(|l: Line| l@) == before.push(line@));
                },
                Ok(None) => {},
                Err(why) => {
                    proof {
                        let prior = run(start, frames.take(i as int), heard_at);
                        assert(run(start, frames.take(i + 1), heard_at) == (
                            self.parts(),
                            prior.1,
                            false,
                        ));
                        lemma_run_stops(start, frames, (i + 1) as int, heard_at);
                    }
                    return Err(why);
                },
            }
            i = i + 1;
        }
        assert(frames.take(i as int) == frames);
        Ok(whole)
    }

    /// One frame in; a `Line` out once it completed a message.
    ///
    /// A message is decoded when its last chunk arrives, never before: the
    /// sender cuts where the frame fills, so a character can span two of
    /// them.
    fn accept(&mut self, framed: &[u8], heard_at: Micros) -> (r: Result<Option<Line>, Failure>)
        ensures
            ({
                let (after, outcome) = step(old(self).parts(), framed@, heard_at);
                &&& final(self).parts() == after
                &&& final(self).pending() == old(self).pending()
                &&& match r {
                    Ok(Some(line)) => outcome == Some(Some(line@)),
                    Ok(None) => outcome == Some(None::<(Kind, Sent, Seq<Seq<char>>)>),
                    Err(_) => outcome is None,
                }
            }),
    {
        let (continues, pid, seq, from) = match read_header(framed) {
            Some(header) => header,
            None => {
                return Err(
                    Failure::new(
                        crate::text::owned("reading a frame"),
                        crate::text::owned("its header will not read"),
                    ),
                )
            },
        };
        let key: u64 = (pid as u64) * 0x1_0000_0000 + seq as u64;
        assert(key == key_of(pid, seq));
        let ghost parts = self.parts();
        let mut message: Vec<u8> = match self.partial.remove(&key) {
            Some(message) => message,
            None => Vec::new(),
        };
        assert(message@ == so_far(parts, key));
        let n = framed.len();
        let chunk = crate::text::bytes_of(framed, from, n);
        crate::text::append_bytes(&mut message, chunk.as_slice());
        assert(self.parts() =~= parts.remove(key));
        if continues {
            let ghost m = message@;
            self.partial.insert(key, message);
            assert(self.parts() =~= parts.insert(key, m));
            return Ok(None);
        }
        let text = match crate::text::utf8_text(message) {
            Some(text) => text,
            None => {
                return Err(
                    Failure::new(
                        crate::text::owned("reading a message as text"),
                        crate::text::owned("it is not UTF-8"),
                    ),
                )
            },
        };
        let line = Line::read(Pid(pid), seq, heard_at, text.as_str());
        match line {
            Ok(line) => Ok(Some(line)),
            Err(why) => Err(why),
        }
    }

    /// Nothing may be left half-read.
    pub fn finish(self) -> (r: Result<(), Failure>)
        ensures
            r is Ok <==> self.pending().len() == 0 && self.parts().dom().len() == 0,
            r matches Err(f) ==> f.spec_doing() == "draining the instrumentation pipe"@ && f.spec_cause() == if self.pending().len()
                > 0 {
                "a frame was cut short: "@ + crate::rig::control::debug_quoted(
                    super::lines::lossy_text(self.pending()),
                )
            } else {
                "a message stopped before its last chunk"@
            },
    {
        if self.bytes.len() != 0 {
            let text = super::lines::lossy(self.bytes.as_slice());
            let mut cause = crate::text::owned("a frame was cut short: ");
            let q = crate::rig::control::quoted(text.as_str());
            crate::text::push_str(&mut cause, q.as_str());
            return Err(Failure::new(crate::text::owned("draining the instrumentation pipe"), cause));
        }
        assert(self.parts().dom() =~= self.partial@.dom());
        if self.partial.len() != 0 {
            return Err(
                Failure::new(
                    crate::text::owned("draining the instrumentation pipe"),
                    crate::text::owned("a message stopped before its last chunk"),
                ),
            );
        }
        Ok(())
    }
}

proof fn lemma_run_stops(
    start: Map<u64, Seq<u8>>,
    frames: Seq<Seq<u8>>,
    k: int,
    heard_at: Micros,
)
    requires
        1 <= k <= frames.len(),
        !run(start, frames.take(k), heard_at).2,
    ensures
        run(start, frames, heard_at) == run(start, frames.take(k), heard_at),
    decreases frames.len() - k,
{
    if k < frames.len() {
        assert(frames.take(k + 1).drop_last() == frames.take(k));
        lemma_run_stops(start, frames, k + 1, heard_at);
    } else {
        assert(frames.take(k) == frames);
    }
}

/// The header of a frame: the marker, the pid and the sequence number, and
/// where the chunk begins.
fn read_header(raw: &[u8]) -> (r: Option<(bool, u32, u32, usize)>)
    ensures
        match r {
            Some((c, pid, seq, from)) => from <= raw@.len() && header_of(raw@) == Some(
                (c, pid, seq, raw@.skip(from as int)),
            ),
            None => header_of(raw@) is None,
        },
{
    assert(raw@.skip(0) == raw@);
    let n = raw.len();
    let i = match crate::text::find_byte(raw, 0, 32) {
        Some(i) => i,
        None => return None,
    };
    let j = match crate::text::find_byte(raw, i + 1, 32) {
        Some(j) => j,
        None => return None,
    };
    assert(raw@.skip(i + 1).skip(j - (i + 1) + 1) == raw@.skip(j + 1));
    let l = match crate::text::find_byte(raw, j + 1, 32) {
        Some(l) => l,
        None => return None,
    };
    assert(raw@.skip(j + 1).skip(l - (j + 1) + 1) == raw@.skip(l + 1));
    let continues = if i == 1 && raw[0] == 43u8 {
        true
    } else if i == 1 && raw[0] == 46u8 {
        false
    } else {
        proof {
            if raw@.take(i as int) == seq![43u8] || raw@.take(i as int) == seq![46u8] {
                assert(raw@.take(i as int).len() == 1);
                assert(raw@.take(i as int)[0] == raw@[0]);
            }
        }
        return None;
    };
    assert(continues ==> raw@.take(i as int) == seq![43u8]);
    assert(!continues ==> raw@.take(i as int) == seq![46u8]);
    let pid_text = crate::digits::ascii_of(crate::text::bytes_of(raw, i + 1, j).as_slice());
    let seq_text = crate::digits::ascii_of(crate::text::bytes_of(raw, j + 1, l).as_slice());
    assert(raw@.subrange(i + 1, j as int) == raw@.skip(i + 1).take(j - (i + 1)));
    assert(raw@.subrange(j + 1, l as int) == raw@.skip(j + 1).take(l - (j + 1)));
    let pid = match crate::digits::parse_u32(pid_text.as_slice()) {
        Some(pid) => pid,
        None => return None,
    };
    let seq = match crate::digits::parse_u32(seq_text.as_slice()) {
        Some(seq) => seq,
        None => return None,
    };
    Some((continues, pid, seq, l + 1))
}

/// A `key=<count>` header word.
fn read_count(word: &str, key: &str) -> (r: Option<u32>)
    ensures
        r == count_header(word@, key@),
{
    let cs = crate::text::chars_of(word);
    let ks = crate::text::chars_of(key);
    let n = cs.len();
    let m = ks.len();
    if n <= m {
        return None;
    }
    let mut i: usize = 0;
    while i < m
        invariant
            0 <= i <= m,
            m < n,
            m == ks@.len(),
            n == cs@.len(),
            cs@ == word@,
            ks@ == key@,
            forall|j: int| 0 <= j < i ==> cs@[j] == ks@[j],
        decreases m - i,
    {
        if cs[i] != ks[i] {
            assert(cs@.take(m as int)[i as int] != ks@[i as int]);
            assert(cs@.take(m as int) != ks@);
            return None;
        }
        i = i + 1;
    }
    assert(cs@.take(m as int) =~= ks@);
    if cs[m] != '=' {
        return None;
    }
    let value = crate::text::slice_of(cs.as_slice(), m + 1, n);
    assert(value@ == cs@.skip(m + 1));
    crate::digits::parse_u32(value.as_slice())
}

impl Line {
    /// A whole message: the protocol's words off the front — the kind, the
    /// clock, the parent and the level — leaving what the shell wrote.
    pub fn read(pid: Pid, seq: u32, heard_at: Micros, text: &str) -> (r: Result<Self, Failure>)
        ensures
            match r {
                Ok(line) => {
                    &&& line_of(pid, seq, heard_at, text@) == Some(line@)
                    &&& array_words(text@) matches Some(w) && w.len() >= 4
                        && w[2].take(7) == "parent="@ && u32_of(w[2].skip(7)) == Some(line.sent.parent.0)
                        && w[3].take(6) == "shlvl="@ && u32_of(w[3].skip(6)) == Some(line.sent.shlvl)
                },
                Err(f) => line_of(pid, seq, heard_at, text@) is None && f.spec_doing() == "reading the message "@
                    + text@ && f.spec_cause() == line_refusal(text@),
            },
    {
        let mut doing = crate::text::owned("reading the message ");
        crate::text::push_str(&mut doing, text);
        let words = match parse_array(text) {
            Ok(words) => words,
            Err(_) => return Err(Failure::new(doing, crate::text::owned("not an array literal"))),
        };
        if words.len() < 4 {
            return Err(Failure::new(doing, crate::text::owned("the message ended early")));
        }
        let kind = match read_kind(words[0].as_str()) {
            Some(kind) => kind,
            None => return Err(Failure::new(doing, crate::text::owned("not a verb"))),
        };
        let sent_at = match read_at(words[1].as_str()) {
            Some(at) => at,
            None => return Err(Failure::new(doing, crate::text::owned("no at= header"))),
        };
        proof {
            reveal_strlit("parent");
            reveal_strlit("shlvl");
            assert("parent"@ =~= parent_key());
            assert("shlvl"@ =~= shlvl_key());
        }
        let parent = match read_count(words[2].as_str(), "parent") {
            Some(parent) => parent,
            None => return Err(Failure::new(doing, crate::text::owned("no parent= header"))),
        };
        let shlvl = match read_count(words[3].as_str(), "shlvl") {
            Some(shlvl) => shlvl,
            None => return Err(Failure::new(doing, crate::text::owned("no shlvl= header"))),
        };
        let words = rest_of(words, 4);
        let line = Self {
            kind,
            sent: Sent { pid, parent: Pid(parent), shlvl, seq, sent_at, heard_at },
            words,
        };
        proof {
            lemma_line_reads_its_headers(pid, seq, heard_at, text@);
        }
        Ok(line)
    }
}

fn read_kind(word: &str) -> (r: Option<Kind>)
    ensures
        r == kind_named(word@),
{
    proof {
        reveal_strlit("JOIN");
        reveal_strlit("SAY");
        reveal_strlit("ASK");
        assert("JOIN"@ =~= seq!['J', 'O', 'I', 'N']);
        assert("SAY"@ =~= seq!['S', 'A', 'Y']);
        assert("ASK"@ =~= seq!['A', 'S', 'K']);
    }
    if crate::text::same(word, "JOIN") {
        Some(Kind::Join)
    } else if crate::text::same(word, "SAY") {
        Some(Kind::Say)
    } else if crate::text::same(word, "ASK") {
        Some(Kind::Ask)
    } else {
        None
    }
}

proof fn lemma_first_byte_before(s: Seq<u8>, b: u8)
    ensures
        first_byte(s, b) matches Some(i) ==> forall|j: int| 0 <= j < i ==> s[j] != b,
    decreases s.len(),
{
    lemma_first_byte_bound(s, b);
    if s.len() > 0 && s[0] != b {
        lemma_first_byte_before(s.drop_first(), b);
        if let Some(i) = first_byte(s, b) {
            assert forall|j: int| 0 <= j < i implies s[j] != b by {
                if j > 0 {
                    assert(s[j] == s.drop_first()[j - 1]);
                }
            }
        }
    }
}

/// Where a read ends does not change the frames: cutting `a` and then what
/// it left followed by `b` gives the frames, and the rest, that cutting
/// `a + b` at once gives.
pub proof fn lemma_frames_any_boundary(a: Seq<u8>, b: Seq<u8>)
    ensures
        ({
            let (f1, l1) = frames_of(a);
            let (f2, l2) = frames_of(l1 + b);
            frames_of(a + b) == (f1 + f2, l2)
        }),
    decreases a.len(),
{
    lemma_first_byte_bound(a, DELIMITER);
    lemma_first_byte_before(a, DELIMITER);
    match first_byte(a, DELIMITER) {
        None => {
            let (f2, l2) = frames_of(a + b);
            assert(Seq::<Seq<u8>>::empty() + f2 =~= f2);
        },
        Some(i) => {
            crate::text::lemma_first_byte(a + b, DELIMITER, i);
            let tail = a.skip(i + 1);
            lemma_frames_any_boundary(tail, b);
            assert((a + b).skip(i + 1) =~= tail + b);
            assert((a + b).take(i) =~= a.take(i));
            let (rest, l1) = frames_of(tail);
            let (f2, l2) = frames_of(l1 + b);
            assert(seq![a.take(i)] + (rest + f2) =~= (seq![a.take(i)] + rest) + f2);
        },
    }
}

/// Taking frames in two runs is taking them in one: the second starts from
/// what the first left part way, and a refusal in the first ends both.
proof fn lemma_run_split(partial: Map<u64, Seq<u8>>, f1: Seq<Seq<u8>>, f2: Seq<Seq<u8>>, heard_at: Micros)
    ensures
        ({
            let (p1, ls1, ok1) = run(partial, f1, heard_at);
            let (p2, ls2, ok2) = run(p1, f2, heard_at);
            ok1 ==> run(partial, f1 + f2, heard_at) == (p2, ls1 + ls2, ok2)
        }),
    decreases f2.len(),
{
    if f2.len() == 0 {
        assert(f1 + f2 =~= f1);
        let (p1, ls1, ok1) = run(partial, f1, heard_at);
        assert(ls1 + Seq::<(Kind, Sent, Seq<Seq<char>>)>::empty() =~= ls1);
    } else {
        lemma_run_split(partial, f1, f2.drop_last(), heard_at);
        assert((f1 + f2).drop_last() =~= f1 + f2.drop_last());
        assert((f1 + f2).last() == f2.last());
        let (p1, ls1, ok1) = run(partial, f1, heard_at);
        let (q, ls2, ok2) = run(p1, f2.drop_last(), heard_at);
        let (after, outcome) = step(q, f2.last(), heard_at);
        if let Some(Some(line)) = outcome {
            assert(ls1 + ls2.push(line) =~= (ls1 + ls2).push(line));
        }
    }
}

/// A message survives any read boundary: what two reads of `a` then `b`
/// give — the lines, the messages left part way, and the bytes left over —
/// is what one read of `a + b` gives, as long as the first read was taken
/// whole.
pub proof fn lemma_any_read_boundary(
    pending: Seq<u8>,
    partial: Map<u64, Seq<u8>>,
    a: Seq<u8>,
    b: Seq<u8>,
    heard_at: Micros,
)
    ensures
        ({
            let (f1, l1) = frames_of(pending + a);
            let (p1, ls1, ok1) = run(partial, f1, heard_at);
            let (f2, l2) = frames_of(l1 + b);
            let (p2, ls2, ok2) = run(p1, f2, heard_at);
            let (f, l) = frames_of(pending + a + b);
            let (p, ls, ok) = run(partial, f, heard_at);
            ok1 ==> l2 == l && p2 == p && ls1 + ls2 == ls && ok2 == ok
        }),
{
    lemma_frames_any_boundary(pending + a, b);
    let (f1, l1) = frames_of(pending + a);
    let (f2, l2) = frames_of(l1 + b);
    lemma_run_split(partial, f1, f2, heard_at);
}

/// What a cut leaves over holds no delimiter: every feed leaves its bytes
/// in that state.
pub proof fn lemma_left_has_no_delimiter(buf: Seq<u8>)
    ensures
        first_byte(frames_of(buf).1, DELIMITER) is None,
    decreases buf.len(),
{
    lemma_first_byte_bound(buf, DELIMITER);
    if let Some(i) = first_byte(buf, DELIMITER) {
        lemma_left_has_no_delimiter(buf.skip(i + 1));
    }
}

/// One read of `bytes` after `pending`, with `partial` part way: the bytes
/// left over, the messages left part way, the lines completed, and whether
/// every frame was taken — what [`Reassembly::feed`] does with a read.
pub open spec fn fed_once(pending: Seq<u8>, partial: Map<u64, Seq<u8>>, bytes: Seq<u8>, heard_at: Micros) -> (
    Seq<u8>,
    Map<u64, Seq<u8>>,
    Seq<(Kind, Sent, Seq<Seq<char>>)>,
    bool,
) {
    let (frames, left) = frames_of(pending + bytes);
    let (parts, lines, ok) = run(partial, frames, heard_at);
    (left, parts, lines, ok)
}

/// The reads, one after another, each fed as [`fed_once`] feeds it; the
/// first refused read ends the feeding.
pub open spec fn fed_in_reads(
    pending: Seq<u8>,
    partial: Map<u64, Seq<u8>>,
    reads: Seq<Seq<u8>>,
    heard_at: Micros,
) -> (Seq<u8>, Map<u64, Seq<u8>>, Seq<(Kind, Sent, Seq<Seq<char>>)>, bool)
    decreases reads.len(),
{
    if reads.len() == 0 {
        (pending, partial, Seq::empty(), true)
    } else {
        let (left, parts, lines, ok) = fed_in_reads(pending, partial, reads.drop_last(), heard_at);
        if !ok {
            (left, parts, lines, false)
        } else {
            let (l2, p2, ls2, ok2) = fed_once(left, parts, reads.last(), heard_at);
            (l2, p2, lines + ls2, ok2)
        }
    }
}

/// The reads' bytes, one after another.
pub open spec fn read_bytes(reads: Seq<Seq<u8>>) -> Seq<u8>
    decreases reads.len(),
{
    if reads.len() == 0 {
        Seq::empty()
    } else {
        read_bytes(reads.drop_last()) + reads.last()
    }
}

/// A message survives any read boundaries, however many: from bytes held
/// back with no delimiter in them — as every feed leaves them — feeding the
/// reads one after another, where each is taken whole, gives the lines, the
/// messages left part way and the bytes left over that feeding all their
/// bytes at once gives.
pub proof fn lemma_any_read_boundaries(
    pending: Seq<u8>,
    partial: Map<u64, Seq<u8>>,
    reads: Seq<Seq<u8>>,
    heard_at: Micros,
)
    requires
        first_byte(pending, DELIMITER) is None,
    ensures
        fed_in_reads(pending, partial, reads, heard_at).3 ==> fed_once(pending, partial, read_bytes(reads), heard_at)
            == fed_in_reads(pending, partial, reads, heard_at),
    decreases reads.len(),
{
    if reads.len() == 0 {
        assert(pending + Seq::<u8>::empty() =~= pending);
        assert(Seq::<(Kind, Sent, Seq<Seq<char>>)>::empty() + Seq::<(Kind, Sent, Seq<Seq<char>>)>::empty()
            =~= Seq::<(Kind, Sent, Seq<Seq<char>>)>::empty());
    } else {
        let rest = reads.drop_last();
        let b = reads.last();
        lemma_any_read_boundaries(pending, partial, rest, heard_at);
        let a = read_bytes(rest);
        if fed_in_reads(pending, partial, rest, heard_at).3 {
            lemma_any_read_boundary(pending, partial, a, b, heard_at);
            assert(pending + a + b =~= pending + (a + b));
        }
    }
}

/// Frames a refusal has stopped stay refused, whatever frames follow.
proof fn lemma_run_refused_stays(partial: Map<u64, Seq<u8>>, f1: Seq<Seq<u8>>, f2: Seq<Seq<u8>>, heard_at: Micros)
    requires
        !run(partial, f1, heard_at).2,
    ensures
        !run(partial, f1 + f2, heard_at).2,
    decreases f2.len(),
{
    if f2.len() == 0 {
        assert(f1 + f2 =~= f1);
    } else {
        lemma_run_refused_stays(partial, f1, f2.drop_last(), heard_at);
        assert((f1 + f2).drop_last() =~= f1 + f2.drop_last());
    }
}

/// Cutting bytes into reads changes nothing at all: the reads are taken
/// whole exactly when all the bytes at once are, and then they leave what
/// one read leaves — the same lines in the same order, the same messages
/// part way and the same bytes held back, so finishing succeeds after the
/// reads exactly when it does after the one read.
pub proof fn lemma_read_boundaries_change_nothing(
    pending: Seq<u8>,
    partial: Map<u64, Seq<u8>>,
    reads: Seq<Seq<u8>>,
    heard_at: Micros,
)
    requires
        first_byte(pending, DELIMITER) is None,
    ensures
        fed_in_reads(pending, partial, reads, heard_at).3 == fed_once(pending, partial, read_bytes(reads), heard_at).3,
        fed_once(pending, partial, read_bytes(reads), heard_at).3 ==> fed_in_reads(pending, partial, reads, heard_at)
            == fed_once(pending, partial, read_bytes(reads), heard_at),
    decreases reads.len(),
{
    lemma_any_read_boundaries(pending, partial, reads, heard_at);
    if reads.len() > 0 {
        let rest = reads.drop_last();
        let b = reads.last();
        let a = read_bytes(rest);
        lemma_read_boundaries_change_nothing(pending, partial, rest, heard_at);
        assert(pending + a + b =~= pending + (a + b));
        assert(read_bytes(reads) == a + b);
        if fed_once(pending, partial, a, heard_at).3 {
            lemma_any_read_boundary(pending, partial, a, b, heard_at);
        } else {
            lemma_frames_any_boundary(pending + a, b);
            let (f1, l1) = frames_of(pending + a);
            let (f2, l2) = frames_of(l1 + b);
            lemma_run_refused_stays(partial, f1, f2, heard_at);
            assert(pending + a + b =~= pending + (a + b));
        }
    }
}

/// What a whole message reads as, said from its words: the kind is the
/// first word, the sender's clock the `at=` header, the parent the number
/// after `parent=` in the third word, the level the number after `shlvl=`
/// in the fourth, the pid and sequence those of the frame, and the client's
/// words all that follow.
pub proof fn lemma_line_reads_its_headers(pid: Pid, seq: u32, heard_at: Micros, text: Seq<char>)
    ensures
        match (line_of(pid, seq, heard_at, text), array_words(text)) {
            (Some(l), Some(w)) => {
                &&& w.len() >= 4
                &&& kind_named(w[0]) == Some(l.0)
                &&& at_header(w[1]) == Some(l.1.sent_at)
                &&& w[2].len() > 7 && w[2].take(7) == "parent="@ && u32_of(w[2].skip(7)) == Some(l.1.parent.0)
                &&& w[3].len() > 6 && w[3].take(6) == "shlvl="@ && u32_of(w[3].skip(6)) == Some(l.1.shlvl)
                &&& l.1.pid == pid && l.1.seq == seq && l.1.heard_at == heard_at
                &&& l.2 == w.skip(4)
            },
            (Some(_), None) => false,
            _ => true,
        },
{
    reveal_strlit("parent=");
    reveal_strlit("shlvl=");
    if let (Some(l), Some(w)) = (line_of(pid, seq, heard_at, text), array_words(text)) {
        let p = parent_key();
        let k = shlvl_key();
        assert(w[2].take(6) == p && w[2][6] == '=');
        assert(w[2].take(7) =~= "parent="@);
        assert(w[3].take(5) == k && w[3][5] == '=');
        assert(w[3].take(6) =~= "shlvl="@);
    }
}

} // verus!
