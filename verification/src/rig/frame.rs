//! The transport layer of a single-pipe run: one line, one frame.
//!
//! ```text
//! <at> <pid> <seq> <marker> <chunk>
//! ```
//!
//! The header sits outside the message because a continuation has to be
//! routed before there is a message to parse — which is the only thing the
//! header is for.

use vstd::prelude::*;

use super::record::{Micros, Pid, Stamp};
use super::wire::message::lenient_epoch;
use crate::digits::u32_of;
use crate::failure::Failure;
use crate::text::first_of;

verus! {

#[derive(Clone, Debug)]
pub struct Frame {
    pub stamp: Stamp,
    /// Further chunks of this message follow, to be rejoined by
    /// `(pid, seq)`.
    pub partial: bool,
    pub chunk: String,
}

/// `+` where more chunks follow, `.` for the last.
pub open spec fn marker_of(m: Seq<char>) -> Option<bool> {
    if m == seq!['+'] {
        Some(true)
    } else if m == seq!['.'] {
        Some(false)
    } else {
        None
    }
}

/// The fields of a frame: the first four end at a space, and the chunk is
/// all that follows the fourth.
pub open spec fn frame_of(raw: Seq<char>) -> Option<(Stamp, bool, Seq<char>)> {
    match first_of(raw, ' ') {
        None => None,
        Some(a) => {
            let r1 = raw.skip(a + 1);
            match first_of(r1, ' ') {
                None => None,
                Some(b) => {
                    let r2 = r1.skip(b + 1);
                    match first_of(r2, ' ') {
                        None => None,
                        Some(c) => {
                            let r3 = r2.skip(c + 1);
                            match first_of(r3, ' ') {
                                None => None,
                                Some(d) => match (
                                    lenient_epoch(raw.take(a)),
                                    u32_of(r1.take(b)),
                                    u32_of(r2.take(c)),
                                    marker_of(r3.take(d)),
                                ) {
                                    (Some(at), Some(pid), Some(seq), Some(partial)) => Some(
                                        (Stamp { at, pid: Pid(pid), seq }, partial, r3.skip(d + 1)),
                                    ),
                                    _ => None,
                                },
                            }
                        },
                    }
                },
            }
        },
    }
}

/// A frame's next field: up to the next space, or all that is left.
pub open spec fn piece(raw: Seq<char>) -> Seq<char> {
    match first_of(raw, ' ') {
        Some(a) => raw.take(a),
        None => raw,
    }
}

/// What follows a frame's next field and its space, if a space ends it.
pub open spec fn after_piece(raw: Seq<char>) -> Option<Seq<char>> {
    match first_of(raw, ' ') {
        Some(a) => Some(raw.skip(a + 1)),
        None => None,
    }
}

/// Why a frame does not read: the first of its fields, in order, that is
/// missing or will not read — and where all four do, that no message
/// follows them.
pub open spec fn frame_refusal(raw: Seq<char>) -> Seq<char> {
    if lenient_epoch(piece(raw)) is None {
        "bad timestamp"@
    } else {
        match after_piece(raw) {
            None => "bad pid"@,
            Some(r1) => if u32_of(piece(r1)) is None {
                "bad pid"@
            } else {
                match after_piece(r1) {
                    None => "bad sequence number"@,
                    Some(r2) => if u32_of(piece(r2)) is None {
                        "bad sequence number"@
                    } else {
                        match after_piece(r2) {
                            None => "bad marker"@,
                            Some(r3) => if marker_of(piece(r3)) is None {
                                "bad marker"@
                            } else {
                                "no message"@
                            },
                        }
                    },
                }
            },
        }
    }
}

/// The field of `cs` that starts at `from`, and where the next one starts.
fn field_at(cs: &[char], from: usize) -> (r: (Vec<char>, Option<usize>))
    requires
        from <= cs@.len(),
    ensures
        r.0@ == piece(cs@.skip(from as int)),
        match r.1 {
            Some(next) => next <= cs@.len() && after_piece(cs@.skip(from as int)) == Some(cs@.skip(next as int)),
            None => after_piece(cs@.skip(from as int)) is None,
        },
{
    let n = cs.len();
    match next_space(cs, from) {
        Some(k) => {
            let field = crate::text::slice_of(cs, from, k);
            assert(field@ =~= cs@.skip(from as int).take(k - from));
            assert(cs@.skip(from as int).skip(k - from + 1) =~= cs@.skip(k + 1));
            (field, Some(k + 1))
        },
        None => {
            let field = crate::text::slice_of(cs, from, n);
            (field, None)
        },
    }
}

/// Why `raw` is refused as a frame.
fn frame_refused(raw: &str) -> (r: String)
    ensures
        r@ == frame_refusal(raw@),
{
    let cs = crate::text::chars_of(raw);
    assert(cs@.skip(0) =~= cs@);
    let (at_text, next) = field_at(cs.as_slice(), 0);
    let at_text = crate::text::string_of(at_text.as_slice());
    if Micros::parse_epoch(at_text.as_str()).is_none() {
        return crate::text::owned("bad timestamp");
    }
    let from = match next {
        Some(k) => k,
        None => return crate::text::owned("bad pid"),
    };
    let (pid_text, next) = field_at(cs.as_slice(), from);
    if crate::digits::parse_u32(pid_text.as_slice()).is_none() {
        return crate::text::owned("bad pid");
    }
    let from = match next {
        Some(k) => k,
        None => return crate::text::owned("bad sequence number"),
    };
    let (seq_text, next) = field_at(cs.as_slice(), from);
    if crate::digits::parse_u32(seq_text.as_slice()).is_none() {
        return crate::text::owned("bad sequence number");
    }
    let from = match next {
        Some(k) => k,
        None => return crate::text::owned("bad marker"),
    };
    let (marker, _) = field_at(cs.as_slice(), from);
    if marker.len() == 1 && (marker[0] == '+' || marker[0] == '.') {
        proof {
            assert(marker@ =~= seq![marker@[0]]);
        }
        crate::text::owned("no message")
    } else {
        proof {
            if marker@ == seq!['+'] || marker@ == seq!['.'] {
                assert(marker@.len() == 1 && marker@[0] == marker[0]);
            }
        }
        crate::text::owned("bad marker")
    }
}

/// The next space in `cs` from `from` on.
fn next_space(cs: &[char], from: usize) -> (r: Option<usize>)
    requires
        from <= cs@.len(),
    ensures
        match r {
            Some(k) => from <= k < cs@.len() && first_of(cs@.skip(from as int), ' ') == Some(
                k - from,
            ),
            None => first_of(cs@.skip(from as int), ' ') is None,
        },
{
    let n = cs.len();
    let rest = crate::text::slice_of(cs, from, n);
    assert(rest@ == cs@.skip(from as int));
    match crate::text::find(rest.as_slice(), ' ') {
        Some(k) => Some(from + k),
        None => None,
    }
}

impl Frame {
    pub fn parse(raw: &str) -> (r: Result<Self, Failure>)
        ensures
            match r {
                Ok(f) => frame_of(raw@) == Some((f.stamp, f.partial, f.chunk@)),
                Err(f) => frame_of(raw@) is None && f.spec_doing() == "reading the frame "@
                    + crate::rig::control::debug_quoted(raw@) && f.spec_cause() == frame_refusal(raw@),
            },
    {
        match Self::read(raw) {
            Some(frame) => Ok(frame),
            None => {
                let mut doing = crate::text::owned("reading the frame ");
                let q = crate::rig::control::quoted(raw);
                crate::text::push_str(&mut doing, q.as_str());
                Err(Failure::new(doing, frame_refused(raw)))
            },
        }
    }

    fn read(raw: &str) -> (r: Option<Self>)
        ensures
            match r {
                Some(f) => frame_of(raw@) == Some((f.stamp, f.partial, f.chunk@)),
                None => frame_of(raw@) is None,
            },
    {
        let cs = crate::text::chars_of(raw);
        let n = cs.len();
        assert(cs@.skip(0) == cs@);
        let a = match next_space(cs.as_slice(), 0) {
            Some(a) => a,
            None => return None,
        };
        let b = match next_space(cs.as_slice(), a + 1) {
            Some(b) => b,
            None => return None,
        };
        assert(cs@.skip(a + 1).skip(b - (a + 1) + 1) == cs@.skip(b + 1));
        let c = match next_space(cs.as_slice(), b + 1) {
            Some(c) => c,
            None => return None,
        };
        assert(cs@.skip(b + 1).skip(c - (b + 1) + 1) == cs@.skip(c + 1));
        let d = match next_space(cs.as_slice(), c + 1) {
            Some(d) => d,
            None => return None,
        };
        assert(cs@.skip(c + 1).skip(d - (c + 1) + 1) == cs@.skip(d + 1));
        let at_text = crate::text::string_of(crate::text::slice_of(cs.as_slice(), 0, a).as_slice());
        let pid_text = crate::text::slice_of(cs.as_slice(), a + 1, b);
        let seq_text = crate::text::slice_of(cs.as_slice(), b + 1, c);
        let marker = crate::text::slice_of(cs.as_slice(), c + 1, d);
        let chunk = crate::text::string_of(crate::text::slice_of(cs.as_slice(), d + 1, n).as_slice());
        assert(at_text@ == cs@.take(a as int));
        assert(pid_text@ == cs@.skip(a + 1).take(b - (a + 1)));
        assert(seq_text@ == cs@.skip(b + 1).take(c - (b + 1)));
        assert(marker@ == cs@.skip(c + 1).take(d - (c + 1)));
        assert(chunk@ == cs@.skip(d + 1));
        let at = match Micros::parse_epoch(at_text.as_str()) {
            Some(at) => at,
            None => return None,
        };
        let pid = match crate::digits::parse_u32(pid_text.as_slice()) {
            Some(pid) => pid,
            None => return None,
        };
        let seq = match crate::digits::parse_u32(seq_text.as_slice()) {
            Some(seq) => seq,
            None => return None,
        };
        let partial = if marker.len() == 1 && marker[0] == '+' {
            assert(marker@ == seq!['+']);
            true
        } else if marker.len() == 1 && marker[0] == '.' {
            assert(marker@ == seq!['.']);
            false
        } else {
            proof {
                if marker@ == seq!['+'] || marker@ == seq!['.'] {
                    assert(marker@.len() == 1 && marker@[0] == marker[0]);
                }
            }
            return None;
        };
        Some(Self { stamp: Stamp { at, pid: Pid(pid), seq }, partial, chunk })
    }
}

} // verus!
