//! What travels: a shell's account of itself, the messages it sends, and the
//! answers it is sent.
//!
//! Each is a bash array literal. The protocol puts its own words in front — a
//! verb where there is one, then the sending shell's clock as `at=` — and the
//! reader shifts exactly those back off, leaving what the shell wrote.

use vstd::prelude::*;

use crate::digits::{decimal, unsigned};
use crate::failure::Failure;
use crate::quoting::{array_form, array_words, emit_array, parse_array};
use crate::rig::control::{debug_quoted, quoted};
use crate::text::{first_of_either, has_char, views};

verus! {

/// Microseconds since the Unix epoch.
#[derive(Copy, Clone, PartialEq, Eq, PartialOrd, Ord, Debug, Structural)]
pub struct Micros(pub u64);

#[derive(Copy, Clone, PartialEq, Eq, PartialOrd, Ord, Hash, Debug, Structural)]
pub struct Pid(pub u32);

/// The six fractional digits of a lenient epoch: the first six characters
/// after the separator, padded with zeros where there are fewer.
pub open spec fn six_places(f: Seq<char>) -> Seq<char> {
    if f.len() >= 6 {
        f.take(6)
    } else {
        f + Seq::new((6 - f.len()) as nat, |i: int| '0')
    }
}

/// Seconds and microseconds together, where the sum is a `u64`.
pub open spec fn epoch_micros(secs: nat, micros: nat) -> Option<Micros> {
    if secs * 1_000_000 + micros <= u64::MAX {
        Some(Micros((secs * 1_000_000 + micros) as u64))
    } else {
        None
    }
}

/// `$EPOCHREALTIME` as the protocol's header carries it: seconds, the
/// locale's separator (`.` or `,`), exactly six digits. A reading past
/// `u64::MAX` microseconds is no clock.
pub open spec fn clock(text: Seq<char>) -> Option<Micros> {
    match first_of_either(text, '.', ',') {
        None => None,
        Some(k) => {
            let micros = text.skip(k + 1);
            match (unsigned(text.take(k), u64::MAX as nat), unsigned(micros, u64::MAX as nat)) {
                (Some(s), Some(m)) => if micros.len() == 6 {
                    epoch_micros(s, m)
                } else {
                    None
                },
                _ => None,
            }
        },
    }
}

/// An epoch as a timestamp field carries it: seconds, either separator, and
/// up to six fractional digits — fewer are padded, more are ignored. A
/// reading past `u64::MAX` microseconds is no epoch.
pub open spec fn lenient_epoch(text: Seq<char>) -> Option<Micros> {
    match first_of_either(text, '.', ',') {
        None => None,
        Some(k) => {
            let places = six_places(text.skip(k + 1));
            match unsigned(text.take(k), u64::MAX as nat) {
                Some(s) => if crate::digits::all_digits(places) {
                    epoch_micros(s, crate::digits::value_of(places))
                } else {
                    None
                },
                None => None,
            }
        },
    }
}

impl Micros {
    /// `$EPOCHREALTIME`: seconds, the locale's decimal separator — `.` or
    /// `,`, so no locale has to be forced on the shell — and up to six
    /// digits of fraction.
    pub fn parse_epoch(text: &str) -> (r: Option<Self>)
        ensures
            r == lenient_epoch(text@),
    {
        let cs = crate::text::chars_of(text);
        let k = match crate::text::find_either(cs.as_slice(), '.', ',') {
            Some(k) => k,
            None => return None,
        };
        let secs_text = crate::text::slice_of(cs.as_slice(), 0, k);
        assert(secs_text@ == cs@.take(k as int));
        let secs = match crate::digits::parse_u64(secs_text.as_slice()) {
            Some(s) => s,
            None => return None,
        };
        let n = cs.len();
        let from = k + 1;
        let rest = n - from;
        let ghost f = cs@.skip(k + 1);
        let ghost places = six_places(f);
        let mut micros: u64 = 0;
        let mut p: usize = 0;
        while p < 6
            invariant
                0 <= p <= 6,
                k < cs@.len(),
                from == k + 1,
                rest == cs@.len() - from,
                cs@.len() <= usize::MAX,
                cs@ == text@,
                first_of_either(text@, '.', ',') == Some(k as int),
                unsigned(text@.take(k as int), u64::MAX as nat) == Some(secs as nat),
                f == cs@.skip(k + 1),
                places == six_places(f),
                crate::digits::all_digits(places.take(p as int)),
                micros as nat == crate::digits::value_of(places.take(p as int)),
                micros < 1_000_000,
                p < 6 ==> micros < crate::digits::pow10_spec((p) as nat),
                p == 6 ==> micros < 1_000_000,
            decreases 6 - p,
        {
            let c = if p < rest { cs[from + p] } else { '0' };
            assert(c == places[p as int]);
            if !('0' <= c && c <= '9') {
                assert(!crate::digits::is_digit(places[p as int]));
                assert(!crate::digits::all_digits(places));
                return None;
            }
            assert(places.take(p + 1).drop_last() == places.take(p as int));
            proof {
                crate::digits::lemma_pow10_step(p as nat, micros as nat, (c as u32 - '0' as u32) as nat);
            }
            micros = micros * 10 + (c as u32 - '0' as u32) as u64;
            p = p + 1;
        }
        assert(places.take(6) == places);
        if secs > (u64::MAX - micros) / 1_000_000 {
            assert(secs * 1_000_000 + micros > u64::MAX) by (nonlinear_arith)
                requires
                    secs > (u64::MAX - micros) / 1_000_000,
                    micros < 1_000_000,
            ;
            return None;
        }
        assert(secs * 1_000_000 + micros <= u64::MAX) by (nonlinear_arith)
            requires
                secs <= (u64::MAX - micros) / 1_000_000,
                micros < 1_000_000,
        ;
        Some(Micros(secs * 1_000_000 + micros))
    }

    /// The protocol's own clock: exactly six digits of fraction.
    pub(crate) fn parse_clock(text: &[char]) -> (r: Option<Self>)
        ensures
            r == clock(text@),
    {
        let k = match crate::text::find_either(text, '.', ',') {
            Some(k) => k,
            None => return None,
        };
        let n = text.len();
        let secs_text = crate::text::slice_of(text, 0, k);
        let micros_text = crate::text::slice_of(text, k + 1, n);
        assert(secs_text@ == text@.take(k as int));
        assert(micros_text@ == text@.skip(k + 1));
        let secs = crate::digits::parse_u64(secs_text.as_slice());
        let micros = crate::digits::parse_u64(micros_text.as_slice());
        match (secs, micros) {
            (Some(s), Some(m)) => {
                if micros_text.len() != 6 {
                    return None;
                }
                if s > (u64::MAX - m) / 1_000_000 {
                    assert(s * 1_000_000 + m > u64::MAX) by (nonlinear_arith)
                        requires
                            s > (u64::MAX - m) / 1_000_000,
                    ;
                    return None;
                }
                assert(s * 1_000_000 + m <= u64::MAX) by (nonlinear_arith)
                    requires
                        s <= (u64::MAX - m) / 1_000_000,
                ;
                Some(Micros(s * 1_000_000 + m))
            },
            _ => None,
        }
    }
}


/// Whether the shell is waiting for something back. A word outside this set
/// is a defect in the bash, never a client's choice: a client's own tag is a
/// payload word, and the protocol never reads one.
#[derive(Copy, Clone, PartialEq, Eq, Debug, Structural)]
pub enum Verb {
    Say,
    Ask,
}

/// When one line was written and when it was read.
#[derive(Copy, Clone, PartialEq, Eq, Debug, Structural)]
pub struct Stamp {
    /// The sending shell's `$EPOCHREALTIME`.
    pub sent_at: Micros,
    /// The run's clock at the read that completed the line.
    pub heard_at: Micros,
}

/// What one shell's client said, once.
#[derive(Debug)]
pub struct Message {
    pub verb: Verb,
    pub stamp: Stamp,
    /// The client's arglist, and nothing of the protocol's.
    pub words: Vec<String>,
}

/// A shell's account of itself, as it announces itself: the clock, then the
/// pairs a [`Shell`](crate::shell::Shell) is read from.
#[derive(Debug)]
pub struct Account {
    pub stamp: Stamp,
    pub words: Vec<String>,
}

/// One line as read off a shell's pipe, with the run's clock at the read.
#[derive(Debug)]
pub struct Heard {
    pub text: String,
    pub heard_at: Micros,
}

pub open spec fn say_word() -> Seq<char> {
    seq!['S', 'A', 'Y']
}

pub open spec fn ask_word() -> Seq<char> {
    seq!['A', 'S', 'K']
}

/// The verb a protocol word names.
pub open spec fn verb_named(w: Seq<char>) -> Option<Verb> {
    if w == say_word() {
        Some(Verb::Say)
    } else if w == ask_word() {
        Some(Verb::Ask)
    } else {
        None
    }
}

/// The `at=` header: the sender's clock, after `at` and the first `=`.
pub open spec fn at_header(word: Seq<char>) -> Option<Micros> {
    if word.len() >= 3 && word.take(3) == seq!['a', 't', '='] {
        clock(word.skip(3))
    } else {
        None
    }
}

/// What a line off a shell's pipe reads as: the verb, the clock, and the
/// client's words behind them.
pub open spec fn message_of(text: Seq<char>, heard_at: Micros) -> Option<(Verb, Stamp, Seq<Seq<char>>)> {
    match array_words(text) {
        Some(w) => if w.len() >= 2 {
            match (verb_named(w[0]), at_header(w[1])) {
                (Some(v), Some(at)) => Some((v, Stamp { sent_at: at, heard_at }, w.skip(2))),
                _ => None,
            }
        } else {
            None
        },
        None => None,
    }
}

/// Why a word does not read as the `at=` header: it has the key and a
/// clock that will not read, or it is not the header at all.
pub open spec fn at_refusal(word: Seq<char>) -> Seq<char> {
    if word.len() >= 3 && word.take(3) == seq!['a', 't', '='] {
        "bad at"@
    } else {
        "no at= header"@
    }
}

/// Why a line off a shell's pipe does not read as a message.
pub open spec fn message_refusal(text: Seq<char>) -> Seq<char> {
    match array_words(text) {
        None => "not an array literal"@,
        Some(w) => if w.len() < 1 {
            "the line ended early"@
        } else if verb_named(w[0]) is None {
            w[0] + " is not a verb"@
        } else if w.len() < 2 {
            "the line ended early"@
        } else {
            at_refusal(w[1])
        },
    }
}

/// Why an announcement does not read as an account.
pub open spec fn account_refusal(text: Seq<char>) -> Seq<char> {
    match array_words(text) {
        None => "not an array literal"@,
        Some(w) => if w.len() < 1 {
            "the line ended early"@
        } else {
            at_refusal(w[0])
        },
    }
}

/// What an announcement reads as: the clock, then the words of the account.
pub open spec fn account_of(text: Seq<char>, heard_at: Micros) -> Option<(Stamp, Seq<Seq<char>>)> {
    match array_words(text) {
        Some(w) => if w.len() >= 1 {
            match at_header(w[0]) {
                Some(at) => Some((Stamp { sent_at: at, heard_at }, w.skip(1))),
                None => None,
            }
        } else {
            None
        },
        None => None,
    }
}

/// Value of the first `key value` pair with this key, pairs counted from the
/// front; a trailing odd word is no pair.
pub open spec fn field_of(words: Seq<Seq<char>>, key: Seq<char>) -> Option<Seq<char>>
    decreases words.len(),
{
    if words.len() < 2 {
        None
    } else if words[0] == key {
        Some(words[1])
    } else {
        field_of(words.skip(2), key)
    }
}

/// Why a word is refused as the `at=` header.
fn at_refused(word: &str) -> (r: String)
    ensures
        r@ == at_refusal(word@),
{
    let cs = crate::text::chars_of(word);
    if cs.len() >= 3 && cs[0] == 'a' && cs[1] == 't' && cs[2] == '=' {
        assert(cs@.take(3) =~= seq!['a', 't', '=']);
        crate::text::owned("bad at")
    } else {
        proof {
            if cs@.len() >= 3 && cs@.take(3) == seq!['a', 't', '='] {
                assert(cs@.take(3)[0] == 'a' && cs@.take(3)[1] == 't' && cs@.take(3)[2] == '=');
            }
        }
        crate::text::owned("no at= header")
    }
}

/// The clock a protocol word carries as `at=`.
pub(crate) fn read_at(word: &str) -> (r: Option<Micros>)
    ensures
        r == at_header(word@),
{
    let cs = crate::text::chars_of(word);
    if cs.len() >= 3 && cs[0] == 'a' && cs[1] == 't' && cs[2] == '=' {
        assert(cs@.take(3) == seq!['a', 't', '=']);
        let n = cs.len();
        let value = crate::text::slice_of(cs.as_slice(), 3, n);
        assert(value@ == cs@.skip(3));
        Micros::parse_clock(value.as_slice())
    } else {
        proof {
            if cs@.len() >= 3 && cs@.take(3) == seq!['a', 't', '='] {
                assert(cs@.take(3)[0] == 'a' && cs@.take(3)[1] == 't' && cs@.take(3)[2] == '=');
            }
        }
        None
    }
}

/// The verb a protocol word names.
pub(crate) fn read_verb(word: &str) -> (r: Option<Verb>)
    ensures
        r == verb_named(word@),
{
    proof {
        reveal_strlit("SAY");
        reveal_strlit("ASK");
        assert("SAY"@ =~= say_word());
        assert("ASK"@ =~= ask_word());
    }
    if crate::text::same(word, "SAY") {
        Some(Verb::Say)
    } else if crate::text::same(word, "ASK") {
        Some(Verb::Ask)
    } else {
        None
    }
}

/// The words from `from` on.
pub(crate) fn rest_of(words: Vec<String>, from: usize) -> (r: Vec<String>)
    requires
        from <= words@.len(),
    ensures
        views(r@) == views(words@).skip(from as int),
{
    let ghost before = words@;
    let mut words = words;
    let r = words.split_off(from);
    assert(views(r@) =~= views(before).skip(from as int));
    r
}

impl View for Message {
    type V = (Verb, Stamp, Seq<Seq<char>>);

    open spec fn view(&self) -> (Verb, Stamp, Seq<Seq<char>>) {
        (self.verb, self.stamp, views(self.words@))
    }
}

impl Message {
    /// The words after `lead`, if this message begins with it — how a
    /// decoder claims one family of messages and declines the rest.
    pub fn behind(&self, lead: &str) -> (r: Option<&[String]>)
        ensures
            match r {
                Some(rest) => self.words@.len() > 0 && self.words@[0]@ == lead@ && rest@
                    == self.words@.skip(1),
                None => self.words@.len() == 0 || self.words@[0]@ != lead@,
            },
    {
        if self.words.len() > 0 && crate::text::same(self.words[0].as_str(), lead) {
            let n = self.words.len();
            let rest = &self.words.as_slice()[1..n];
            assert(rest@ == self.words@.skip(1));
            Some(rest)
        } else {
            None
        }
    }

    /// One line off a shell's pipe: the verb, the clock, the words.
    pub fn read(line: Heard) -> (r: Result<Self, Failure>)
        ensures
            match r {
                Ok(m) => message_of(line.text@, line.heard_at) == Some(
                    (m.verb, m.stamp, views(m.words@)),
                ),
                Err(f) => message_of(line.text@, line.heard_at) is None && f.spec_doing() == "reading the line "@
                    + debug_quoted(line.text@) && f.spec_cause() == message_refusal(line.text@),
            },
    {
        let mut doing = crate::text::owned("reading the line ");
        let q = quoted(line.text.as_str());
        crate::text::push_str(&mut doing, q.as_str());
        let words = match parse_array(line.text.as_str()) {
            Ok(words) => words,
            Err(_) => return Err(Failure::new(doing, crate::text::owned("not an array literal"))),
        };
        if words.len() < 1 {
            return Err(Failure::new(doing, crate::text::owned("the line ended early")));
        }
        let verb = match read_verb(words[0].as_str()) {
            Some(verb) => verb,
            None => {
                let mut cause = words[0].clone();
                crate::text::push_str(&mut cause, " is not a verb");
                return Err(Failure::new(doing, cause));
            },
        };
        if words.len() < 2 {
            return Err(Failure::new(doing, crate::text::owned("the line ended early")));
        }
        let sent_at = match read_at(words[1].as_str()) {
            Some(at) => at,
            None => return Err(Failure::new(doing, at_refused(words[1].as_str()))),
        };
        let words = rest_of(words, 2);
        Ok(Self { verb, stamp: Stamp { sent_at, heard_at: line.heard_at }, words })
    }
}

impl Account {
    /// An announcement: the clock, then the pairs. There is no verb: a word
    /// where the clock goes is refused.
    pub fn read(text: &str, heard_at: Micros) -> (r: Result<Self, Failure>)
        ensures
            match r {
                Ok(a) => account_of(text@, heard_at) == Some((a.stamp, views(a.words@))),
                Err(f) => account_of(text@, heard_at) is None && f.spec_doing() == "reading the account "@
                    + debug_quoted(text@) && f.spec_cause() == account_refusal(text@),
            },
    {
        let mut doing = crate::text::owned("reading the account ");
        let q = quoted(text);
        crate::text::push_str(&mut doing, q.as_str());
        let words = match parse_array(text) {
            Ok(words) => words,
            Err(_) => return Err(Failure::new(doing, crate::text::owned("not an array literal"))),
        };
        if words.len() < 1 {
            return Err(Failure::new(doing, crate::text::owned("the line ended early")));
        }
        let sent_at = match read_at(words[0].as_str()) {
            Some(at) => at,
            None => return Err(Failure::new(doing, at_refused(words[0].as_str()))),
        };
        let words = rest_of(words, 1);
        Ok(Self { stamp: Stamp { sent_at, heard_at }, words })
    }
}

/// Value of the first `key value` pair with this key — a convention clients
/// may write their payload in, unrelated to the `key=value` headers the
/// protocol puts in front of one.
pub fn field<'a>(words: &'a [String], key: &str) -> (r: Option<&'a str>)
    ensures
        match r {
            Some(v) => field_of(views(words@), key@) == Some(v@),
            None => field_of(views(words@), key@) is None,
        },
{
    let mut i: usize = 0;
    assert(views(words@).skip(0) =~= views(words@));
    while i + 1 < words.len()
        invariant
            i % 2 == 0,
            i <= words@.len(),
            field_of(views(words@), key@) == field_of(views(words@).skip(i as int), key@),
        decreases words@.len() - i,
    {
        let ghost rest = views(words@).skip(i as int);
        assert(rest[0] == words@[i as int]@);
        if crate::text::same(words[i].as_str(), key) {
            assert(rest[1] == words@[i + 1]@);
            return Some(words[i + 1].as_str());
        }
        assert(rest.skip(2) =~= views(words@).skip(i + 2));
        i = i + 2;
    }
    None
}

/// What a blocked shell is told to run next: one command, as an arglist —
/// the same shape a message has, encoded the same way.
#[derive(Debug)]
pub struct Answer(Vec<String>);

impl View for Answer {
    type V = Seq<Seq<char>>;

    closed spec fn view(&self) -> Seq<Seq<char>> {
        views(self.0@)
    }
}

pub open spec fn return_word() -> Seq<char> {
    seq!['r', 'e', 't', 'u', 'r', 'n']
}

impl Answer {
    /// A command and the arguments it is given. The command word stands
    /// apart because a command of no words is not one.
    pub fn of(command: String, args: Vec<String>) -> (a: Self)
        ensures
            a@ == seq![command@] + views(args@),
    {
        let ghost given = args@;
        let ghost first = command@;
        let mut words: Vec<String> = Vec::new();
        words.push(command);
        let mut args = args;
        words.append(&mut args);
        assert(views(words@) =~= seq![first] + views(given));
        Self(words)
    }

    /// The command `return code`.
    pub fn status(code: u8) -> (a: Self)
        ensures
            a@ == seq![return_word(), decimal(code as nat)],
    {
        proof {
            reveal_strlit("return");
            assert("return"@ =~= return_word());
        }
        let mut args: Vec<String> = Vec::new();
        args.push(crate::digits::decimal_text(code as u64));
        assert(views(args@) =~= seq![decimal(code as nat)]);
        let a = Self::of(crate::text::owned("return"), args);
        assert(a@ =~= seq![return_word(), decimal(code as nat)]);
        a
    }

    /// A word this rig has no answer for: `return 127`, bash's own "command
    /// not found".
    pub fn unknown() -> (a: Self)
        ensures
            a@ == seq![return_word(), seq!['1', '2', '7']],
    {
        let a = Self::status(127);
        proof {
            assert(decimal(1) == seq!['1']);
            assert(decimal(12) == seq!['1', '2']);
            assert(decimal(127) == seq!['1', '2', '7']);
        }
        a
    }

    /// One line, whatever it carries: the bash array literal a shell reads
    /// back with `declare -a` — how an answer travels the reply pipe.
    pub fn to_string(&self) -> (s: String)
        ensures
            s@ == array_form(self@),
            array_words(s@) == Some(self@),
            !has_char(s@, '\n'),
    {
        emit_array(self.0.as_slice())
    }
}

} // verus!
