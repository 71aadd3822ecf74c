//! What a shell is: which bash, how it was given its code, and what it had
//! switched on when it joined.
//!
//! A shell's own account of itself, read back from the words it wrote.
//! Nothing is inferred from the shape of what it went on to say.

use vstd::prelude::*;

use crate::digits::u32_of;
use crate::failure::Failure;
use crate::quoting::{array_words, parse_array};
use crate::digits::decimal;
use crate::rig::control::{debug_quoted, quoted};
use crate::rig::wire::message::{field_of, Account, Pid, Stamp};
use crate::text::{first_of, has_char, views};

verus! {

/// `$BASH_VERSINFO`, all six elements.
#[derive(Debug)]
pub struct Version {
    pub major: u32,
    pub minor: u32,
    pub patch: u32,
    pub build: u32,
    /// `release`, `beta`, `rc1` — what bash calls its release status.
    pub status: String,
    /// `$MACHTYPE`, which is element five and not a separate fact.
    pub machine: String,
}

pub type VersionView = (u32, u32, u32, u32, Seq<char>, Seq<char>);

impl View for Version {
    type V = VersionView;

    open spec fn view(&self) -> VersionView {
        (self.major, self.minor, self.patch, self.build, self.status@, self.machine@)
    }
}

/// `(major, minor, patch)` no earlier than the other, compared in that order.
pub open spec fn release_at_least(a: (u32, u32, u32), b: (u32, u32, u32)) -> bool {
    ||| a.0 > b.0
    ||| a.0 == b.0 && a.1 > b.1
    ||| a.0 == b.0 && a.1 == b.1 && a.2 >= b.2
}

/// The six words of a version literal, read.
pub open spec fn version_of(literal: Seq<char>) -> Option<VersionView> {
    match array_words(literal) {
        Some(p) => if p.len() == 6 {
            match (u32_of(p[0]), u32_of(p[1]), u32_of(p[2]), u32_of(p[3])) {
                (Some(a), Some(b), Some(c), Some(d)) => Some((a, b, c, d, p[4], p[5])),
                _ => None,
            }
        } else {
            None
        },
        None => None,
    }
}

impl Version {
    /// The comparison that matters: `(major, minor, patch)` against a
    /// behaviour's first release.
    pub fn at_least(&self, major: u32, minor: u32, patch: u32) -> (r: bool)
        ensures
            r == release_at_least((self.major, self.minor, self.patch), (major, minor, patch)),
    {
        self.major > major || (self.major == major && self.minor > minor) || (self.major == major
            && self.minor == minor && self.patch >= patch)
    }

    fn of(literal: &str) -> (r: Result<Self, Failure>)
        ensures
            match r {
                Ok(v) => version_of(literal@) == Some(v@),
                Err(f) => version_of(literal@) is None && f.spec_doing() == reading_a_shell() && f.spec_cause()
                    == version_refusal(literal@),
            },
    {
        let parts = match parse_array(literal) {
            Ok(parts) => parts,
            Err(_) => return Err(broken("the version is not an array literal")),
        };
        if parts.len() != 6 {
            let mut cause = crate::text::owned("a version of ");
            let n = crate::digits::decimal_text(parts.len() as u64);
            crate::text::push_str(&mut cause, n.as_str());
            crate::text::push_str(&mut cause, " parts");
            return Err(broken(cause.as_str()));
        }
        let major = match count(parts[0].as_str()) {
            Some(n) => n,
            None => return Err(not_a_count("a major version ", parts[0].as_str())),
        };
        let minor = match count(parts[1].as_str()) {
            Some(n) => n,
            None => return Err(not_a_count("a minor version ", parts[1].as_str())),
        };
        let patch = match count(parts[2].as_str()) {
            Some(n) => n,
            None => return Err(not_a_count("a patch level ", parts[2].as_str())),
        };
        let build = match count(parts[3].as_str()) {
            Some(n) => n,
            None => return Err(not_a_count("a build number ", parts[3].as_str())),
        };
        Ok(
            Self {
                major,
                minor,
                patch,
                build,
                status: parts[4].clone(),
                machine: parts[5].clone(),
            },
        )
    }
}

/// How bash was given the code it runs. `set` refuses `-i`, `-c` and `-s`,
/// so all three are settled when the shell starts.
#[derive(Debug)]
pub struct Invocation {
    /// `-c`, with the text bash was given. Absent for any other invocation.
    pub command: Option<String>,
    /// `-s`: the code arrives on standard input.
    pub standard_input: bool,
    /// `-i`: bash reads from a terminal.
    pub interactive: bool,
}

pub type InvocationView = (Option<Seq<char>>, bool, bool);

impl View for Invocation {
    type V = InvocationView;

    open spec fn view(&self) -> InvocationView {
        (
            match self.command {
                Some(c) => Some(c@),
                None => None,
            },
            self.standard_input,
            self.interactive,
        )
    }
}

impl Invocation {
    /// Whether bash was handed a file to read, which is what makes
    /// [`Bash::zero`] a path rather than a word standing in for code bash
    /// was given directly.
    pub fn from_a_file(&self) -> (r: bool)
        ensures
            r == (self.command is None && !self.standard_input),
    {
        self.command.is_none() && !self.standard_input
    }
}

/// `$-`, as bash wrote it.
#[derive(Debug)]
pub struct Flags(String);

impl View for Flags {
    type V = Seq<char>;

    closed spec fn view(&self) -> Seq<char> {
        self.0@
    }
}

impl Flags {
    /// `$-`, as a shell reported it.
    pub fn of(text: String) -> (r: Self)
        ensures
            r@ == text@,
    {
        Flags(text)
    }

    pub fn has(&self, flag: char) -> (r: bool)
        ensures
            r == has_char(self@, flag),
    {
        crate::text::contains_char(self.0.as_str(), flag)
    }

    /// The flags as bash wrote them.
    pub fn to_string(&self) -> (s: String)
        ensures
            s@ == self@,
    {
        self.0.clone()
    }
}

/// What a shell had switched on at the moment it said so.
#[derive(Debug)]
pub struct Options {
    pub flags: Flags,
    /// `$SHELLOPTS`, split — the `set -o` options that were on.
    pub shellopts: Vec<String>,
    /// `$BASHOPTS`, split — the `shopt` options that were on.
    pub bashopts: Vec<String>,
}

pub type OptionsView = (Seq<char>, Seq<Seq<char>>, Seq<Seq<char>>);

impl View for Options {
    type V = OptionsView;

    open spec fn view(&self) -> OptionsView {
        (self.flags@, views(self.shellopts@), views(self.bashopts@))
    }
}

/// Which bash a shell is, and how it was started.
#[derive(Debug)]
pub struct Bash {
    pub version: Version,
    /// `$BASH`: the binary this shell is running.
    pub binary: String,
    /// `$0`.
    pub zero: String,
    pub invocation: Invocation,
}

pub type BashView = (VersionView, Seq<char>, Seq<char>, InvocationView);

impl View for Bash {
    type V = BashView;

    open spec fn view(&self) -> BashView {
        (self.version@, self.binary@, self.zero@, self.invocation@)
    }
}

/// A shell in a run: which bash it is, where it sits, and what it had
/// switched on when it joined.
#[derive(Debug)]
pub struct Shell {
    /// The order it joined in, counting from zero.
    pub nth: usize,
    pub pid: Pid,
    pub shlvl: u32,
    /// `$BASH_SUBSHELL`.
    pub subshell: u32,
    /// When it joined, on both clocks.
    pub joined: Stamp,
    pub bash: Bash,
    pub options: Options,
    /// The words its join carried, verbatim.
    pub brought: Vec<String>,
}

pub type ShellView = (usize, Pid, u32, u32, Stamp, BashView, OptionsView, Seq<Seq<char>>);

impl View for Shell {
    type V = ShellView;

    open spec fn view(&self) -> ShellView {
        (
            self.nth,
            self.pid,
            self.shlvl,
            self.subshell,
            self.joined,
            self.bash@,
            self.options@,
            views(self.brought@),
        )
    }
}

pub open spec fn key(k: &str) -> Seq<char> {
    k@
}

/// `$SHELLOPTS` or `$BASHOPTS` split at colons, empty names dropped.
pub open spec fn opts_of(s: Seq<char>) -> Seq<Seq<char>>
    decreases s.len(),
{
    match first_of(s, ':') {
        None => if s.len() > 0 {
            seq![s]
        } else {
            Seq::empty()
        },
        Some(i) => {
            let head: Seq<Seq<char>> = if i > 0 {
                seq![s.take(i)]
            } else {
                Seq::empty()
            };
            if 0 <= i < s.len() {
                head + opts_of(s.skip(i + 1))
            } else {
                head
            }
        },
    }
}

/// The invocation `$-` and the `-c` text describe.
pub open spec fn invocation_of(flags: Seq<char>, command: Seq<char>) -> InvocationView {
    (
        if has_char(flags, 'c') {
            Some(command)
        } else {
            None
        },
        has_char(flags, 's'),
        has_char(flags, 'i'),
    )
}

/// Why a version literal does not read.
pub open spec fn version_refusal(literal: Seq<char>) -> Seq<char> {
    match array_words(literal) {
        None => "the version is not an array literal"@,
        Some(p) => if p.len() != 6 {
            "a version of "@ + decimal(p.len()) + " parts"@
        } else if u32_of(p[0]) is None {
            "a major version "@ + debug_quoted(p[0])
        } else if u32_of(p[1]) is None {
            "a minor version "@ + debug_quoted(p[1])
        } else if u32_of(p[2]) is None {
            "a patch level "@ + debug_quoted(p[2])
        } else {
            "a build number "@ + debug_quoted(p[3])
        },
    }
}

/// Why an account lacks the pair `key`.
pub open spec fn missing_pair(key: Seq<char>) -> Seq<char> {
    "no "@ + debug_quoted(key)
}

/// Why an account does not say which bash it is: the first pair missing,
/// or the version that does not read.
pub open spec fn bash_refusal(words: Seq<Seq<char>>) -> Seq<char> {
    if field_of(words, "versinfo"@) is None {
        missing_pair("versinfo"@)
    } else if field_of(words, "bash"@) is None {
        missing_pair("bash"@)
    } else if field_of(words, "zero"@) is None {
        missing_pair("zero"@)
    } else if field_of(words, "flags"@) is None {
        missing_pair("flags"@)
    } else if field_of(words, "command"@) is None {
        missing_pair("command"@)
    } else {
        version_refusal(field_of(words, "versinfo"@)->0)
    }
}

/// Why an account does not say what the shell had switched on: the first
/// pair missing.
pub open spec fn options_refusal(words: Seq<Seq<char>>) -> Seq<char> {
    if field_of(words, "flags"@) is None {
        missing_pair("flags"@)
    } else if field_of(words, "shellopts"@) is None {
        missing_pair("shellopts"@)
    } else {
        missing_pair("bashopts"@)
    }
}

/// Which bash an account describes.
pub open spec fn bash_of(words: Seq<Seq<char>>) -> Option<BashView> {
    match (
        field_of(words, "versinfo"@),
        field_of(words, "bash"@),
        field_of(words, "zero"@),
        field_of(words, "flags"@),
        field_of(words, "command"@),
    ) {
        (Some(v), Some(b), Some(z), Some(f), Some(c)) => match version_of(v) {
            Some(version) => Some((version, b, z, invocation_of(f, c))),
            None => None,
        },
        _ => None,
    }
}

/// What an account says the shell had switched on.
pub open spec fn options_of(words: Seq<Seq<char>>) -> Option<OptionsView> {
    match (
        field_of(words, "flags"@),
        field_of(words, "shellopts"@),
        field_of(words, "bashopts"@),
    ) {
        (Some(f), Some(s), Some(b)) => Some((f, opts_of(s), opts_of(b))),
        _ => None,
    }
}

/// The shell an announcement describes: its pid is among the pairs it
/// carried.
pub open spec fn announced_shell(nth: usize, joined: Stamp, words: Seq<Seq<char>>) -> Option<ShellView> {
    match field_of(words, "pid"@) {
        Some(p) => match u32_of(p) {
            Some(pid) => shell_of(nth, Pid(pid), joined, words),
            None => None,
        },
        None => None,
    }
}

/// The shell an account describes, given where it sits in the run.
pub open spec fn shell_of(nth: usize, pid: Pid, joined: Stamp, words: Seq<Seq<char>>) -> Option<
    ShellView,
> {
    match (
        field_of(words, "shlvl"@),
        field_of(words, "subshell"@),
        field_of(words, "brought"@),
        bash_of(words),
        options_of(words),
    ) {
        (Some(l), Some(s), Some(b), Some(bash), Some(options)) => match (
            u32_of(l),
            u32_of(s),
            array_words(b),
        ) {
            (Some(shlvl), Some(subshell), Some(brought)) => Some(
                (nth, pid, shlvl, subshell, joined, bash, options, brought),
            ),
            _ => None,
        },
        _ => None,
    }
}

fn count(text: &str) -> (r: Option<u32>)
    ensures
        r == u32_of(text@),
{
    let cs = crate::text::chars_of(text);
    crate::digits::parse_u32(cs.as_slice())
}

/// What a refusal to read a shell's account says it was doing.
pub open spec fn reading_a_shell() -> Seq<char> {
    "reading what a shell said of itself"@
}

/// A count that does not read: what it is, and the text it was.
fn not_a_count(what: &str, text: &str) -> (r: Failure)
    ensures
        r.spec_doing() == reading_a_shell(),
        r.spec_cause() == what@ + debug_quoted(text@),
{
    let mut cause = crate::text::owned(what);
    let q = quoted(text);
    crate::text::push_str(&mut cause, q.as_str());
    broken(cause.as_str())
}

fn broken(what: &str) -> (r: Failure)
    ensures
        r.spec_doing() == reading_a_shell(),
        r.spec_cause() == what@,
{
    Failure::new(crate::text::owned("reading what a shell said of itself"), crate::text::owned(what))
}

/// The value of `key` among the pairs, owned.
fn word(words: &[String], key: &str) -> (r: Result<String, Failure>)
    ensures
        match r {
            Ok(w) => field_of(views(words@), key@) == Some(w@),
            Err(f) => field_of(views(words@), key@) is None && f.spec_doing() == reading_a_shell()
                && f.spec_cause() == missing_pair(key@),
        },
{
    match crate::rig::wire::field(words, key) {
        Some(w) => Ok(crate::text::owned(w)),
        None => {
            let mut cause = crate::text::owned("no ");
            let q = quoted(key);
            crate::text::push_str(&mut cause, q.as_str());
            Err(broken(cause.as_str()))
        },
    }
}

/// `text` split at colons, with the empty names dropped.
fn split_opts(text: &str) -> (r: Vec<String>)
    ensures
        views(r@) == opts_of(text@),
{
    let cs = crate::text::chars_of(text);
    let n = cs.len();
    let mut out: Vec<String> = Vec::new();
    let mut from: usize = 0;
    assert(cs@.skip(0) == cs@);
    loop
        invariant
            from <= n,
            n == cs@.len(),
            cs@ == text@,
            views(out@) + opts_of(cs@.skip(from as int)) == opts_of(text@),
        decreases n - from,
    {
        let rest = crate::text::slice_of(cs.as_slice(), from, n);
        assert(rest@ == cs@.skip(from as int));
        match crate::text::find(rest.as_slice(), ':') {
            None => {
                let ghost before = views(out@);
                if from < n {
                    out.push(crate::text::string_of(rest.as_slice()));
                    assert(views(out@) == before + seq![rest@]);
                } else {
                    assert(views(out@) == before + Seq::<Seq<char>>::empty());
                }
                return out;
            },
            Some(i) => {
                let ghost before = views(out@);
                let ghost head: Seq<Seq<char>> = if i > 0 {
                    seq![rest@.take(i as int)]
                } else {
                    Seq::empty()
                };
                if i > 0 {
                    let piece = crate::text::slice_of(rest.as_slice(), 0, i);
                    out.push(crate::text::string_of(piece.as_slice()));
                    assert(views(out@) == before + head);
                } else {
                    assert(views(out@) == before + head);
                }
                assert(rest@.skip(i + 1) == cs@.skip(from + i + 1));
                assert(opts_of(rest@) == head + opts_of(rest@.skip(i + 1)));
                from = from + i + 1;
            },
        }
    }
}

impl Bash {
    /// Which bash an account describes: the version, the binary, `$0`, and
    /// how it was started.
    pub fn of(words: &[String]) -> (r: Result<Self, Failure>)
        ensures
            match r {
                Ok(b) => bash_of(views(words@)) == Some(b@),
                Err(f) => bash_of(views(words@)) is None && f.spec_doing() == reading_a_shell() && f.spec_cause()
                    == bash_refusal(views(words@)),
            },
    {
        proof {
            reveal_strlit("versinfo");
            reveal_strlit("bash");
            reveal_strlit("zero");
            reveal_strlit("flags");
            reveal_strlit("command");
        }
        let versinfo = word(words, "versinfo")?;
        let binary = word(words, "bash")?;
        let zero = word(words, "zero")?;
        let flags = word(words, "flags")?;
        let command = word(words, "command")?;
        let version = Version::of(versinfo.as_str())?;
        let c = crate::text::contains_char(flags.as_str(), 'c');
        let invocation = Invocation {
            command: if c {
                Some(command)
            } else {
                None
            },
            standard_input: crate::text::contains_char(flags.as_str(), 's'),
            interactive: crate::text::contains_char(flags.as_str(), 'i'),
        };
        Ok(Self { version, binary, zero, invocation })
    }
}

impl Options {
    /// What an account says the shell had switched on.
    pub fn of(words: &[String]) -> (r: Result<Self, Failure>)
        ensures
            match r {
                Ok(o) => options_of(views(words@)) == Some(o@),
                Err(f) => options_of(views(words@)) is None && f.spec_doing() == reading_a_shell() && f.spec_cause()
                    == options_refusal(views(words@)),
            },
    {
        proof {
            reveal_strlit("flags");
            reveal_strlit("shellopts");
            reveal_strlit("bashopts");
        }
        let flags = word(words, "flags")?;
        let shellopts = word(words, "shellopts")?;
        let bashopts = word(words, "bashopts")?;
        Ok(
            Self {
                flags: Flags(flags),
                shellopts: split_opts(shellopts.as_str()),
                bashopts: split_opts(bashopts.as_str()),
            },
        )
    }
}

impl Shell {
    /// Read off the words a shell wrote about itself, as the `nth` to join,
    /// under the pid and clock its announcement carried.
    pub fn of(nth: usize, pid: Pid, joined: Stamp, words: &[String]) -> (r: Result<Self, Failure>)
        ensures
            match r {
                Ok(s) => {
                    &&& shell_of(nth, pid, joined, views(words@)) == Some(s@)
                    &&& s.nth == nth && s.pid == pid && s.joined == joined
                    &&& field_of(views(words@), "shlvl"@) matches Some(t) && u32_of(t) == Some(s.shlvl)
                    &&& field_of(views(words@), "subshell"@) matches Some(t) && u32_of(t) == Some(s.subshell)
                },
                Err(f) => shell_of(nth, pid, joined, views(words@)) is None && f.spec_doing()
                    == reading_a_shell(),
            },
    {
        proof {
            reveal_strlit("shlvl");
            reveal_strlit("subshell");
            reveal_strlit("brought");
        }
        let shlvl_text = word(words, "shlvl")?;
        let subshell_text = word(words, "subshell")?;
        let brought_text = word(words, "brought")?;
        let bash = Bash::of(words)?;
        let options = Options::of(words)?;
        let shlvl = match count(shlvl_text.as_str()) {
            Some(n) => n,
            None => return Err(not_a_count("shlvl ", shlvl_text.as_str())),
        };
        let subshell = match count(subshell_text.as_str()) {
            Some(n) => n,
            None => return Err(not_a_count("subshell ", subshell_text.as_str())),
        };
        let brought = match parse_array(brought_text.as_str()) {
            Ok(brought) => brought,
            Err(_) => return Err(broken("the brought words are not an array literal")),
        };
        let shell = Self { nth, pid, shlvl, subshell, joined, bash, options, brought };
        proof {
            lemma_shell_reads_its_pairs(nth, pid, joined, views(words@));
        }
        Ok(shell)
    }

    /// Read off a shell's announcement, as the `nth` to join: the clock it
    /// carried, and the pairs, its pid among them.
    pub fn announced(nth: usize, account: Account) -> (r: Result<Self, Failure>)
        ensures
            match r {
                Ok(s) => announced_shell(nth, account.stamp, views(account.words@)) == Some(s@),
                Err(f) => announced_shell(nth, account.stamp, views(account.words@)) is None
                    && f.spec_doing() == reading_a_shell(),
            },
    {
        proof {
            reveal_strlit("pid");
        }
        let pid_text = word(account.words.as_slice(), "pid")?;
        let pid = match count(pid_text.as_str()) {
            Some(n) => n,
            None => return Err(not_a_count("pid ", pid_text.as_str())),
        };
        Self::of(nth, Pid(pid), account.stamp, account.words.as_slice())
    }
}

impl Clone for Version {
    fn clone(&self) -> (r: Self)
        ensures
            r@ == self@,
    {
        Version {
            major: self.major,
            minor: self.minor,
            patch: self.patch,
            build: self.build,
            status: self.status.clone(),
            machine: self.machine.clone(),
        }
    }
}

impl Clone for Invocation {
    fn clone(&self) -> (r: Self)
        ensures
            r@ == self@,
    {
        let command = match &self.command {
            Some(c) => Some(c.clone()),
            None => None,
        };
        Invocation { command, standard_input: self.standard_input, interactive: self.interactive }
    }
}

impl Clone for Flags {
    fn clone(&self) -> (r: Self)
        ensures
            r@ == self@,
    {
        Flags(self.0.clone())
    }
}

impl Clone for Options {
    fn clone(&self) -> (r: Self)
        ensures
            r@ == self@,
    {
        Options {
            flags: self.flags.clone(),
            shellopts: crate::text::copies(self.shellopts.as_slice()),
            bashopts: crate::text::copies(self.bashopts.as_slice()),
        }
    }
}

impl Clone for Bash {
    fn clone(&self) -> (r: Self)
        ensures
            r@ == self@,
    {
        Bash {
            version: self.version.clone(),
            binary: self.binary.clone(),
            zero: self.zero.clone(),
            invocation: self.invocation.clone(),
        }
    }
}

impl Clone for Shell {
    fn clone(&self) -> (r: Self)
        ensures
            r@ == self@,
    {
        Shell {
            nth: self.nth,
            pid: self.pid,
            shlvl: self.shlvl,
            subshell: self.subshell,
            joined: self.joined,
            bash: self.bash.clone(),
            options: self.options.clone(),
            brought: crate::text::copies(self.brought.as_slice()),
        }
    }
}

/// What a shell read off its account is made of: where it sits in the run
/// as it was given, its level the number after `shlvl`, its subshell depth
/// the number after `subshell`, and the words it brought the array literal
/// after `brought` — each read as `str::parse` reads it.
pub proof fn lemma_shell_reads_its_pairs(nth: usize, pid: Pid, joined: Stamp, words: Seq<Seq<char>>)
    ensures
        shell_of(nth, pid, joined, words) matches Some(v) ==> {
            &&& v.0 == nth
            &&& v.1 == pid
            &&& v.4 == joined
            &&& field_of(words, "shlvl"@) matches Some(t) && u32_of(t) == Some(v.2)
            &&& field_of(words, "subshell"@) matches Some(t) && u32_of(t) == Some(v.3)
            &&& field_of(words, "brought"@) matches Some(t) && array_words(t) == Some(v.7)
        },
{
}

/// An announced shell's pid is the number after `pid` among its pairs.
pub proof fn lemma_announced_pid(nth: usize, joined: Stamp, words: Seq<Seq<char>>)
    ensures
        announced_shell(nth, joined, words) matches Some(v) ==> field_of(words, "pid"@) matches Some(t)
            && u32_of(t) == Some(v.1.0),
{
}

} // verus!
