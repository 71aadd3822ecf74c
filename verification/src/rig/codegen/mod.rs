//! Generating the bash a rig injects.
//!
//! [`BashSrc`] composes fragments without quoting hazards, [`Asset`] fills
//! the bash files a rig carries, and [`Codegen`] is the only way to
//! construct a send: it always splices the owner guard, so writing through
//! another shell's descriptor is impossible by construction rather than by
//! discipline.

pub mod asset;
pub mod src;

pub use asset::{Asset, AssetError};
pub use src::BashSrc;

use vstd::prelude::*;

use self::src::{func_text, seq_text};
use super::wire::framing::kind_word;
use super::wire::Kind;

verus! {

#[derive(Clone, Copy, Debug)]
pub struct Codegen {
    debug: bool,
}

/// The guard every emit starts with: a shell that is not the pipe's owner
/// joins on its own before it writes.
pub open spec fn guard_text() -> Seq<char> {
    "[[ $BASHPID == \"$__BC__owner\" ]] || __BC__join"@
}

/// Shipping indexed array `array` as one message of the kind `marker` names:
/// quoted element by element, framed, written whole where it fits and split
/// where it does not. With `debug`, the send is logged first.
pub open spec fn send_text(array: Seq<char>, marker: Seq<char>, debug: bool) -> Seq<char> {
    let quote = "printf -v __BC__msg '%s ' \"${"@ + array + "[@]@Q}\""@;
    let wrap = "__BC__msg=\"(${__BC__msg% })\""@;
    let log = "__BC__log send "@ + marker + " "@ + array + " ${#__BC__msg}"@;
    let write = "if (( ${#__BC__msg} <= __BC__limit )); then\n    printf '%s %s %s "@ + marker
        + " %s\\n' \"$EPOCHREALTIME\" \"$BASHPID\" \"$((__BC__seq++))\" \"$__BC__msg\" >&$__BC__up\nelse\n    __BC__split '"@
        + marker + "' \"$__BC__msg\"\nfi"@;
    if debug {
        seq_text(seq![quote, wrap, log, write])
    } else {
        seq_text(seq![quote, wrap, write])
    }
}

/// `name() { before; "$@"; local rc=$?; after; return "$rc"; }`.
pub open spec fn wrapper_text(name: Seq<char>, before: Seq<char>, after: Seq<char>) -> Seq<char> {
    func_text(
        name,
        seq_text(seq![before, "\"$@\""@, "local rc=$?"@, after, "return \"$rc\""@]),
    )
}

impl Codegen {
    pub closed spec fn is_debugging(&self) -> bool {
        self.debug
    }

    pub fn new() -> (r: Self)
        ensures
            !r.is_debugging(),
    {
        Self { debug: false }
    }

    pub fn debugging(debug: bool) -> (r: Self)
        ensures
            r.is_debugging() == debug,
    {
        Self { debug }
    }

    /// Ships indexed array `$array` as one message, fire and forget.
    pub fn emit(&self, array: &str) -> (r: BashSrc)
        ensures
            r@ == seq_text(seq![guard_text(), send_text(array@, kind_word(Kind::Say), self.is_debugging())]),
    {
        let parts = vec![self.guard(), self.send(array, Kind::Say)];
        assert(src::src_views(parts@) =~= seq![guard_text(), send_text(array@, kind_word(Kind::Say), self.debug)]);
        BashSrc::seq(parts)
    }

    /// Ships `$array` as a question. The caller blocks afterwards.
    pub fn ask(&self, array: &str) -> (r: BashSrc)
        ensures
            r@ == send_text(array@, kind_word(Kind::Ask), self.is_debugging()),
    {
        self.send(array, Kind::Ask)
    }

    /// Sends without the guard, for the one caller that has just run it.
    pub fn post_unguarded(&self, array: &str) -> (r: BashSrc)
        ensures
            r@ == send_text(array@, kind_word(Kind::Say), self.is_debugging()),
    {
        self.send(array, Kind::Say)
    }

    fn guard(&self) -> (r: BashSrc)
        ensures
            r@ == guard_text(),
    {
        BashSrc::raw(crate::text::owned("[[ $BASHPID == \"$__BC__owner\" ]] || __BC__join"))
    }

    fn send(&self, array: &str, kind: Kind) -> (r: BashSrc)
        ensures
            r@ == send_text(array@, kind_word(kind), self.debug),
    {
        let marker = kind.marker();
        // `${a[*]@Q}` would join on the client's IFS and collapse the message
        // into one word; printf joins on its own format instead.
        let mut quote = crate::text::owned("printf -v __BC__msg '%s ' \"${");
        crate::text::push_str(&mut quote, array);
        crate::text::push_str(&mut quote, "[@]@Q}\"");
        let wrap = crate::text::owned("__BC__msg=\"(${__BC__msg% })\"");
        let mut write = crate::text::owned(
            "if (( ${#__BC__msg} <= __BC__limit )); then\n    printf '%s %s %s ",
        );
        crate::text::push_str(&mut write, marker);
        crate::text::push_str(
            &mut write,
            " %s\\n' \"$EPOCHREALTIME\" \"$BASHPID\" \"$((__BC__seq++))\" \"$__BC__msg\" >&$__BC__up\nelse\n    __BC__split '",
        );
        crate::text::push_str(&mut write, marker);
        crate::text::push_str(&mut write, "' \"$__BC__msg\"\nfi");
        let mut lines: Vec<BashSrc> = Vec::new();
        lines.push(BashSrc::raw(quote));
        lines.push(BashSrc::raw(wrap));
        if self.debug {
            let mut log = crate::text::owned("__BC__log send ");
            crate::text::push_str(&mut log, marker);
            crate::text::push_char(&mut log, ' ');
            crate::text::push_str(&mut log, array);
            crate::text::push_str(&mut log, " ${#__BC__msg}");
            lines.push(BashSrc::raw(log));
        }
        lines.push(BashSrc::raw(write));
        proof {
            reveal_strlit(" ");
        }
        let ghost parts = src::src_views(lines@);
        assert(parts =~~= if self.debug {
            seq![
                "printf -v __BC__msg '%s ' \"${"@ + array@ + "[@]@Q}\""@,
                "__BC__msg=\"(${__BC__msg% })\""@,
                "__BC__log send "@ + kind_word(kind) + " "@ + array@ + " ${#__BC__msg}"@,
                "if (( ${#__BC__msg} <= __BC__limit )); then\n    printf '%s %s %s "@ + kind_word(kind)
                    + " %s\\n' \"$EPOCHREALTIME\" \"$BASHPID\" \"$((__BC__seq++))\" \"$__BC__msg\" >&$__BC__up\nelse\n    __BC__split '"@
                    + kind_word(kind) + "' \"$__BC__msg\"\nfi"@,
            ]
        } else {
            seq![
                "printf -v __BC__msg '%s ' \"${"@ + array@ + "[@]@Q}\""@,
                "__BC__msg=\"(${__BC__msg% })\""@,
                "if (( ${#__BC__msg} <= __BC__limit )); then\n    printf '%s %s %s "@ + kind_word(kind)
                    + " %s\\n' \"$EPOCHREALTIME\" \"$BASHPID\" \"$((__BC__seq++))\" \"$__BC__msg\" >&$__BC__up\nelse\n    __BC__split '"@
                    + kind_word(kind) + "' \"$__BC__msg\"\nfi"@,
            ]
        });
        BashSrc::seq(lines)
    }

    /// `name() { before; "$@"; local rc=$?; after; return "$rc"; }` — the
    /// continuation's status is preserved by construction, and `$?` is read
    /// as the first statement after it.
    pub fn cps_wrapper(&self, name: &str, before: BashSrc, after: BashSrc) -> (r: BashSrc)
        ensures
            r@ == wrapper_text(name@, before@, after@),
    {
        let ghost b = before@;
        let ghost a = after@;
        let parts = vec![
            before,
            BashSrc::raw(crate::text::owned("\"$@\"")),
            BashSrc::raw(crate::text::owned("local rc=$?")),
            after,
            BashSrc::raw(crate::text::owned("return \"$rc\"")),
        ];
        assert(src::src_views(parts@) =~= seq![b, "\"$@\""@, "local rc=$?"@, a, "return \"$rc\""@]);
        BashSrc::func(name, BashSrc::seq(parts))
    }
}

impl Default for Codegen {
    fn default() -> (r: Self)
        ensures
            !r.is_debugging(),
    {
        Self { debug: false }
    }
}

} // verus!
