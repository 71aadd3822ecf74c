//! The account a shell gives of itself, built by hand.
//!
//! One builder, so a test that needs the words and a test that needs the
//! shell read the same one. The numbers are a real 5.3.9's: what is under
//! test wherever this is used is the arrangement or the walk, never the
//! reading of this payload.

use std::sync::Arc;

use vstd::prelude::*;

use crate::quoting::{array_form, array_words, emit_array};
use crate::rig::wire::message::{Micros, Pid, Stamp};
use crate::shell::{shell_of, Shell};
use crate::text::{has_char, views};

verus! {

/// `$BASH_VERSINFO` of the shell an account describes.
pub open spec fn versinfo_words() -> Seq<Seq<char>> {
    seq!["5"@, "3"@, "9"@, "1"@, "release"@, "x86_64-pc-linux-gnu"@]
}

/// The words a `JOIN` message carries for a shell whose `$0` is `zero` and
/// whose `$-` is `flags`.
pub open spec fn account_words(zero: Seq<char>, flags: Seq<char>) -> Seq<Seq<char>> {
    seq![
        "parent"@, "1"@,
        "shlvl"@, "5"@,
        "subshell"@, "0"@,
        "versinfo"@, array_form(versinfo_words()),
        "bash"@, "/usr/bin/bash"@,
        "zero"@, zero,
        "flags"@, flags,
        "shellopts"@, "braceexpand:hashall"@,
        "bashopts"@, "checkwinsize"@,
        "command"@, if has_char(flags, 'c') { "true"@ } else { ""@ },
        "brought"@, array_form(Seq::empty()),
    ]
}

/// The words a `JOIN` message carries. `zero` is the shell's `$0` and
/// `flags` its `$-`, which between them decide how a walk taken in it
/// reads.
pub fn account(zero: &str, flags: &str) -> (r: Vec<String>)
    ensures
        views(r@) == account_words(zero@, flags@),
        array_words(array_form(versinfo_words())) == Some(versinfo_words()),
        array_words(array_form(Seq::<Seq<char>>::empty())) == Some(Seq::<Seq<char>>::empty()),
{
    let parts: Vec<String> = vec![
        crate::text::owned("5"),
        crate::text::owned("3"),
        crate::text::owned("9"),
        crate::text::owned("1"),
        crate::text::owned("release"),
        crate::text::owned("x86_64-pc-linux-gnu"),
    ];
    assert(views(parts@) =~= versinfo_words());
    let versinfo = emit_array(parts.as_slice());
    let none: Vec<String> = Vec::new();
    assert(views(none@) =~= Seq::<Seq<char>>::empty());
    let brought = emit_array(none.as_slice());
    let command = if crate::text::contains_char(flags, 'c') {
        "true"
    } else {
        ""
    };
    let r = vec![
        crate::text::owned("parent"),
        crate::text::owned("1"),
        crate::text::owned("shlvl"),
        crate::text::owned("5"),
        crate::text::owned("subshell"),
        crate::text::owned("0"),
        crate::text::owned("versinfo"),
        versinfo,
        crate::text::owned("bash"),
        crate::text::owned("/usr/bin/bash"),
        crate::text::owned("zero"),
        crate::text::owned(zero),
        crate::text::owned("flags"),
        crate::text::owned(flags),
        crate::text::owned("shellopts"),
        crate::text::owned("braceexpand:hashall"),
        crate::text::owned("bashopts"),
        crate::text::owned("checkwinsize"),
        crate::text::owned("command"),
        crate::text::owned(command),
        crate::text::owned("brought"),
        brought,
    ];
    assert(views(r@) =~= account_words(zero@, flags@));
    r
}

/// An account built by hand reads as a shell.
proof fn lemma_account_reads(nth: usize, pid: Pid, joined: Stamp, zero: Seq<char>, flags: Seq<char>)
    requires
        array_words(array_form(versinfo_words())) == Some(versinfo_words()),
        array_words(array_form(Seq::<Seq<char>>::empty())) == Some(Seq::<Seq<char>>::empty()),
    ensures
        shell_of(nth, pid, joined, account_words(zero, flags)) is Some,
{
    reveal_strlit("parent");
    reveal_strlit("1");
    reveal_strlit("shlvl");
    reveal_strlit("5");
    reveal_strlit("subshell");
    reveal_strlit("0");
    reveal_strlit("versinfo");
    reveal_strlit("bash");
    reveal_strlit("zero");
    reveal_strlit("flags");
    reveal_strlit("shellopts");
    reveal_strlit("bashopts");
    reveal_strlit("command");
    reveal_strlit("brought");
    reveal_strlit("3");
    reveal_strlit("9");
    reveal_with_fuel(crate::rig::wire::message::field_of, 12);
    reveal_with_fuel(crate::digits::value_of, 2);
    let words = account_words(zero, flags);
    assert(crate::digits::u32_of("5"@) == Some(5u32));
    assert(crate::digits::u32_of("3"@) == Some(3u32));
    assert(crate::digits::u32_of("9"@) == Some(9u32));
    assert(crate::digits::u32_of("1"@) == Some(1u32));
    assert(crate::digits::u32_of("0"@) == Some(0u32));
    assert("parent"@.len() == 6 && "parent"@[0] == 'p');
    assert("shlvl"@.len() == 5 && "shlvl"@[0] == 's');
    assert("subshell"@.len() == 8 && "subshell"@[0] == 's');
    assert("versinfo"@.len() == 8 && "versinfo"@[0] == 'v');
    assert("bash"@.len() == 4 && "bash"@[0] == 'b');
    assert("zero"@.len() == 4 && "zero"@[0] == 'z');
    assert("flags"@.len() == 5 && "flags"@[0] == 'f');
    assert("shellopts"@.len() == 9 && "shellopts"@[0] == 's');
    assert("bashopts"@.len() == 8 && "bashopts"@[0] == 'b');
    assert("command"@.len() == 7 && "command"@[0] == 'c');
    assert("brought"@.len() == 7 && "brought"@[0] == 'b');
    let f = |k: Seq<char>| crate::rig::wire::message::field_of(words, k);
    assert(f("shlvl"@) == Some("5"@));
    assert(f("subshell"@) == Some("0"@));
    assert(f("brought"@) == Some(array_form(Seq::<Seq<char>>::empty())));
    assert(f("versinfo"@) == Some(array_form(versinfo_words())));
    assert(f("bash"@) is Some);
    assert(f("zero"@) is Some);
    assert(f("flags"@) is Some);
    assert(f("command"@) is Some);
    assert(f("shellopts"@) is Some);
    assert(f("bashopts"@) is Some);
    assert(crate::shell::version_of(array_form(versinfo_words())) is Some);
    assert(crate::shell::bash_of(words) is Some);
    assert(crate::shell::options_of(words) is Some);
}

/// A shell, as one would arrive.
pub fn shell(nth: usize, pid: u32, zero: &str, flags: &str) -> (r: Arc<Shell>)
    ensures
        shell_of(
            nth,
            Pid(pid),
            Stamp { sent_at: Micros(100), heard_at: Micros(101) },
            account_words(zero@, flags@),
        ) == Some(r@),
{
    let joined = Stamp { sent_at: Micros(100), heard_at: Micros(101) };
    let words = account(zero, flags);
    proof {
        lemma_account_reads(nth, Pid(pid), joined, zero@, flags@);
    }
    match Shell::of(nth, Pid(pid), joined, words.as_slice()) {
        Ok(shell) => Arc::new(shell),
        Err(_) => vstd::pervasive::unreached(),
    }
}

/// A shell bash was handed a file to read.
pub fn reading(zero: &str) -> (r: Arc<Shell>)
    ensures
        shell_of(
            0,
            Pid(7),
            Stamp { sent_at: Micros(100), heard_at: Micros(101) },
            account_words(zero@, "hB"@),
        ) == Some(r@),
{
    shell(0, 7, zero, "hB")
}

/// A shell bash was given its code directly, where `$0` is a word and not
/// a path.
pub fn given(zero: &str) -> (r: Arc<Shell>)
    ensures
        shell_of(
            0,
            Pid(7),
            Stamp { sent_at: Micros(100), heard_at: Micros(101) },
            account_words(zero@, "hBc"@),
        ) == Some(r@),
{
    shell(0, 7, zero, "hBc")
}

} // verus!