//! What a blocked shell is told to run next, as the single-pipe run writes
//! it: a command and its arguments, one message.

use vstd::prelude::*;

use crate::digits::signed_decimal;
use crate::quoting::{array_form, array_words, emit_array};
use crate::text::{has_char, views};

verus! {

#[derive(Clone, PartialEq, Eq, Debug)]
pub struct Reply(Vec<String>);

impl View for Reply {
    type V = Seq<Seq<char>>;

    closed spec fn view(&self) -> Seq<Seq<char>> {
        views(self.0@)
    }
}

impl Reply {
    pub fn of(words: Vec<String>) -> (r: Self)
        ensures
            r@ == views(words@),
    {
        Self(words)
    }

    /// `return <code>`: the ask returns that status.
    pub fn status(code: i32) -> (r: Self)
        ensures
            r@ == seq!["return"@, signed_decimal(code as int)],
    {
        let words = vec![crate::text::owned("return"), crate::digits::signed_text(code)];
        assert(views(words@) =~= seq!["return"@, signed_decimal(code as int)]);
        Self(words)
    }

    /// `source <path>`: the ask runs the file in its own scope.
    pub fn source(path: &str) -> (r: Self)
        ensures
            r@ == seq!["source"@, path@],
    {
        let words = vec![crate::text::owned("source"), crate::text::owned(path)];
        assert(views(words@) =~= seq!["source"@, path@]);
        Self(words)
    }

    pub fn words(&self) -> (r: &[String])
        ensures
            views(r@) == self@,
    {
        self.0.as_slice()
    }

    /// The reply as one message: an array literal, which reads back as the
    /// words and holds no newline.
    pub fn to_message(&self) -> (s: String)
        ensures
            s@ == array_form(self@),
            array_words(s@) == Some(self@),
            !has_char(s@, '\n'),
    {
        emit_array(self.0.as_slice())
    }
}

} // verus!
