//! Bash's own quoted forms, from the `bash-strings` crate: one array literal
//! read back into its words, and words written as one.
//!
//! What a form reads as, and how a word is written, are named here rather
//! than restated: the grammar is the crate's, and it is called, not copied.

use vstd::prelude::*;

use crate::text::{has_char, joined, views};

verus! {

#[verifier::external_type_specification]
#[verifier::external_body]
pub struct ExParseError(bash_strings::ParseError);

/// What `bash_strings::parse_array` reads `text` as: the words of one array
/// literal, or `None` where the text is not one.
pub uninterp spec fn array_words(text: Seq<char>) -> Option<Seq<Seq<char>>>;

/// What `bash_strings::emit_scalar` writes for one word.
pub uninterp spec fn scalar_form(word: Seq<char>) -> Seq<char>;

/// A word with every `'` written `'\''`, as a single-quoted form needs.
pub open spec fn quotes_escaped(s: Seq<char>) -> Seq<char>
    decreases s.len(),
{
    if s.len() == 0 {
        Seq::empty()
    } else if s.last() == '\'' {
        quotes_escaped(s.drop_last()) + seq!['\'', '\\', '\'', '\'']
    } else {
        quotes_escaped(s.drop_last()).push(s.last())
    }
}

/// A word holding nothing below a space and no DEL: one `emit_scalar` writes
/// single-quoted rather than in the `$'…'` form.
pub open spec fn printable(s: Seq<char>) -> bool {
    forall|i: int| 0 <= i < s.len() ==> (#[trigger] s[i] as u32) >= 0x20 && (s[i] as u32) != 0x7f
}

/// The array literal of `words`: their scalar forms, one space apart, in
/// parentheses.
pub open spec fn array_form(words: Seq<Seq<char>>) -> Seq<char> {
    seq!['('] + joined(words.map_values(|w: Seq<char>| scalar_form(w)), seq![' ']) + seq![')']
}

/// `bash_strings::parse_array`: the words of one array literal. The error is
/// the crate's own and says where the text stopped reading; which position
/// that is, is not stated here.
#[verifier::external_body]
pub fn parse_array(text: &str) -> (r: Result<Vec<String>, bash_strings::ParseError>)
    ensures
        match r {
            Ok(words) => array_words(text@) == Some(views(words@)),
            Err(_) => array_words(text@) is None,
        },
{
    bash_strings::parse_array(text)
}

/// `bash_strings::emit_scalar`: one word in bash's canonical quoted form.
/// The source writes the empty word `''`, a printable word between single
/// quotes with each `'` as `'\''`, and any other in the `$'…'` form with its
/// control characters escaped — so no form holds a raw newline.
#[verifier::external_body]
pub fn emit_scalar(word: &str) -> (r: String)
    ensures
        r@ == scalar_form(word@),
        word@.len() == 0 ==> r@ == seq!['\'', '\''],
        word@.len() > 0 && printable(word@) ==> r@ == seq!['\''] + quotes_escaped(word@) + seq!['\''],
        !has_char(r@, '\n'),
{
    bash_strings::emit_scalar(word)
}

/// `bash_strings::emit_array`: the words as one array literal. Its
/// documentation makes it the inverse of `parse_array`, and its scalars hold
/// no raw newline, so neither does the literal.
#[verifier::external_body]
pub fn emit_array(words: &[String]) -> (r: String)
    ensures
        r@ == array_form(views(words@)),
        array_words(r@) == Some(views(words@)),
        !has_char(r@, '\n'),
{
    bash_strings::emit_array(words)
}

} // verus!
