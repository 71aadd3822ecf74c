//! The control fifo: every shell writes its token here, once. What the run
//! reads off it is checked here; the fifo itself is the run's.

use vstd::prelude::*;

use crate::failure::Failure;
use crate::text::{has_char, is_white};

verus! {

/// Whether a token can name the two files it names in the workspace: not
/// empty, and no slash, no NUL and no whitespace in it.
pub open spec fn names_a_file(text: Seq<char>) -> bool {
    &&& text.len() > 0
    &&& !has_char(text, '/')
    &&& !has_char(text, '\0')
    &&& forall|i: int| 0 <= i < text.len() ==> !is_white(#[trigger] text[i])
}

/// A token names two files in the workspace, so it must be able to.
pub fn token(text: String) -> (r: Result<String, Failure>)
    ensures
        match r {
            Ok(t) => names_a_file(text@) && t@ == text@,
            Err(f) => !names_a_file(text@) && f.spec_doing() == "reading the control fifo"@
                && f.spec_cause() == super::super::control::debug_quoted(text@) + " is not a token"@,
        },
{
    let cs = crate::text::chars_of(text.as_str());
    let mut fine = cs.len() > 0;
    let mut i: usize = 0;
    while i < cs.len()
        invariant
            i <= cs@.len(),
            cs@ == text@,
            fine == (cs@.len() > 0 && forall|j: int|
                0 <= j < i ==> cs@[j] != '/' && cs@[j] != '\0' && !is_white(#[trigger] cs@[j])),
        decreases cs@.len() - i,
    {
        let c = cs[i];
        if c == '/' || c == '\0' || crate::text::white(c) {
            fine = false;
        }
        i = i + 1;
    }
    if fine {
        Ok(text)
    } else {
        let mut cause = super::super::control::quoted(text.as_str());
        crate::text::push_str(&mut cause, " is not a token");
        Err(Failure::new(crate::text::owned("reading the control fifo"), cause))
    }
}

} // verus!
