//! What an instrument may answer when a shell asks.

use vstd::prelude::*;

use super::record::Record;

verus! {

/// `format!("{:?}", s)`: a string as Rust's `Debug` writes it, quoted and
/// escaped.
pub uninterp spec fn debug_quoted(s: Seq<char>) -> Seq<char>;

/// `<str as Debug>::fmt`, through `format!`: the text quoted, with the
/// escapes `char::escape_debug` gives.
#[verifier::external_body]
pub(crate) fn quoted(s: &str) -> (r: String)
    ensures
        r@ == debug_quoted(s@),
{
    format!("{s:?}")
}

/// The answer to a breakpoint. `Source` hands back code the asking shell
/// runs in its own scope; the others just set the status `BC_INSTR` returns.
#[derive(Clone, PartialEq, Eq, Debug)]
pub enum Reply {
    Continue { status: i32 },
    Source { body: String },
    Fail { message: String, status: i32 },
}

impl Reply {
    /// The answer for a verb nobody claimed. Loud, and distinguishable from
    /// anything a verb would choose.
    pub fn unknown_verb(verb: &str) -> (r: Self)
        ensures
            r matches Reply::Fail { message, status } && status == 127 && message@ == "unknown verb "@
                + debug_quoted(verb@),
    {
        let mut message = crate::text::owned("unknown verb ");
        let q = quoted(verb);
        crate::text::push_str(&mut message, q.as_str());
        Reply::Fail { message, status: 127 }
    }
}

/// A named way of answering an ask: the name a shell asks by, and the
/// function that answers it.
pub struct Verb<F> {
    pub name: String,
    handle: F,
}

impl<F: Fn(&Record) -> Reply> Verb<F> {
    pub fn new(name: String, handle: F) -> (r: Self)
        ensures
            r.name() == name@,
            r.handler() == handle,
    {
        Self { name, handle }
    }

    pub closed spec fn handler(&self) -> F {
        self.handle
    }

    /// The name a shell asks by.
    pub closed spec fn name(&self) -> Seq<char> {
        self.name@
    }

    /// What the verb answers `ask` with.
    pub fn answer(&self, ask: &Record) -> (r: Reply)
        requires
            call_requires(self.handler(), (ask,)),
        ensures
            call_ensures(self.handler(), (ask,), r),
    {
        (self.handle)(ask)
    }
}

/// An ask names its verb first; the rest is that verb's arguments.
pub fn verb_of(ask: &Record) -> (r: &str)
    ensures
        r@ == if ask.args@.len() > 0 {
            ask.args@[0]@
        } else {
            Seq::<char>::empty()
        },
{
    if ask.args.len() > 0 {
        ask.args[0].as_str()
    } else {
        proof {
            reveal_strlit("");
        }
        ""
    }
}

/// The asked verb's spelling: the first argument, or nothing.
pub open spec fn asked_verb(ask: Seq<Seq<char>>) -> Seq<char> {
    if ask.len() > 0 {
        ask[0]
    } else {
        Seq::empty()
    }
}

/// The first of the verbs answering to `name`.
pub open spec fn first_named<F: Fn(&Record) -> Reply>(verbs: Seq<Verb<F>>, name: Seq<char>) -> Option<int>
    decreases verbs.len(),
{
    if verbs.len() == 0 {
        None
    } else {
        match first_named(verbs.drop_last(), name) {
            Some(i) => Some(i),
            None => if verbs.last().name() == name {
                Some(verbs.len() - 1)
            } else {
                None
            },
        }
    }
}

/// An ask answered: by the first verb of its name, or, where none answers
/// to it, as an unknown verb.
pub fn answer<F: Fn(&Record) -> Reply>(verbs: &[Verb<F>], ask: &Record) -> (r: Reply)
    requires
        forall|i: int| 0 <= i < verbs@.len() ==> call_requires(#[trigger] verbs@[i].handler(), (ask,)),
    ensures
        match first_named(verbs@, asked_verb(crate::text::views(ask.args@))) {
            Some(i) => call_ensures(verbs@[i].handler(), (ask,), r),
            None => r matches Reply::Fail { message, status } && status == 127 && message@
                == "unknown verb "@ + debug_quoted(asked_verb(crate::text::views(ask.args@))),
        },
{
    let name = verb_of(ask);
    let ghost wanted = asked_verb(crate::text::views(ask.args@));
    assert(name@ == wanted);
    let mut k: usize = 0;
    while k < verbs.len()
        invariant
            k <= verbs@.len(),
            name@ == wanted,
            wanted == asked_verb(crate::text::views(ask.args@)),
            first_named(verbs@.take(k as int), wanted) is None,
            forall|i: int| 0 <= i < verbs@.len() ==> call_requires(#[trigger] verbs@[i].handler(), (ask,)),
        decreases verbs@.len() - k,
    {
        proof {
            assert(verbs@.take(k + 1).drop_last() =~= verbs@.take(k as int));
        }
        assert(verbs@[k as int].name() == verbs@[k as int].name@);
        if crate::text::same(verbs[k].name.as_str(), name) {
            proof {
                assert(first_named(verbs@.take(k + 1), wanted) == Some(k as int));
                lemma_first_named_prefix(verbs@, wanted, k + 1);
            }
            let r = verbs[k].answer(ask);
            assert(first_named(verbs@, wanted) == Some(k as int));
            return r;
        }
        k = k + 1;
    }
    assert(verbs@.take(verbs@.len() as int) =~= verbs@);
    Reply::unknown_verb(name)
}

proof fn lemma_first_named_prefix<F: Fn(&Record) -> Reply>(verbs: Seq<Verb<F>>, name: Seq<char>, n: int)
    requires
        0 <= n <= verbs.len(),
        first_named(verbs.take(n), name) is Some,
    ensures
        first_named(verbs, name) == first_named(verbs.take(n), name),
    decreases verbs.len() - n,
{
    if n < verbs.len() {
        assert(verbs.take(n + 1).drop_last() =~= verbs.take(n));
        lemma_first_named_prefix(verbs, name, n + 1);
    } else {
        assert(verbs.take(n) =~= verbs);
    }
}

} // verus!