//! A bash contribution, as a value.
//!
//! An instrument is named bash and nothing else, so a one-off one is an
//! expression rather than a type. How questions are answered belongs to the
//! rig, which has exactly one answer for all of them.

use vstd::prelude::*;

use super::codegen::{BashSrc, Codegen};

verus! {

/// A named contribution to the bash a rig injects: the name, and what it
/// renders to under a given codegen.
pub struct Instrument<F> {
    pub name: String,
    bash: F,
}

impl<F: Fn(&Codegen) -> BashSrc> Instrument<F> {
    pub closed spec fn renderer(&self) -> F {
        self.bash
    }

    pub closed spec fn named(&self) -> Seq<char> {
        self.name@
    }

    pub fn new(name: String, bash: F) -> (r: Self)
        ensures
            r.named() == name@,
            r.renderer() == bash,
    {
        Self { name, bash }
    }

    /// What the instrument contributes under `codegen`.
    pub fn render(&self, codegen: &Codegen) -> (r: BashSrc)
        requires
            call_requires(self.renderer(), (codegen,)),
        ensures
            call_ensures(self.renderer(), (codegen,), r),
    {
        (self.bash)(codegen)
    }
}

/// An instrument that is nothing but bash source.
pub fn text(name: String, src: String) -> (r: Instrument<impl Fn(&Codegen) -> BashSrc>)
    ensures
        r.named() == name@,
        forall|c: &Codegen| call_requires(r.renderer(), (c,)),
        forall|c: &Codegen, b: BashSrc| call_ensures(r.renderer(), (c,), b) ==> b@ == src@,
{
    let bash = move |codegen: &Codegen| -> (b: BashSrc)
        ensures
            b@ == src@,
    { BashSrc::raw(src.clone()) };
    Instrument { name, bash }
}

} // verus!
