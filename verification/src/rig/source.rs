//! The bash every participating shell sources.

use vstd::prelude::*;

pub use super::codegen::{Asset, BashSrc};
use super::codegen::src::seq_text;
use super::wire::FRAME_LIMIT;
use crate::digits::decimal;
use crate::quoting::{emit_scalar, scalar_form};

verus! {

/// The prelude a shell sources: where its pipe and its workspace are, how
/// long a frame may be, whether it traces, then the protocol's bash and the
/// rig's.
pub open spec fn prelude_text(
    bash: Seq<char>,
    debug: bool,
    dir: Seq<char>,
    up: Seq<char>,
    wire: Seq<char>,
) -> Seq<char> {
    seq_text(
        seq![
            "__BC__UP="@ + scalar_form(up),
            "__BC__DIR="@ + scalar_form(dir),
            "__BC__limit="@ + decimal(FRAME_LIMIT as nat),
            "__BC__DEBUG="@ + if debug {
                "1"@
            } else {
                ""@
            },
            wire,
            bash,
        ],
    )
}

/// The prelude for a rig whose bash is `bash`, its pipe at `up` in the
/// workspace `dir`; `wire` is the protocol's own bash, shipped verbatim.
pub fn prelude(bash: &BashSrc, debug: bool, dir: &str, up: &str, wire: &str) -> (r: BashSrc)
    ensures
        r@ == prelude_text(bash@, debug, dir@, up@, wire@),
{
    let mut first = crate::text::owned("__BC__UP=");
    let q = emit_scalar(up);
    crate::text::push_str(&mut first, q.as_str());
    let mut second = crate::text::owned("__BC__DIR=");
    let q = emit_scalar(dir);
    crate::text::push_str(&mut second, q.as_str());
    let mut third = crate::text::owned("__BC__limit=");
    let limit = crate::digits::decimal_text(FRAME_LIMIT as u64);
    crate::text::push_str(&mut third, limit.as_str());
    let mut fourth = crate::text::owned("__BC__DEBUG=");
    if debug {
        crate::text::push_str(&mut fourth, "1");
    } else {
        crate::text::push_str(&mut fourth, "");
    }
    let ghost views = seq![first@, second@, third@, fourth@, wire@, bash@];
    let parts = vec![
        BashSrc::raw(first),
        BashSrc::raw(second),
        BashSrc::raw(third),
        BashSrc::raw(fourth),
        BashSrc::raw(crate::text::owned(wire)),
        bash.clone(),
    ];
    assert(super::codegen::src::src_views(parts@) =~~= views);
    assert(views =~~= seq![
        "__BC__UP="@ + scalar_form(up@),
        "__BC__DIR="@ + scalar_form(dir@),
        "__BC__limit="@ + decimal(FRAME_LIMIT as nat),
        "__BC__DEBUG="@ + if debug {
            "1"@
        } else {
            ""@
        },
        wire@,
        bash@,
    ]);
    BashSrc::seq(parts)
}

} // verus!
