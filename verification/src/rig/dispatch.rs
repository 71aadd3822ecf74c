//! Records calls to bash functions matched by a literal prefix.
//!
//! `Dispatch::new().on(&["DSL", "^"], "DSL")` defines a bash function `DSL`
//! that matches `^` as its first argument, shifts it out, and records
//! `["DSL", …remaining args]`. Prefixes sharing a leading word compile into
//! one function with nested `case` dispatch.

use indexmap::IndexMap;

use vstd::prelude::*;

use super::codegen::src::{case_text, func_text, seq_text, src_views, arm_views};
use super::codegen::{guard_text, send_text, BashSrc, Codegen};
use super::wire::framing::kind_word;
use super::wire::Kind;
use crate::digits::decimal;
use crate::quoting::{emit_scalar, scalar_form};
use crate::text::views;

verus! {

#[verifier::external_type_specification]
#[verifier::external_body]
#[verifier::reject_recursive_types(K)]
#[verifier::reject_recursive_types(V)]
#[verifier::reject_recursive_types(S)]
pub struct ExIndexMap<K, V, S>(IndexMap<K, V, S>);

/// What an index of words holds, in its order: each word with the number it
/// was given.
pub uninterp spec fn entries_of(m: IndexMap<String, usize>) -> Seq<(Seq<char>, usize)>;

/// No word is in the index twice.
pub open spec fn unique_keys(entries: Seq<(Seq<char>, usize)>) -> bool {
    forall|i: int, j: int|
        0 <= i < entries.len() && 0 <= j < entries.len() && i != j ==> entries[i].0 != entries[j].0
}

/// `IndexMap::new`: an index holding nothing.
#[verifier::external_body]
fn index_new() -> (r: IndexMap<String, usize>)
    ensures
        entries_of(r) == Seq::<(Seq<char>, usize)>::empty(),
{
    IndexMap::new()
}

/// `IndexMap::get`: the number a word was given, where the index holds it.
#[verifier::external_body]
fn index_get(m: &IndexMap<String, usize>, key: &str) -> (r: Option<usize>)
    ensures
        match r {
            Some(v) => exists|i: int|
                0 <= i < entries_of(*m).len() && entries_of(*m)[i].0 == key@ && entries_of(*m)[i].1
                    == v,
            None => forall|i: int|
                0 <= i < entries_of(*m).len() ==> entries_of(*m)[i].0 != key@,
        },
{
    m.get(key).copied()
}

/// `IndexMap::insert`: a word new to the index goes last; one it holds keeps
/// its place and takes the new number, the old one handed back. No word is
/// ever held twice.
#[verifier::external_body]
fn index_insert(m: &mut IndexMap<String, usize>, key: String, value: usize) -> (r: Option<usize>)
    ensures
        unique_keys(entries_of(*old(m))) ==> unique_keys(entries_of(*final(m))),
        (forall|i: int| 0 <= i < entries_of(*old(m)).len() ==> entries_of(*old(m))[i].0 != key@)
            ==> entries_of(*final(m)) == entries_of(*old(m)).push((key@, value)) && r is None,
        forall|i: int|
            0 <= i < entries_of(*old(m)).len() && entries_of(*old(m))[i].0 == key@ ==> entries_of(
                *final(m),
            ) == entries_of(*old(m)).update(i, (key@, value)) && r == Some(entries_of(*old(m))[i].1),
{
    m.insert(key, value)
}

const RECORD_ARRAY: &'static str = "__bc_dispatch_rec";

#[derive(Debug)]
struct Route {
    matched: Vec<String>,
    tag: String,
}

/// A route as the contracts read it: the words it matches, and its tag.
pub type RouteView = (Seq<Seq<char>>, Seq<char>);

spec fn route_views(routes: Seq<Route>) -> Seq<RouteView> {
    routes.map_values(|r: Route| (views(r.matched@), r.tag@))
}

pub struct Dispatch {
    routes: Vec<Route>,
}

impl View for Dispatch {
    type V = Seq<RouteView>;

    closed spec fn view(&self) -> Seq<RouteView> {
        route_views(self.routes@)
    }
}

/// Whether `a` is `b`, or a prefix of it.
pub open spec fn leads(a: Seq<Seq<char>>, b: Seq<Seq<char>>) -> bool {
    a.len() <= b.len() && b.take(a.len() as int) == a
}

/// No route's words are another's, or lead them: a call could not tell
/// which one it was.
pub open spec fn prefix_free(routes: Seq<RouteView>) -> bool {
    forall|a: int, b: int|
        0 <= a < routes.len() && 0 <= b < routes.len() && a != b ==> !leads(
            routes[a].0,
            routes[b].0,
        )
}

/// Each word once, in the order it first occurs.
pub open spec fn first_seen(words: Seq<Seq<char>>) -> Seq<Seq<char>>
    decreases words.len(),
{
    if words.len() == 0 {
        Seq::empty()
    } else {
        let seen = first_seen(words.drop_last());
        if seen.contains(words.last()) {
            seen
        } else {
            seen.push(words.last())
        }
    }
}

/// The word each member route matches at `depth`.
pub open spec fn keys_at(routes: Seq<RouteView>, members: Seq<usize>, depth: int) -> Seq<Seq<char>>
    decreases members.len(),
{
    if members.len() == 0 {
        Seq::empty()
    } else {
        keys_at(routes, members.drop_last(), depth).push(routes[members.last() as int].0[depth])
    }
}

/// The members whose word at `depth` is `word`, in order.
pub open spec fn with_word(routes: Seq<RouteView>, members: Seq<usize>, depth: int, word: Seq<char>) -> Seq<
    usize,
>
    decreases members.len(),
{
    if members.len() == 0 {
        Seq::empty()
    } else if routes[members.last() as int].0[depth] == word {
        with_word(routes, members.drop_last(), depth, word).push(members.last())
    } else {
        with_word(routes, members.drop_last(), depth, word)
    }
}

/// The members whose words end at `depth`, in order.
pub open spec fn terminals(routes: Seq<RouteView>, members: Seq<usize>, depth: int) -> Seq<usize>
    decreases members.len(),
{
    if members.len() == 0 {
        Seq::empty()
    } else if routes[members.last() as int].0.len() == depth {
        terminals(routes, members.drop_last(), depth).push(members.last())
    } else {
        terminals(routes, members.drop_last(), depth)
    }
}

/// What an emit of the record array is.
pub open spec fn emit_text(array: Seq<char>, debug: bool) -> Seq<char> {
    seq_text(seq![guard_text(), send_text(array, kind_word(Kind::Say), debug)])
}

/// Recording the arguments under `tag`.
pub open spec fn record_text(tag: Seq<char>, debug: bool) -> Seq<char> {
    seq_text(
        seq![
            "local -a __bc_dispatch_rec=("@ + scalar_form(tag) + " \"$@\")"@,
            emit_text("__bc_dispatch_rec"@, debug),
        ],
    )
}

/// The variable a level's matched word is held in.
pub open spec fn level_var(depth: nat) -> Seq<char> {
    "__bc_dispatch_d"@ + decimal(depth)
}

/// The bash a trie node renders to: a member whose words end here records;
/// otherwise the next word is matched, shifted out, and dispatched on.
pub open spec fn trie_text(
    routes: Seq<RouteView>,
    members: Seq<usize>,
    depth: nat,
    limit: nat,
    debug: bool,
) -> Seq<char>
    decreases limit - depth, 1int, 0int,
{
    if depth > limit {
        Seq::empty()
    } else {
        let ends = terminals(routes, members, depth as int);
        if ends.len() > 0 {
            record_text(routes[ends[0] as int].1, debug)
        } else {
            let words = first_seen(keys_at(routes, members, depth as int));
            seq_text(
                seq![
                    "local "@ + level_var(depth) + "=\"$1\""@,
                    "shift || return 2"@,
                    case_text(
                        "\"$"@ + level_var(depth) + "\""@,
                        arms_of(routes, members, depth, limit, debug, words, words.len() as int),
                    ),
                ],
            )
        }
    }
}

/// The first `k` arms of a node's `case`, one per word.
pub open spec fn arms_of(
    routes: Seq<RouteView>,
    members: Seq<usize>,
    depth: nat,
    limit: nat,
    debug: bool,
    words: Seq<Seq<char>>,
    k: int,
) -> Seq<(Seq<char>, Seq<char>)>
    decreases limit - depth, 0int, k,
{
    if k <= 0 || depth >= limit {
        Seq::empty()
    } else {
        arms_of(routes, members, depth, limit, debug, words, k - 1).push(
            (
                scalar_form(words[k - 1]),
                trie_text(
                    routes,
                    with_word(routes, members, depth as int, words[k - 1]),
                    depth + 1,
                    limit,
                    debug,
                ),
            ),
        )
    }
}

/// The longest list of words among the routes.
pub open spec fn longest(routes: Seq<RouteView>) -> nat
    decreases routes.len(),
{
    if routes.len() == 0 {
        0
    } else {
        let rest = longest(routes.drop_last());
        if routes.last().0.len() > rest {
            routes.last().0.len()
        } else {
            rest
        }
    }
}

/// Every route.
pub open spec fn everyone(n: nat) -> Seq<usize> {
    Seq::new(n, |i: int| i as usize)
}

/// The first `k` function definitions, one per leading word.
pub open spec fn functions_of(
    routes: Seq<RouteView>,
    names: Seq<Seq<char>>,
    debug: bool,
    k: int,
) -> Seq<Seq<char>>
    decreases k,
{
    if k <= 0 {
        Seq::empty()
    } else {
        functions_of(routes, names, debug, k - 1).push(
            func_text(
                names[k - 1],
                trie_text(
                    routes,
                    with_word(routes, everyone(routes.len()), 0, names[k - 1]),
                    1,
                    longest(routes),
                    debug,
                ),
            ),
        )
    }
}

/// The bash a dispatch renders to: one function per leading word, in the
/// order the words were first routed.
pub open spec fn dispatch_text(routes: Seq<RouteView>, debug: bool) -> Seq<char> {
    let names = first_seen(keys_at(routes, everyone(routes.len()), 0));
    seq_text(functions_of(routes, names, debug, names.len() as int))
}

pub open spec fn str_views(words: Seq<&str>) -> Seq<Seq<char>> {
    words.map_values(|w: &str| w@)
}

pub open spec fn increasing(members: Seq<usize>) -> bool {
    forall|i: int, j: int| 0 <= i < j < members.len() ==> members[i] < members[j]
}

proof fn lemma_longest(routes: Seq<RouteView>)
    ensures
        forall|i: int| 0 <= i < routes.len() ==> (#[trigger] routes[i]).0.len() <= longest(routes),
    decreases routes.len(),
{
    if routes.len() > 0 {
        lemma_longest(routes.drop_last());
        assert forall|i: int| 0 <= i < routes.len() implies (#[trigger] routes[i]).0.len() <= longest(
            routes,
        ) by {
            if i < routes.len() - 1 {
                assert(routes[i] == routes.drop_last()[i]);
            }
        }
    }
}

proof fn lemma_with_word(routes: Seq<RouteView>, members: Seq<usize>, depth: int, word: Seq<char>)
    ensures
        forall|i: int|
            0 <= i < with_word(routes, members, depth, word).len() ==> members.contains(
                #[trigger] with_word(routes, members, depth, word)[i],
            ) && routes[with_word(routes, members, depth, word)[i] as int].0[depth] == word,
        increasing(members) ==> increasing(with_word(routes, members, depth, word)),
        with_word(routes, members, depth, word).len() <= members.len(),
    decreases members.len(),
{
    if members.len() > 0 {
        let rest = members.drop_last();
        lemma_with_word(routes, rest, depth, word);
        let sub = with_word(routes, rest, depth, word);
        let all = with_word(routes, members, depth, word);
        assert forall|i: int| 0 <= i < all.len() implies members.contains(#[trigger] all[i])
            && routes[all[i] as int].0[depth] == word by {
            if i < sub.len() {
                assert(all[i] == sub[i]);
                assert(rest.contains(sub[i]));
                let j = choose|j: int| 0 <= j < rest.len() && rest[j] == sub[i];
                assert(members[j] == rest[j]);
            } else {
                assert(all[i] == members.last());
                assert(members[members.len() - 1] == members.last());
            }
        }
        if increasing(members) {
            assert(increasing(rest));
            assert forall|i: int, j: int| 0 <= i < j < all.len() implies all[i] < all[j] by {
                if j < sub.len() {
                    assert(all[i] == sub[i] && all[j] == sub[j]);
                } else {
                    assert(all[i] == sub[i]);
                    let k = choose|k: int| 0 <= k < rest.len() && rest[k] == sub[i];
                    assert(members[k] == rest[k]);
                    assert(all[j] == members[members.len() - 1]);
                }
            }
        }
    }
}

/// The words the members match at `depth`, each once, in the order first
/// met.
fn words_at(routes: &[Route], members: &[usize], depth: usize) -> (r: Vec<String>)
    requires
        forall|i: int| 0 <= i < members@.len() ==> (#[trigger] members@[i]) < routes@.len() && depth
            < routes@[members@[i] as int].matched@.len(),
    ensures
        views(r@) == first_seen(keys_at(route_views(routes@), members@, depth as int)),
{
    let ghost rv = route_views(routes@);
    let mut index = index_new();
    let mut out: Vec<String> = Vec::new();
    for k in 0..members.len()
        invariant
            rv == route_views(routes@),
            forall|i: int| 0 <= i < members@.len() ==> (#[trigger] members@[i]) < routes@.len() && depth
                < routes@[members@[i] as int].matched@.len(),
            unique_keys(entries_of(index)),
            entries_of(index).len() == out@.len(),
            forall|i: int|
                0 <= i < out@.len() ==> #[trigger] entries_of(index)[i] == (out@[i]@, i as usize),
            views(out@) == first_seen(keys_at(rv, members@.take(k as int), depth as int)),
    {
        let m = members[k];
        let word = routes[m].matched[depth].clone();
        proof {
            assert(members@.take(k + 1).drop_last() =~= members@.take(k as int));
            assert(rv[m as int].0[depth as int] == word@);
        }
        let ghost seen = views(out@);
        proof {
            let ks = keys_at(rv, members@.take(k as int), depth as int);
            assert(keys_at(rv, members@.take(k + 1), depth as int) == ks.push(word@));
            assert(ks.push(word@).drop_last() =~= ks);
        }
        match index_get(&index, word.as_str()) {
            Some(_) => {
                proof {
                    let i = choose|i: int|
                        0 <= i < entries_of(index).len() && entries_of(index)[i].0 == word@;
                    assert(entries_of(index)[i] == (out@[i]@, i as usize));
                    assert(seen[i] == word@);
                    assert(seen.contains(word@));
                }
            },
            None => {
                proof {
                    assert forall|i: int| 0 <= i < seen.len() implies seen[i] != word@ by {
                        assert(entries_of(index)[i] == (out@[i]@, i as usize));
                    }
                    assert(!seen.contains(word@));
                }
                let count = out.len();
                let ghost before = entries_of(index);
                index_insert(&mut index, word.clone(), count);
                out.push(word);
                proof {
                    assert(views(out@) =~= seen.push(word@));
                    assert forall|i: int| 0 <= i < out@.len() implies #[trigger] entries_of(index)[i]
                        == (out@[i]@, i as usize) by {
                        if i < count {
                            assert(entries_of(index)[i] == before[i]);
                        }
                    }
                }
            },
        }
    }
    assert(members@.take(members.len() as int) =~= members@);
    out
}

/// The members whose word at `depth` is `word`, in order.
fn members_with(routes: &[Route], members: &[usize], depth: usize, word: &str) -> (r: Vec<usize>)
    requires
        forall|i: int| 0 <= i < members@.len() ==> (#[trigger] members@[i]) < routes@.len() && depth
            < routes@[members@[i] as int].matched@.len(),
    ensures
        r@ == with_word(route_views(routes@), members@, depth as int, word@),
{
    let ghost rv = route_views(routes@);
    let mut out: Vec<usize> = Vec::new();
    for k in 0..members.len()
        invariant
            rv == route_views(routes@),
            forall|i: int| 0 <= i < members@.len() ==> (#[trigger] members@[i]) < routes@.len() && depth
                < routes@[members@[i] as int].matched@.len(),
            out@ == with_word(rv, members@.take(k as int), depth as int, word@),
    {
        let m = members[k];
        proof {
            assert(members@.take(k + 1).drop_last() =~= members@.take(k as int));
            assert(rv[m as int].0[depth as int] == routes@[m as int].matched@[depth as int]@);
        }
        if crate::text::same(routes[m].matched[depth].as_str(), word) {
            out.push(m);
        }
    }
    assert(members@.take(members.len() as int) =~= members@);
    out
}

/// The bash for the routes in `members`, every one agreeing on its first
/// `depth` words: the one whose words end there records; otherwise the next
/// word is matched, shifted out, and each group of routes that agree on it
/// dispatched on in turn.
fn body(
    routes: &[Route],
    members: Vec<usize>,
    depth: usize,
    codegen: &Codegen,
    Ghost(limit): Ghost<nat>,
) -> (r: BashSrc)
    requires
        prefix_free(route_views(routes@)),
        depth <= limit,
        increasing(members@),
        forall|i: int|
            0 <= i < members@.len() ==> (#[trigger] members@[i]) < routes@.len() && depth
                <= routes@[members@[i] as int].matched@.len() <= limit,
        forall|i: int, j: int|
            0 <= i < members@.len() && 0 <= j < members@.len() ==> route_views(routes@)[members@[i] as int].0.take(
                depth as int,
            ) == route_views(routes@)[members@[j] as int].0.take(depth as int),
    ensures
        r@ == trie_text(route_views(routes@), members@, depth as nat, limit, codegen.is_debugging()),
    decreases limit - depth,
{
    let ghost rv = route_views(routes@);
    let ghost debug = codegen.is_debugging();
    if members.len() == 1 && routes[members[0]].matched.len() == depth {
        let m = members[0];
        proof {
            assert(members@.drop_last() =~= Seq::<usize>::empty());
            assert(members@.last() == m);
            assert(rv[m as int].0.len() == depth);
            assert(terminals(rv, members@.drop_last(), depth as int) =~= Seq::<usize>::empty());
            assert(terminals(rv, members@, depth as int) =~= seq![m]);
        }
        let mut line = crate::text::owned("local -a __bc_dispatch_rec=(");
        let quoted = emit_scalar(routes[m].tag.as_str());
        crate::text::push_str(&mut line, quoted.as_str());
        crate::text::push_str(&mut line, " \"$@\")");
        let ghost first = line@;
        let parts = vec![BashSrc::raw(line), codegen.emit(RECORD_ARRAY)];
        assert(src_views(parts@) =~~= seq![first, emit_text("__bc_dispatch_rec"@, debug)]);
        return BashSrc::seq(parts);
    }
    proof {
        lemma_no_terminal(rv, members@, depth as int);
    }
    let words = words_at(routes, members.as_slice(), depth);
    let ghost spelled = views(words@);
    proof {
        if members@.len() == 0 {
            assert(keys_at(rv, members@, depth as int) =~= Seq::<Seq<char>>::empty());
        }
    }
    let mut arms: Vec<(String, BashSrc)> = Vec::new();
    for g in 0..words.len()
        invariant
            rv == route_views(routes@),
            debug == codegen.is_debugging(),
            prefix_free(rv),
            depth <= limit,
            increasing(members@),
            forall|i: int|
                0 <= i < members@.len() ==> (#[trigger] members@[i]) < routes@.len() && depth
                    < routes@[members@[i] as int].matched@.len() <= limit,
            forall|i: int, j: int|
                0 <= i < members@.len() && 0 <= j < members@.len() ==> rv[members@[i] as int].0.take(
                    depth as int,
                ) == rv[members@[j] as int].0.take(depth as int),
            spelled == views(words@),
            spelled == first_seen(keys_at(rv, members@, depth as int)),
            words@.len() > 0 ==> members@.len() > 0,
            arm_views(arms@) == arms_of(rv, members@, depth as nat, limit, debug, spelled, g as int),
    {
        let sub = members_with(routes, members.as_slice(), depth, words[g].as_str());
        let ghost word = spelled[g as int];
        proof {
            assert(words@[g as int]@ == word);
            lemma_with_word(rv, members@, depth as int, word);
            assert(depth + 1 <= limit) by {
                assert(members@.len() > 0);
                assert(depth < routes@[members@[0] as int].matched@.len() <= limit);
            }
            assert forall|i: int, j: int| 0 <= i < sub@.len() && 0 <= j < sub@.len() implies rv[sub@[i] as int].0.take(
                depth + 1,
            ) == rv[sub@[j] as int].0.take(depth + 1) by {
                let a = sub@[i];
                let b = sub@[j];
                assert(members@.contains(a) && members@.contains(b));
                let x = choose|x: int| 0 <= x < members@.len() && members@[x] == a;
                let y = choose|y: int| 0 <= y < members@.len() && members@[y] == b;
                assert(rv[a as int].0.take(depth as int) == rv[b as int].0.take(depth as int));
                assert(rv[a as int].0[depth as int] == word && rv[b as int].0[depth as int] == word);
                assert(rv[a as int].0.take(depth + 1) =~= rv[a as int].0.take(depth as int).push(word));
                assert(rv[b as int].0.take(depth + 1) =~= rv[b as int].0.take(depth as int).push(word));
            }
            assert forall|i: int| 0 <= i < sub@.len() implies (#[trigger] sub@[i]) < routes@.len() && depth
                + 1 <= routes@[sub@[i] as int].matched@.len() <= limit by {
                let x = choose|x: int| 0 <= x < members@.len() && members@[x] == sub@[i];
                assert(members@[x] == sub@[i]);
            }
        }
        let top = routes[members[0]].matched.len();
        assert(depth < top);
        let child = body(routes, sub, depth + 1, codegen, Ghost(limit));
        let quoted = emit_scalar(words[g].as_str());
        let ghost before = arm_views(arms@);
        arms.push((quoted, child));
        proof {
            assert(arm_views(arms@) =~= before.push(arm_views(arms@).last()));
        }
    }
    let number = crate::digits::decimal_text(depth as u64);
    let mut name = crate::text::owned("__bc_dispatch_d");
    crate::text::push_str(&mut name, number.as_str());
    let mut local = crate::text::owned("local ");
    crate::text::push_str(&mut local, name.as_str());
    crate::text::push_str(&mut local, "=\"$1\"");
    let mut subject = crate::text::owned("\"$");
    crate::text::push_str(&mut subject, name.as_str());
    crate::text::push_str(&mut subject, "\"");
    let ghost l = local@;
    let choice = BashSrc::case(subject.as_str(), arms);
    let ghost c = choice@;
    let parts = vec![BashSrc::raw(local), BashSrc::raw(crate::text::owned("shift || return 2")), choice];
    assert(src_views(parts@) =~~= seq![l, "shift || return 2"@, c]);
    BashSrc::seq(parts)
}

/// Among routes agreeing on their first `depth` words, with none leading
/// another, one whose words end there is the only one.
proof fn lemma_no_terminal(routes: Seq<RouteView>, members: Seq<usize>, depth: int)
    requires
        prefix_free(routes),
        increasing(members),
        forall|i: int|
            0 <= i < members.len() ==> (#[trigger] members[i]) < routes.len() && depth <= routes[members[i] as int].0.len(),
        forall|i: int, j: int|
            0 <= i < members.len() && 0 <= j < members.len() ==> routes[members[i] as int].0.take(depth)
                == routes[members[j] as int].0.take(depth),
        !(members.len() == 1 && routes[members[0] as int].0.len() == depth),
    ensures
        terminals(routes, members, depth).len() == 0,
        forall|i: int| 0 <= i < members.len() ==> depth < routes[#[trigger] members[i] as int].0.len(),
{
    assert forall|i: int| 0 <= i < members.len() implies depth < routes[#[trigger] members[i] as int].0.len() by {
        if routes[members[i] as int].0.len() == depth {
            let other = if i == 0 { 1int } else { 0int };
            assert(members.len() >= 2);
            let a = members[i] as int;
            let b = members[other] as int;
            assert(a != b);
            assert(routes[a].0.take(depth) =~= routes[a].0);
            assert(leads(routes[a].0, routes[b].0));
        }
    }
    lemma_terminals_none(routes, members, depth);
}

proof fn lemma_terminals_none(routes: Seq<RouteView>, members: Seq<usize>, depth: int)
    requires
        forall|i: int| 0 <= i < members.len() ==> depth < routes[#[trigger] members[i] as int].0.len(),
    ensures
        terminals(routes, members, depth).len() == 0,
    decreases members.len(),
{
    if members.len() > 0 {
        assert(members.last() == members[members.len() - 1]);
        lemma_terminals_none(routes, members.drop_last(), depth);
    }
}

/// Whether a route's word at `depth` is `word`.
pub open spec fn at_word(routes: Seq<RouteView>, depth: int, word: Seq<char>) -> spec_fn(usize) -> bool {
    |m: usize| routes[m as int].0[depth] == word
}

/// Whether the bash of the node holding `members` at `depth` follows route
/// `r`'s words from `depth` on to a record of `r`'s own tag: where `r`'s
/// words end, the node records its tag; before that, the node matches the
/// next word in a `case`, one of whose arms is labelled with `r`'s word there
/// and holds the node of exactly the members whose word there is that word,
/// and that node goes on the same way.
pub open spec fn follows_to_tag(
    routes: Seq<RouteView>,
    members: Seq<usize>,
    depth: nat,
    limit: nat,
    debug: bool,
    r: usize,
) -> bool
    decreases limit - depth,
{
    if depth >= routes[r as int].0.len() {
        trie_text(routes, members, depth, limit, debug) == record_text(routes[r as int].1, debug)
    } else if depth >= limit {
        false
    } else {
        let w = routes[r as int].0[depth as int];
        let group = members.filter(at_word(routes, depth as int, w));
        let words = first_seen(keys_at(routes, members, depth as int));
        let arms = arms_of(routes, members, depth, limit, debug, words, words.len() as int);
        &&& trie_text(routes, members, depth, limit, debug) == seq_text(
            seq![
                "local "@ + level_var(depth) + "=\"$1\""@,
                "shift || return 2"@,
                case_text("\"$"@ + level_var(depth) + "\""@, arms),
            ],
        )
        &&& exists|j: int|
            0 <= j < arms.len() && #[trigger] arms[j] == (
                scalar_form(w),
                trie_text(routes, group, depth + 1, limit, debug),
            )
        &&& follows_to_tag(routes, group, depth + 1, limit, debug, r)
    }
}

proof fn lemma_with_word_filters(routes: Seq<RouteView>, members: Seq<usize>, depth: int, word: Seq<char>)
    ensures
        with_word(routes, members, depth, word) == members.filter(at_word(routes, depth, word)),
    decreases members.len(),
{
    reveal(Seq::filter);
    if members.len() > 0 {
        lemma_with_word_filters(routes, members.drop_last(), depth, word);
    }
}

proof fn lemma_keys_at(routes: Seq<RouteView>, members: Seq<usize>, depth: int)
    ensures
        keys_at(routes, members, depth).len() == members.len(),
        forall|i: int|
            0 <= i < members.len() ==> #[trigger] keys_at(routes, members, depth)[i]
                == routes[members[i] as int].0[depth],
    decreases members.len(),
{
    if members.len() > 0 {
        lemma_keys_at(routes, members.drop_last(), depth);
        assert forall|i: int| 0 <= i < members.len() implies #[trigger] keys_at(routes, members, depth)[i]
            == routes[members[i] as int].0[depth] by {
            if i < members.len() - 1 {
                assert(members.drop_last()[i] == members[i]);
            }
        }
    }
}

proof fn lemma_first_seen_has(words: Seq<Seq<char>>)
    ensures
        forall|i: int| 0 <= i < words.len() ==> first_seen(words).contains(#[trigger] words[i]),
    decreases words.len(),
{
    if words.len() > 0 {
        let rest = words.drop_last();
        lemma_first_seen_has(rest);
        let seen = first_seen(rest);
        assert forall|i: int| 0 <= i < words.len() implies first_seen(words).contains(#[trigger] words[i]) by {
            if i < words.len() - 1 {
                assert(rest[i] == words[i]);
                assert(seen.contains(rest[i]));
                if !seen.contains(words.last()) {
                    let k = choose|k: int| 0 <= k < seen.len() && seen[k] == words[i];
                    assert(seen.push(words.last())[k] == words[i]);
                }
            } else if !seen.contains(words.last()) {
                assert(seen.push(words.last())[seen.len() as int] == words.last());
            }
        }
    }
}

proof fn lemma_terminals(routes: Seq<RouteView>, members: Seq<usize>, depth: int)
    ensures
        forall|i: int|
            0 <= i < terminals(routes, members, depth).len() ==> members.contains(
                #[trigger] terminals(routes, members, depth)[i],
            ) && routes[terminals(routes, members, depth)[i] as int].0.len() == depth,
        forall|i: int|
            0 <= i < members.len() && routes[#[trigger] members[i] as int].0.len() == depth ==> terminals(
                routes,
                members,
                depth,
            ).len() > 0,
    decreases members.len(),
{
    if members.len() > 0 {
        let rest = members.drop_last();
        lemma_terminals(routes, rest, depth);
        let sub = terminals(routes, rest, depth);
        let all = terminals(routes, members, depth);
        assert forall|i: int| 0 <= i < all.len() implies members.contains(#[trigger] all[i])
            && routes[all[i] as int].0.len() == depth by {
            if i < sub.len() {
                assert(all[i] == sub[i]);
                assert(rest.contains(sub[i]));
                let j = choose|j: int| 0 <= j < rest.len() && rest[j] == sub[i];
                assert(members[j] == rest[j]);
            } else {
                assert(all[i] == members.last());
                assert(members[members.len() - 1] == members.last());
            }
        }
        assert forall|i: int| 0 <= i < members.len() && routes[#[trigger] members[i] as int].0.len() == depth implies all.len() > 0 by {
            if i < members.len() - 1 {
                assert(rest[i] == members[i]);
            }
        }
    }
}

proof fn lemma_arms_len(
    routes: Seq<RouteView>,
    members: Seq<usize>,
    depth: nat,
    limit: nat,
    debug: bool,
    words: Seq<Seq<char>>,
    k: int,
)
    requires
        0 <= k,
        depth < limit,
    ensures
        arms_of(routes, members, depth, limit, debug, words, k).len() == k,
    decreases k,
{
    if k > 0 {
        lemma_arms_len(routes, members, depth, limit, debug, words, k - 1);
    }
}

proof fn lemma_arm_at(
    routes: Seq<RouteView>,
    members: Seq<usize>,
    depth: nat,
    limit: nat,
    debug: bool,
    words: Seq<Seq<char>>,
    k: int,
    j: int,
)
    requires
        0 <= j < k,
        depth < limit,
    ensures
        arms_of(routes, members, depth, limit, debug, words, k)[j] == (
            scalar_form(words[j]),
            trie_text(routes, with_word(routes, members, depth as int, words[j]), depth + 1, limit, debug),
        ),
    decreases k,
{
    lemma_arms_len(routes, members, depth, limit, debug, words, k - 1);
    if j < k - 1 {
        lemma_arm_at(routes, members, depth, limit, debug, words, k - 1, j);
    }
}

proof fn lemma_functions_len(routes: Seq<RouteView>, names: Seq<Seq<char>>, debug: bool, k: int)
    requires
        0 <= k,
    ensures
        functions_of(routes, names, debug, k).len() == k,
    decreases k,
{
    if k > 0 {
        lemma_functions_len(routes, names, debug, k - 1);
    }
}

proof fn lemma_function_at(routes: Seq<RouteView>, names: Seq<Seq<char>>, debug: bool, k: int, j: int)
    requires
        0 <= j < k,
    ensures
        functions_of(routes, names, debug, k)[j] == func_text(
            names[j],
            trie_text(routes, with_word(routes, everyone(routes.len()), 0, names[j]), 1, longest(routes), debug),
        ),
    decreases k,
{
    lemma_functions_len(routes, names, debug, k - 1);
    if j < k - 1 {
        lemma_function_at(routes, names, debug, k - 1, j);
    }
}

/// A node holding route `r` among routes that agree with it on their first
/// `depth` words follows `r`'s words on to a record of `r`'s tag.
proof fn lemma_node_follows(
    routes: Seq<RouteView>,
    members: Seq<usize>,
    depth: nat,
    limit: nat,
    debug: bool,
    r: usize,
)
    requires
        prefix_free(routes),
        r < routes.len(),
        depth <= routes[r as int].0.len() <= limit,
        members.contains(r),
        forall|i: int|
            0 <= i < members.len() ==> (#[trigger] members[i]) < routes.len() && depth <= routes[members[i] as int].0.len()
                && routes[members[i] as int].0.take(depth as int) == routes[r as int].0.take(depth as int),
    ensures
        follows_to_tag(routes, members, depth, limit, debug, r),
    decreases limit - depth,
{
    let x = choose|x: int| 0 <= x < members.len() && members[x] == r;
    if depth >= routes[r as int].0.len() {
        lemma_terminals(routes, members, depth as int);
        let ends = terminals(routes, members, depth as int);
        assert(routes[members[x] as int].0.len() == depth);
        assert(ends.len() > 0);
        let e = ends[0];
        assert(members.contains(e) && routes[e as int].0.len() == depth);
        let y = choose|y: int| 0 <= y < members.len() && members[y] == e;
        assert(routes[e as int].0 =~= routes[e as int].0.take(depth as int));
        assert(routes[r as int].0 =~= routes[r as int].0.take(depth as int));
        if e != r {
            assert(leads(routes[e as int].0, routes[r as int].0));
        }
    } else {
        let w = routes[r as int].0[depth as int];
        let pred = at_word(routes, depth as int, w);
        lemma_with_word_filters(routes, members, depth as int, w);
        let group = members.filter(pred);
        assert forall|i: int| 0 <= i < members.len() implies depth < routes[#[trigger] members[i] as int].0.len() by {
            let n = members[i] as int;
            if routes[n].0.len() == depth {
                assert(routes[n].0 =~= routes[n].0.take(depth as int));
                assert(n != r as int);
                assert(routes[r as int].0.take(routes[n].0.len() as int) == routes[n].0);
                assert(leads(routes[n].0, routes[r as int].0));
            }
        }
        lemma_terminals_none(routes, members, depth as int);
        lemma_keys_at(routes, members, depth as int);
        let keys = keys_at(routes, members, depth as int);
        assert(keys[x] == w);
        lemma_first_seen_has(keys);
        let words = first_seen(keys);
        assert(words.contains(keys[x]));
        let j = choose|j: int| 0 <= j < words.len() && words[j] == w;
        lemma_arms_len(routes, members, depth, limit, debug, words, words.len() as int);
        lemma_arm_at(routes, members, depth, limit, debug, words, words.len() as int, j);
        let arms = arms_of(routes, members, depth, limit, debug, words, words.len() as int);
        assert(arms[j] == (scalar_form(w), trie_text(routes, group, depth + 1, limit, debug)));
        lemma_with_word(routes, members, depth as int, w);
        assert(pred(members[x]));
        members.lemma_filter_contains(pred, x);
        assert forall|i: int| 0 <= i < group.len() implies (#[trigger] group[i]) < routes.len() && depth + 1
            <= routes[group[i] as int].0.len() && routes[group[i] as int].0.take(depth + 1int) == routes[r as int].0.take(
            depth + 1int,
        ) by {
            let g = group[i];
            assert(members.contains(g));
            let y = choose|y: int| 0 <= y < members.len() && members[y] == g;
            assert(routes[g as int].0[depth as int] == w);
            assert(routes[g as int].0.take(depth + 1int) =~= routes[g as int].0.take(depth as int).push(w));
            assert(routes[r as int].0.take(depth + 1int) =~= routes[r as int].0.take(depth as int).push(w));
        }
        lemma_node_follows(routes, group, depth + 1, limit, debug, r);
    }
}

/// Whether the bash of a dispatch takes route `r` by its own words to a
/// record of its own tag: among the functions, the one named by `r`'s first
/// word holds the node of exactly the routes that start with that word, and
/// from there the bash follows `r`'s words, one `case` arm per word, to a
/// record of `r`'s tag.
pub open spec fn reaches_its_tag(routes: Seq<RouteView>, debug: bool, r: usize) -> bool {
    let w = routes[r as int].0[0];
    let names = first_seen(keys_at(routes, everyone(routes.len()), 0));
    let functions = functions_of(routes, names, debug, names.len() as int);
    let group = everyone(routes.len()).filter(at_word(routes, 0, w));
    &&& exists|j: int|
        0 <= j < functions.len() && names[j] == w && #[trigger] functions[j] == func_text(
            w,
            trie_text(routes, group, 1, longest(routes), debug),
        )
    &&& follows_to_tag(routes, group, 1, longest(routes), debug, r)
}

/// With no route's words leading another's, every route is reached by its
/// own words: the function named by its first word holds the node of exactly
/// the routes that start with that word, and from there the bash follows the
/// route's words, one `case` arm per word, to a record of the route's own
/// tag.
pub proof fn lemma_routes_reach_their_tags(routes: Seq<RouteView>, debug: bool, r: usize)
    requires
        routes.len() <= usize::MAX,
        prefix_free(routes),
        forall|i: int| 0 <= i < routes.len() ==> (#[trigger] routes[i]).0.len() >= 1,
        r < routes.len(),
    ensures
        dispatch_text(routes, debug) == seq_text(
            functions_of(
                routes,
                first_seen(keys_at(routes, everyone(routes.len()), 0)),
                debug,
                first_seen(keys_at(routes, everyone(routes.len()), 0)).len() as int,
            ),
        ),
        reaches_its_tag(routes, debug, r),
{
    let n = routes.len();
    let all = everyone(n);
    let w = routes[r as int].0[0];
    let pred = at_word(routes, 0, w);
    lemma_longest(routes);
    lemma_keys_at(routes, all, 0);
    let keys = keys_at(routes, all, 0);
    assert(all[r as int] == r);
    assert(keys[r as int] == w);
    lemma_first_seen_has(keys);
    let names = first_seen(keys);
    assert(names.contains(keys[r as int]));
    let j = choose|j: int| 0 <= j < names.len() && names[j] == w;
    lemma_functions_len(routes, names, debug, names.len() as int);
    lemma_function_at(routes, names, debug, names.len() as int, j);
    lemma_with_word_filters(routes, all, 0, w);
    let group = all.filter(pred);
    lemma_with_word(routes, all, 0, w);
    assert(pred(all[r as int]));
    all.lemma_filter_contains(pred, r as int);
    assert forall|i: int| 0 <= i < group.len() implies (#[trigger] group[i]) < routes.len() && 1
        <= routes[group[i] as int].0.len() && routes[group[i] as int].0.take(1) == routes[r as int].0.take(1) by {
        let g = group[i];
        assert(all.contains(g));
        let y = choose|y: int| 0 <= y < all.len() && all[y] == g;
        assert(all[y] == y as usize);
        assert(routes[g as int].0[0] == w);
        assert(routes[g as int].0.take(1) =~= seq![w]);
        assert(routes[r as int].0.take(1) =~= seq![w]);
    }
    lemma_node_follows(routes, group, 1, longest(routes), debug, r);
}

impl Dispatch {
    #[verifier::type_invariant]
    spec fn named(self) -> bool {
        forall|i: int| 0 <= i < self.routes@.len() ==> (#[trigger] self.routes@[i]).matched@.len() >= 1
    }

    pub fn new() -> (r: Self)
        ensures
            r@ == Seq::<RouteView>::empty(),
    {
        let r = Self { routes: Vec::new() };
        assert(r@ =~= Seq::<RouteView>::empty());
        r
    }

    /// `matched[0]` is the function name; `matched[1..]` are literal
    /// arguments consumed before the rest is recorded under `tag`.
    pub fn on(self, matched: &[&str], tag: &str) -> (r: Self)
        requires
            matched@.len() > 0,
        ensures
            r@ == self@.push((str_views(matched@), tag@)),
    {
        proof {
            use_type_invariant(&self);
        }
        let mut words: Vec<String> = Vec::new();
        for k in 0..matched.len()
            invariant
                views(words@) == str_views(matched@.take(k as int)),
        {
            let ghost before = views(words@);
            let word = crate::text::owned(matched[k]);
            words.push(word);
            assert(views(words@) =~= before.push(matched@[k as int]@));
            assert(str_views(matched@.take(k + 1)) =~= str_views(matched@.take(k as int)).push(
                matched@[k as int]@,
            ));
        }
        assert(matched@.take(matched.len() as int) =~= matched@);
        let ghost before = self@;
        let mut routes = self.routes;
        routes.push(Route { matched: words, tag: crate::text::owned(tag) });
        let r = Self { routes };
        assert(r@ =~= before.push((str_views(matched@), tag@)));
        r
    }

    pub fn name(&self) -> (r: &'static str)
        ensures
            r@ == "dispatch"@,
    {
        "dispatch"
    }

    /// One bash function per leading word, each dispatching on the words
    /// that follow.
    pub fn bash(&self, codegen: &Codegen) -> (r: BashSrc)
        requires
            prefix_free(self@),
        ensures
            r@ == dispatch_text(self@, codegen.is_debugging()),
            forall|i: usize| i < self@.len() ==> #[trigger] reaches_its_tag(self@, codegen.is_debugging(), i),
    {
        let count = self.routes.len();
        proof {
            use_type_invariant(self);
            assert(self@.len() == count);
            assert forall|i: usize| i < self@.len() implies #[trigger] reaches_its_tag(
                self@,
                codegen.is_debugging(),
                i,
            ) by {
                assert forall|k: int| 0 <= k < self@.len() implies (#[trigger] self@[k]).0.len() >= 1 by {
                    assert(self@[k].0.len() == self.routes@[k].matched@.len());
                }
                lemma_routes_reach_their_tags(self@, codegen.is_debugging(), i);
            }
        }
        let routes = self.routes.as_slice();
        let ghost rv = route_views(routes@);
        let ghost limit = longest(rv);
        let ghost debug = codegen.is_debugging();
        let mut all: Vec<usize> = Vec::new();
        for i in 0..routes.len()
            invariant
                all@ == everyone(i as nat),
        {
            all.push(i);
            assert(all@ =~= everyone((i + 1) as nat));
        }
        assert forall|i: int, j: int| 0 <= i < j < all@.len() implies all@[i] < all@[j] by {
            assert(all@[i] == i as usize && all@[j] == j as usize);
        }
        proof {
            lemma_longest(rv);
            assert forall|i: int| 0 <= i < routes@.len() implies 1 <= (#[trigger] routes@[i]).matched@.len()
                <= limit by {
                assert(rv[i].0.len() == routes@[i].matched@.len());
            }
        }
        let names = words_at(routes, all.as_slice(), 0);
        let ghost spelled = views(names@);
        let mut functions: Vec<BashSrc> = Vec::new();
        for g in 0..names.len()
            invariant
                rv == route_views(routes@),
                debug == codegen.is_debugging(),
                prefix_free(rv),
                limit == longest(rv),
                all@ == everyone(routes@.len()),
                increasing(all@),
                forall|i: int| 0 <= i < routes@.len() ==> 1 <= (#[trigger] routes@[i]).matched@.len() <= limit,
                spelled == views(names@),
                spelled == first_seen(keys_at(rv, all@, 0)),
                src_views(functions@) == functions_of(rv, spelled, debug, g as int),
        {
            let sub = members_with(routes, all.as_slice(), 0, names[g].as_str());
            let ghost word = spelled[g as int];
            proof {
                assert(names@[g as int]@ == word);
                lemma_with_word(rv, all@, 0, word);
                assert forall|i: int, j: int| 0 <= i < sub@.len() && 0 <= j < sub@.len() implies rv[sub@[i] as int].0.take(
                    1,
                ) == rv[sub@[j] as int].0.take(1) by {
                    assert(rv[sub@[i] as int].0.take(1) =~= seq![word]);
                    assert(rv[sub@[j] as int].0.take(1) =~= seq![word]);
                }
                assert forall|i: int| 0 <= i < sub@.len() implies (#[trigger] sub@[i]) < routes@.len() && 1
                    <= routes@[sub@[i] as int].matched@.len() <= limit by {
                    let x = choose|x: int| 0 <= x < all@.len() && all@[x] == sub@[i];
                }
                if routes@.len() == 0 {
                    assert(all@ =~= Seq::<usize>::empty());
                    assert(keys_at(rv, all@, 0) =~= Seq::<Seq<char>>::empty());
                }
                assert(1 <= routes@[0].matched@.len() <= limit);
            }
            let child = body(routes, sub, 1, codegen, Ghost(limit));
            let ghost before = src_views(functions@);
            functions.push(BashSrc::func(names[g].as_str(), child));
            proof {
                assert(src_views(functions@) =~= before.push(src_views(functions@).last()));
            }
        }
        BashSrc::seq(functions)
    }
}

impl Default for Dispatch {
    fn default() -> (r: Self)
        ensures
            r@ == Seq::<RouteView>::empty(),
    {
        Self::new()
    }
}

} // verus!