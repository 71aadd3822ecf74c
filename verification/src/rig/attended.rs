//! Where a session puts its files, and what a run hands back.

use std::sync::Arc;

use vstd::prelude::*;

use super::wire::{Message, Micros};
use crate::failure::Failure;
use crate::quoting::{emit_scalar, scalar_form};
use crate::shell::{Shell, ShellView};
use crate::text::has_char;

verus! {

/// The session's workspace: the one coordinate, and the model of the files
/// in it. What construction proves is what every user needs: the directory
/// is one line of text — it crosses into bash.
#[derive(Debug)]
pub struct Layout {
    dir: String,
}

impl View for Layout {
    type V = Seq<char>;

    closed spec fn view(&self) -> Seq<char> {
        self.dir@
    }
}

impl Clone for Layout {
    fn clone(&self) -> (r: Self)
        ensures
            r@ == self@,
    {
        proof {
            use_type_invariant(self);
        }
        Layout { dir: self.dir.clone() }
    }
}

impl Layout {
    /// The directory is one line of text, whatever is done with it.
    #[verifier::type_invariant]
    spec fn one_line(&self) -> bool {
        !has_char(self.dir@, '\n')
    }
}

/// A file in the workspace: the directory, a slash, the name.
pub open spec fn file_in(dir: Seq<char>, name: Seq<char>) -> Seq<char> {
    dir + seq!['/'] + name
}

/// What a provisioned startup file holds: the two sources, then the joining
/// line where there is one.
pub open spec fn bash_env_text(dir: Seq<char>, joining: Option<Seq<char>>) -> Seq<char> {
    let sources = "source "@ + scalar_form(file_in(dir, "prelude.bash"@)) + "\nsource "@ + scalar_form(
        file_in(dir, "rig.bash"@),
    ) + "\n"@;
    match joining {
        Some(line) => sources + line,
        None => sources,
    }
}

/// What the provisioned file does about the channel — the first thing a
/// caller of [`Layout::bash_env`] states.
#[derive(Copy, Clone, Debug)]
pub enum Provision<'a> {
    /// The file ends with this line: subjects with no prior knowledge join
    /// as their shells start.
    Joining(&'a str),
    /// Definitions only: the client code initiates its own channel.
    Definitions,
}

pub open spec fn joining_of(provision: Provision) -> Option<Seq<char>> {
    match provision {
        Provision::Joining(line) => Some(line@),
        Provision::Definitions => None,
    }
}

impl Layout {
    /// `dir` is canonical when handed in; what is proven here is that it can
    /// cross: one line of text.
    pub fn new(dir: String) -> (r: Result<Self, Failure>)
        ensures
            match r {
                Ok(layout) => layout@ == dir@ && !has_char(dir@, '\n'),
                Err(f) => has_char(dir@, '\n') && f.spec_doing() == "opening the workspace "@ + dir@
                    && f.spec_cause() == "the path is not one line of text"@,
            },
    {
        if crate::text::contains_char(dir.as_str(), '\n') {
            let mut doing = crate::text::owned("opening the workspace ");
            crate::text::push_str(&mut doing, dir.as_str());
            return Err(Failure::new(doing, crate::text::owned("the path is not one line of text")));
        }
        Ok(Self { dir })
    }

    /// The workspace: the session's address.
    pub fn path(&self) -> (r: &str)
        ensures
            r@ == self@,
            !has_char(r@, '\n'),
    {
        proof {
            use_type_invariant(self);
        }
        self.dir.as_str()
    }

    /// The workspace as text — what a rig splices into its bash.
    pub fn text(&self) -> (r: &str)
        ensures
            r@ == self@,
            !has_char(r@, '\n'),
    {
        proof {
            use_type_invariant(self);
        }
        self.dir.as_str()
    }

    /// The protocol's half, laid verbatim.
    pub fn prelude(&self) -> (r: String)
        ensures
            r@ == file_in(self@, "prelude.bash"@),
    {
        self.file("prelude.bash")
    }

    /// The rig's half.
    pub fn rig(&self) -> (r: String)
        ensures
            r@ == file_in(self@, "rig.bash"@),
    {
        self.file("rig.bash")
    }

    /// The control fifo: present exactly while a session serves.
    pub fn join(&self) -> (r: String)
        ensures
            r@ == file_in(self@, "join"@),
    {
        self.file("join")
    }

    /// Held locked for the session's life.
    pub fn lock(&self) -> (r: String)
        ensures
            r@ == file_in(self@, "lock"@),
    {
        self.file("lock")
    }

    /// One shell's pipe, made by the shell; the token names it.
    pub fn up(&self, token: &str) -> (r: String)
        ensures
            r@ == file_in(self@, "up."@ + token@),
    {
        let mut name = crate::text::owned("up.");
        crate::text::push_str(&mut name, token);
        self.file(name.as_str())
    }

    /// One shell's reply pipe, made by the run before the shell can ask.
    pub fn rep(&self, token: &str) -> (r: String)
        ensures
            r@ == file_in(self@, "rep."@ + token@),
    {
        let mut name = crate::text::owned("rep.");
        crate::text::push_str(&mut name, token);
        self.file(name.as_str())
    }

    /// The provisioned startup file.
    pub fn bash_env_file(&self) -> (r: String)
        ensures
            r@ == file_in(self@, "bash_env.bash"@),
    {
        self.file("bash_env.bash")
    }

    fn file(&self, name: &str) -> (r: String)
        ensures
            r@ == file_in(self@, name@),
    {
        let mut path = self.dir.clone();
        crate::text::push_char(&mut path, '/');
        crate::text::push_str(&mut path, name);
        path
    }

    /// What `<dir>/bash_env.bash` holds: the two sources, then the joining
    /// line iff provisioned. Every non-interactive bash in the tree the
    /// subject creates sources that file as it starts; whether that
    /// initiates the channel is `provision`, stated by the caller.
    pub fn bash_env(&self, provision: Provision<'_>) -> (r: String)
        ensures
            r@ == bash_env_text(self@, joining_of(provision)),
    {
        let prelude = self.prelude();
        let rig = self.rig();
        let mut content = crate::text::owned("source ");
        let quoted = emit_scalar(prelude.as_str());
        crate::text::push_str(&mut content, quoted.as_str());
        crate::text::push_str(&mut content, "\nsource ");
        let quoted = emit_scalar(rig.as_str());
        crate::text::push_str(&mut content, quoted.as_str());
        crate::text::push_str(&mut content, "\n");
        if let Provision::Joining(line) = provision {
            crate::text::push_str(&mut content, line);
        }
        content
    }
}

/// One shell, what its reaction left behind, and when it went.
#[derive(Debug)]
pub struct Attended<K> {
    pub shell: Arc<Shell>,
    pub kept: K,
    /// When nobody could write on its pipe any more. `None` for a shell the
    /// session outlived — still running when the watch fired.
    pub parted: Option<Micros>,
}

/// One message, and the shell that sent it.
#[derive(Copy, Clone, Debug)]
pub struct Said<'a> {
    pub shell: &'a Arc<Shell>,
    pub message: &'a Message,
}

pub type MessageView = (super::wire::Verb, super::wire::Stamp, Seq<Seq<char>>);

pub type SaidView = (ShellView, MessageView);

impl<'a> View for Said<'a> {
    type V = SaidView;

    open spec fn view(&self) -> SaidView {
        (self.shell@, self.message@)
    }
}

pub open spec fn said_views<'a>(said: Seq<Said<'a>>) -> Seq<SaidView> {
    said.map_values(|s: Said<'a>| s@)
}

/// Everything the shells said, shell after shell, each in its own order.
pub open spec fn everything(shells: Seq<(ShellView, Seq<MessageView>)>) -> Seq<SaidView>
    decreases shells.len(),
{
    if shells.len() == 0 {
        Seq::empty()
    } else {
        let last = shells.last();
        everything(shells.drop_last()) + from_one(last.0, last.1)
    }
}

/// One shell's messages, each with the shell that sent it.
pub open spec fn from_one(shell: ShellView, messages: Seq<MessageView>) -> Seq<SaidView> {
    messages.map_values(|m: MessageView| (shell, m))
}

pub open spec fn message_views(messages: Seq<Message>) -> Seq<MessageView> {
    messages.map_values(|m: Message| m@)
}

pub open spec fn attended_views(shells: Seq<Attended<Vec<Message>>>) -> Seq<(ShellView, Seq<MessageView>)> {
    shells.map_values(|a: Attended<Vec<Message>>| (a.shell@, message_views(a.kept@)))
}

/// Where a message goes among messages already in order: after every one
/// sent no later than it.
pub open spec fn slot_by_clock(ordered: Seq<SaidView>, sent_at: u64) -> int
    decreases ordered.len(),
{
    if ordered.len() == 0 {
        0
    } else if sent_at < ordered[0].1.1.sent_at.0 {
        0
    } else {
        1 + slot_by_clock(ordered.drop_first(), sent_at)
    }
}

/// The messages ordered by the sending shell's clock, messages sent at one
/// instant keeping the order they had.
pub open spec fn by_clock(said: Seq<SaidView>) -> Seq<SaidView>
    decreases said.len(),
{
    if said.len() == 0 {
        Seq::empty()
    } else {
        let ordered = by_clock(said.drop_last());
        ordered.insert(slot_by_clock(ordered, said.last().1.1.sent_at.0), said.last())
    }
}

/// Everything the shells said, in the order it was said: by the sending
/// shell's own clock, stably over join order and each shell's own order.
pub fn heard(shells: &[Attended<Vec<Message>>]) -> (r: Vec<Said<'_>>)
    ensures
        said_views(r@) == by_clock(everything(attended_views(shells@))),
{
    let ghost all = everything(attended_views(shells@));
    let mut flat: Vec<Said<'_>> = Vec::new();
    for s in 0..shells.len()
        invariant
            all == everything(attended_views(shells@)),
            said_views(flat@) == everything(attended_views(shells@).take(s as int)),
    {
        let at = &shells[s];
        let ghost shell_view = at.shell@;
        let ghost before = said_views(flat@);
        proof {
            assert(attended_views(shells@).take(s + 1).drop_last() =~= attended_views(shells@).take(
                s as int,
            ));
        }
        for j in 0..at.kept.len()
            invariant
                at == &shells@[s as int],
                shell_view == at.shell@,
                said_views(flat@) == before + from_one(shell_view, message_views(at.kept@.take(j as int))),
        {
            let ghost inner = said_views(flat@);
            flat.push(Said { shell: &at.shell, message: &at.kept[j] });
            assert(from_one(shell_view, message_views(at.kept@.take(j + 1))) =~= from_one(
                shell_view,
                message_views(at.kept@.take(j as int)),
            ).push((shell_view, at.kept@[j as int]@)));
            assert(said_views(flat@) =~= inner.push((shell_view, at.kept@[j as int]@)));
        }
        proof {
            assert(at.kept@.take(at.kept@.len() as int) =~= at.kept@);
            let last = attended_views(shells@).take(s + 1).last();
            assert(last == (shell_view, message_views(at.kept@)));
        }
    }
    assert(attended_views(shells@).take(shells@.len() as int) =~= attended_views(shells@));
    let mut ordered: Vec<Said<'_>> = Vec::new();
    for k in 0..flat.len()
        invariant
            said_views(flat@) == all,
            said_views(ordered@) == by_clock(all.take(k as int)),
    {
        let said = flat[k];
        let ghost before = said_views(ordered@);
        let mut at: usize = 0;
        assert(before.skip(0) =~= before);
        while at < ordered.len() && !(said.message.stamp.sent_at.0 < ordered[at].message.stamp.sent_at.0)
            invariant
                at <= ordered.len(),
                said_views(ordered@) == before,
                slot_by_clock(before, said@.1.1.sent_at.0) == at + slot_by_clock(
                    before.skip(at as int),
                    said@.1.1.sent_at.0,
                ),
            decreases ordered.len() - at,
        {
            assert(before.skip(at as int).drop_first() =~= before.skip(at + 1));
            at = at + 1;
        }
        proof {
            if at < ordered.len() {
                assert(before.skip(at as int)[0] == before[at as int]);
            }
            assert(all.take(k + 1).drop_last() =~= all.take(k as int));
            assert(all[k as int] == said@);
        }
        ordered.insert(at, said);
        assert(said_views(ordered@) =~= before.insert(at as int, said@));
    }
    assert(all.take(flat.len() as int) =~= all);
    ordered
}

/// No message of the sequence was sent after one behind it.
pub open spec fn in_clock_order(said: Seq<SaidView>) -> bool {
    forall|i: int, j: int| 0 <= i < j < said.len() ==> said[i].1.1.sent_at.0 <= said[j].1.1.sent_at.0
}

proof fn lemma_slot_by_clock(ordered: Seq<SaidView>, sent_at: u64)
    ensures
        0 <= slot_by_clock(ordered, sent_at) <= ordered.len(),
        forall|i: int|
            0 <= i < slot_by_clock(ordered, sent_at) ==> (#[trigger] ordered[i]).1.1.sent_at.0 <= sent_at,
        slot_by_clock(ordered, sent_at) < ordered.len() ==> sent_at < ordered[slot_by_clock(
            ordered,
            sent_at,
        )].1.1.sent_at.0,
    decreases ordered.len(),
{
    if ordered.len() > 0 && !(sent_at < ordered[0].1.1.sent_at.0) {
        let rest = ordered.drop_first();
        lemma_slot_by_clock(rest, sent_at);
        assert forall|i: int| 0 <= i < slot_by_clock(ordered, sent_at) implies (
        #[trigger] ordered[i]).1.1.sent_at.0 <= sent_at by {
            if i > 0 {
                assert(ordered[i] == rest[i - 1]);
            }
        }
    }
}

/// What [`heard`] gives is in the order the messages were sent.
pub proof fn lemma_heard_in_clock_order(said: Seq<SaidView>)
    ensures
        in_clock_order(by_clock(said)),
    decreases said.len(),
{
    if said.len() > 0 {
        let ordered = by_clock(said.drop_last());
        lemma_heard_in_clock_order(said.drop_last());
        let x = said.last();
        let p = slot_by_clock(ordered, x.1.1.sent_at.0);
        lemma_slot_by_clock(ordered, x.1.1.sent_at.0);
        let t = ordered.insert(p, x);
        assert forall|i: int, j: int| 0 <= i < j < t.len() implies t[i].1.1.sent_at.0
            <= t[j].1.1.sent_at.0 by {
            if j < p {
                assert(t[i] == ordered[i] && t[j] == ordered[j]);
            } else if j == p {
                assert(t[i] == ordered[i]);
            } else if i < p {
                assert(t[i] == ordered[i] && t[j] == ordered[j - 1]);
            } else if i == p {
                assert(t[j] == ordered[j - 1]);
                if j - 1 > p {
                    assert(ordered[p].1.1.sent_at.0 <= ordered[j - 1].1.1.sent_at.0);
                }
            } else {
                assert(t[i] == ordered[i - 1] && t[j] == ordered[j - 1]);
            }
        }
    }
}

/// [`heard`] loses no message and adds none.
pub proof fn lemma_heard_keeps_messages(said: Seq<SaidView>)
    ensures
        by_clock(said).to_multiset() == said.to_multiset(),
    decreases said.len(),
{
    broadcast use vstd::seq_lib::group_to_multiset_ensures;

    if said.len() > 0 {
        let rest = said.drop_last();
        lemma_heard_keeps_messages(rest);
        lemma_slot_by_clock(by_clock(rest), said.last().1.1.sent_at.0);
        assert(rest.push(said.last()) =~= said);
    }
}

/// Whether a message was sent at the instant `at`.
pub open spec fn at_instant(at: u64) -> spec_fn(SaidView) -> bool {
    |s: SaidView| s.1.1.sent_at.0 == at
}

/// The messages sent at the instant `at`, in the order they stand.
pub open spec fn sent_at_instant(said: Seq<SaidView>, at: u64) -> Seq<SaidView> {
    said.filter(at_instant(at))
}

proof fn lemma_none_at_instant(s: Seq<SaidView>, at: u64)
    requires
        forall|i: int| 0 <= i < s.len() ==> (#[trigger] s[i]).1.1.sent_at.0 != at,
    ensures
        sent_at_instant(s, at) == Seq::<SaidView>::empty(),
    decreases s.len(),
{
    reveal(Seq::filter);
    if s.len() > 0 {
        lemma_none_at_instant(s.drop_last(), at);
        assert(s.last() == s[s.len() - 1]);
    }
}

proof fn lemma_one_at_instant(x: SaidView, at: u64)
    ensures
        sent_at_instant(seq![x], at) == if x.1.1.sent_at.0 == at {
            seq![x]
        } else {
            Seq::<SaidView>::empty()
        },
{
    reveal_with_fuel(Seq::filter, 2);
    assert(seq![x].drop_last() =~= Seq::<SaidView>::empty());
}

/// [`heard`] is stable: messages sent at one instant keep the order they
/// had — join order, and each shell's own order.
pub proof fn lemma_heard_is_stable(said: Seq<SaidView>, at: u64)
    ensures
        sent_at_instant(by_clock(said), at) == sent_at_instant(said, at),
    decreases said.len(),
{
    reveal(Seq::filter);
    if said.len() > 0 {
        let rest = said.drop_last();
        let x = said.last();
        let ordered = by_clock(rest);
        let p = slot_by_clock(ordered, x.1.1.sent_at.0);
        lemma_heard_is_stable(rest, at);
        lemma_heard_in_clock_order(rest);
        lemma_slot_by_clock(ordered, x.1.1.sent_at.0);
        let pred = at_instant(at);
        let before = ordered.take(p);
        let after = ordered.skip(p);
        assert(ordered.insert(p, x) =~= before + seq![x] + after);
        assert(before + after =~= ordered);
        Seq::filter_distributes_over_add(before + seq![x], after, pred);
        Seq::filter_distributes_over_add(before, seq![x], pred);
        Seq::filter_distributes_over_add(before, after, pred);
        lemma_one_at_instant(x, at);
        if x.1.1.sent_at.0 == at {
            assert forall|i: int| 0 <= i < after.len() implies (#[trigger] after[i]).1.1.sent_at.0 != at by {
                assert(after[i] == ordered[p + i]);
                if i > 0 {
                    assert(ordered[p].1.1.sent_at.0 <= ordered[p + i].1.1.sent_at.0);
                }
            }
            lemma_none_at_instant(after, at);
            assert(sent_at_instant(before, at) + Seq::<SaidView>::empty() =~= sent_at_instant(before, at));
            assert(sent_at_instant(before, at) + seq![x] =~= sent_at_instant(before, at).push(x));
        } else {
            assert(sent_at_instant(before, at) + Seq::<SaidView>::empty() =~= sent_at_instant(before, at));
        }
    }
}

} // verus!