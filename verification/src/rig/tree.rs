//! Which shells a run reveals, what each said of itself, and who started whom.
//!
//! Two questions, and two answers that stand apart. [`Shells`] is the
//! register: which shells there are and what they are, and nothing about what
//! they went on to say. [`shells`] is the arrangement: the same shells with
//! their messages grouped under them. The register is built by one rule, in
//! one place, and the arrangement is built on it — a decoder reading a run as
//! it arrives and one reading it afterwards get the same answer because they
//! ask the same code.
//!
//! Nothing is decoded twice and nothing is guessed. Every shell says what it
//! is when it joins; a message from a pid that never did is a fault.

use std::collections::HashMap;

use vstd::prelude::*;

use super::wire::{Kind, Line, Pid, Sent};
use crate::failure::Failure;
use crate::digits::decimal;
use crate::shell::{bash_of, bash_refusal, options_of, options_refusal, reading_a_shell, Bash, BashView, Options, OptionsView};

verus! {

broadcast use vstd::std_specs::hash::group_hash_axioms;

/// What a message off the pipe is, as the contracts read it.
pub type LineView = (Kind, Sent, Seq<Seq<char>>);

pub open spec fn line_views(lines: Seq<Line>) -> Seq<LineView> {
    lines.map_values(|l: Line| l@)
}

/// Which shell, among those that have joined. A pid reused across a long run
/// opens a new one rather than reopening the first, so this is a generation
/// and not a pid.
#[derive(Copy, Clone, PartialEq, Eq, Debug, Structural)]
pub struct At(usize);

impl View for At {
    type V = usize;

    closed spec fn view(&self) -> usize {
        self.0
    }
}

/// What one shell said of itself when it joined, under the provenance the
/// protocol put in front of it.
///
/// The two halves are not the same kind of fact and are not mixed: [`Bash`]
/// is what the shell *is*, fixed for as long as it lives, and [`Options`] is
/// what it had switched on at that moment, which a subject may change
/// afterwards.
#[derive(Debug)]
pub struct Joined {
    pub opened: Sent,
    pub bash: Bash,
    pub at_join: Options,
}

pub type JoinedView = (Sent, BashView, OptionsView);

impl View for Joined {
    type V = JoinedView;

    open spec fn view(&self) -> JoinedView {
        (self.opened, self.bash@, self.at_join@)
    }
}

impl Clone for Joined {
    fn clone(&self) -> (r: Self)
        ensures
            r@ == self@,
    {
        Joined { opened: self.opened, bash: self.bash.clone(), at_join: self.at_join.clone() }
    }
}

pub open spec fn joined_views(joined: Seq<Joined>) -> Seq<JoinedView> {
    joined.map_values(|j: Joined| j@)
}

/// What a join's words say of the shell, under the provenance it came with.
pub open spec fn joined_of(opened: Sent, words: Seq<Seq<char>>) -> Option<JoinedView> {
    match (bash_of(words), options_of(words)) {
        (Some(bash), Some(at_join)) => Some((opened, bash, at_join)),
        _ => None,
    }
}

/// The newest generation in the register carrying `pid`.
pub open spec fn newest_of(joined: Seq<JoinedView>, pid: Pid) -> Option<int>
    decreases joined.len(),
{
    if joined.len() == 0 {
        None
    } else if joined.last().0.pid == pid {
        Some(joined.len() - 1)
    } else {
        newest_of(joined.drop_last(), pid)
    }
}

/// What hearing one message does: the register after it, and the shell the
/// message belongs to. A join opens a shell; anything else belongs to the
/// newest shell of its pid, and there is none for a pid that never joined.
pub open spec fn hearing(joined: Seq<JoinedView>, line: LineView) -> Option<
    (Seq<JoinedView>, int),
> {
    if line.0 == Kind::Join {
        match joined_of(line.1, line.2) {
            Some(j) => Some((joined.push(j), joined.len() as int)),
            None => None,
        }
    } else {
        match newest_of(joined, line.1.pid) {
            Some(index) => Some((joined, index)),
            None => None,
        }
    }
}

/// What a line that cannot be heard is refused with — what was being done,
/// and why: a join whose account does not read, or a message from a pid
/// that never joined.
pub open spec fn hearing_refusal(line: LineView) -> (Seq<char>, Seq<char>) {
    if line.0 == Kind::Join {
        if bash_of(line.2) is None {
            (reading_a_shell(), bash_refusal(line.2))
        } else {
            (reading_a_shell(), options_refusal(line.2))
        }
    } else {
        ("placing a message"@, "pid "@ + decimal(line.1.pid.0 as nat) + " spoke without ever joining"@)
    }
}

/// The refusal of the first line of a run that cannot be heard, if any.
pub open spec fn first_refusal(lines: Seq<LineView>) -> Option<(Seq<char>, Seq<char>)>
    decreases lines.len(),
{
    if lines.len() == 0 {
        None
    } else {
        match placement(lines.drop_last()) {
            None => first_refusal(lines.drop_last()),
            Some((joined, _)) => match hearing(joined, lines.last()) {
                None => Some(hearing_refusal(lines.last())),
                Some(_) => None,
            },
        }
    }
}

/// A whole run heard in order: the register it leaves, and for each message
/// the shell it belongs to.
pub open spec fn placement(lines: Seq<LineView>) -> Option<(Seq<JoinedView>, Seq<int>)>
    decreases lines.len(),
{
    if lines.len() == 0 {
        Some((Seq::empty(), Seq::empty()))
    } else {
        match placement(lines.drop_last()) {
            Some((joined, places)) => match hearing(joined, lines.last()) {
                Some((after, at)) => Some((after, places.push(at))),
                None => None,
            },
            None => None,
        }
    }
}

/// The register a whole run reveals.
pub open spec fn register(lines: Seq<LineView>) -> Option<Seq<JoinedView>> {
    match placement(lines) {
        Some((joined, _)) => Some(joined),
        None => None,
    }
}

proof fn lemma_newest_after_push(joined: Seq<JoinedView>, j: JoinedView, pid: Pid)
    ensures
        newest_of(joined.push(j), pid) == if j.0.pid == pid {
            Some(joined.len() as int)
        } else {
            newest_of(joined, pid)
        },
{
    assert(joined.push(j).drop_last() =~= joined);
}

proof fn lemma_newest_in_range(joined: Seq<JoinedView>, pid: Pid)
    ensures
        newest_of(joined, pid) matches Some(i) ==> 0 <= i < joined.len() && joined[i].0.pid == pid,
    decreases joined.len(),
{
    if joined.len() > 0 && joined.last().0.pid != pid {
        lemma_newest_in_range(joined.drop_last(), pid);
    }
}

/// Every message of a placed run belongs to a shell of the register it left.
pub proof fn lemma_places_in_range(lines: Seq<LineView>)
    ensures
        placement(lines) matches Some((joined, places)) ==> {
            &&& places.len() == lines.len()
            &&& forall|k: int| 0 <= k < places.len() ==> 0 <= #[trigger] places[k] < joined.len()
        },
    decreases lines.len(),
{
    if lines.len() > 0 {
        lemma_places_in_range(lines.drop_last());
        if let Some((joined, places)) = placement(lines.drop_last()) {
            lemma_newest_in_range(joined, lines.last().1.pid);
        }
    }
}

/// Every shell that has joined, in the order they did.
#[derive(Debug)]
pub struct Shells {
    joined: Vec<Joined>,
    /// The newest generation carrying each pid, which is what a later message
    /// from that pid belongs to.
    newest: HashMap<u32, usize>,
}

impl View for Shells {
    type V = Seq<JoinedView>;

    closed spec fn view(&self) -> Seq<JoinedView> {
        joined_views(self.joined@)
    }
}

impl Shells {
    /// The index by pid agrees with the register it indexes.
    pub closed spec fn wf(&self) -> bool {
        forall|p: u32|
            #![trigger self.newest@.contains_key(p)]
            match newest_of(self@, Pid(p)) {
                Some(i) => self.newest@.contains_key(p) && self.newest@[p] == i,
                None => !self.newest@.contains_key(p),
            }
    }

    /// The register a whole run reveals.
    pub fn of(lines: &[Line]) -> (r: Result<Self, Failure>)
        ensures
            match register(line_views(lines@)) {
                Some(joined) => r matches Ok(known) && known@ == joined && known.wf(),
                None => r matches Err(f) && first_refusal(line_views(lines@)) == Some(
                    (f.spec_doing(), f.spec_cause()),
                ),
            },
    {
        let mut known = Self::default();
        let ghost views = line_views(lines@);
        for i in 0..lines.len()
            invariant
                known.wf(),
                views == line_views(lines@),
                register(views.take(i as int)) == Some(known@),
        {
            proof {
                assert(views.take(i + 1).drop_last() =~= views.take(i as int));
            }
            match known.hear(&lines[i]) {
                Ok(_) => {},
                Err(e) => {
                    proof {
                        lemma_register_stops(views, i as int);
                        lemma_refusal_stays(views, i as int);
                    }
                    return Err(e);
                },
            }
        }
        assert(views.take(lines.len() as int) =~= views);
        Ok(known)
    }

    /// One message, and which shell it came from — opening a shell where the
    /// message is its own account of itself.
    ///
    /// This is the only rule, so a decoder reading a run as it arrives keeps
    /// the same register as one reading it afterwards.
    pub fn hear(&mut self, line: &Line) -> (r: Result<At, Failure>)
        requires
            old(self).wf(),
        ensures
            final(self).wf(),
            match hearing(old(self)@, line@) {
                Some((after, at)) => r matches Ok(a) && a@ == at && final(self)@ == after,
                None => r matches Err(f) && (f.spec_doing(), f.spec_cause()) == hearing_refusal(line@)
                    && final(self)@ == old(self)@,
            },
    {
        let ghost before = self@;
        if let Kind::Join = line.kind {
            let bash = Bash::of(line.words.as_slice())?;
            let at_join = Options::of(line.words.as_slice())?;
            let index = self.joined.len();
            let ghost j: JoinedView = (line.sent, bash@, at_join@);
            self.newest.insert(line.sent.pid.0, index);
            self.joined.push(Joined { opened: line.sent, bash, at_join });
            proof {
                assert(self@ =~= before.push(j));
                assert forall|p: u32| #![trigger self.newest@.contains_key(p)]
                    match newest_of(self@, Pid(p)) {
                        Some(i) => self.newest@.contains_key(p) && self.newest@[p] == i,
                        None => !self.newest@.contains_key(p),
                    } by {
                    lemma_newest_after_push(before, j, Pid(p));
                    assert(old(self).newest@.contains_key(p) ==> true);
                }
            }
            return Ok(At(index));
        }
        match self.newest.get(&line.sent.pid.0) {
            Some(index) => {
                proof {
                    assert(old(self).newest@.contains_key(line.sent.pid.0));
                }
                Ok(At(*index))
            },
            None => {
                proof {
                    assert(!old(self).newest@.contains_key(line.sent.pid.0));
                }
                let mut cause = crate::text::owned("pid ");
                let number = crate::digits::decimal_text(line.sent.pid.0 as u64);
                crate::text::push_str(&mut cause, number.as_str());
                crate::text::push_str(&mut cause, " spoke without ever joining");
                Err(Failure::new(crate::text::owned("placing a message"), cause))
            },
        }
    }

    /// The shell `at` names. It must be one this register handed out.
    pub fn at(&self, at: At) -> (r: &Joined)
        requires
            at@ < self@.len(),
        ensures
            r@ == self@[at@ as int],
    {
        &self.joined[at.0]
    }

    /// Every shell, in the order they joined.
    pub fn all(&self) -> (r: &[Joined])
        ensures
            joined_views(r@) == self@,
    {
        self.joined.as_slice()
    }
}

impl Default for Shells {
    /// The register before anything was heard.
    fn default() -> (r: Self)
        ensures
            r@ == Seq::<JoinedView>::empty(),
            r.wf(),
    {
        let r = Shells { joined: Vec::new(), newest: HashMap::new() };
        assert(r@ =~= Seq::<JoinedView>::empty());
        r
    }
}

/// A run that fails to place its `i`th message has no register.
proof fn lemma_register_stops(views: Seq<LineView>, i: int)
    requires
        0 <= i < views.len(),
        register(views.take(i)) matches Some(joined) && hearing(joined, views[i]) is None,
    ensures
        register(views) is None,
    decreases views.len() - i,
{
    let next = views.take(i + 1);
    assert(next.drop_last() =~= views.take(i));
    assert(placement(next) is None);
    lemma_placement_stays_none(views, i + 1);
}

proof fn lemma_refusal_stays(views: Seq<LineView>, i: int)
    requires
        0 <= i < views.len(),
        register(views.take(i)) matches Some(joined) && hearing(joined, views[i]) is None,
    ensures
        first_refusal(views) == Some(hearing_refusal(views[i])),
    decreases views.len() - i,
{
    if i + 1 == views.len() {
        assert(views.drop_last() =~= views.take(i));
    } else {
        let shorter = views.drop_last();
        assert(shorter.take(i) =~= views.take(i));
        lemma_refusal_stays(shorter, i);
        assert(views.take(i + 1).drop_last() =~= views.take(i));
        assert(placement(views.take(i + 1)) is None);
        assert(shorter.take(i + 1) =~= views.take(i + 1));
        lemma_placement_stays_none(shorter, i + 1);
    }
}

proof fn lemma_placement_stays_none(views: Seq<LineView>, n: int)
    requires
        0 <= n <= views.len(),
        placement(views.take(n)) is None,
    ensures
        placement(views) is None,
    decreases views.len() - n,
{
    if n < views.len() {
        assert(views.take(n + 1).drop_last() =~= views.take(n));
        lemma_placement_stays_none(views, n + 1);
    } else {
        assert(views.take(n) =~= views);
    }
}

/// One shell, what it said of itself, and everything it went on to say.
#[derive(Debug)]
pub struct Shell<'a> {
    pub joined: Joined,
    pub lines: Vec<&'a Line>,
}

pub type ShellView = (JoinedView, Seq<LineView>);

impl<'a> View for Shell<'a> {
    type V = ShellView;

    open spec fn view(&self) -> ShellView {
        (self.joined@, self.lines@.map_values(|l: &Line| l@))
    }
}

impl<'a> Clone for Shell<'a> {
    fn clone(&self) -> (r: Self)
        ensures
            r@ == self@,
    {
        let mut lines: Vec<&'a Line> = Vec::new();
        for k in 0..self.lines.len()
            invariant
                lines@ == self.lines@.take(k as int),
        {
            lines.push(self.lines[k]);
            assert(self.lines@.take(k + 1) == self.lines@.take(k as int).push(self.lines@[k as int]));
        }
        assert(self.lines@.take(self.lines.len() as int) == self.lines@);
        Shell { joined: self.joined.clone(), lines }
    }
}

/// A shell of the forest, carrying every shell forked from it.
#[derive(Debug)]
pub struct ShellNode<'a> {
    pub shell: Shell<'a>,
    pub children: Vec<ShellNode<'a>>,
}

pub open spec fn shell_views<'a>(shells: Seq<Shell<'a>>) -> Seq<ShellView> {
    shells.map_values(|s: Shell<'a>| s@)
}

/// The messages among the first `n` that were placed in shell `i`, in order.
pub open spec fn members(lines: Seq<LineView>, places: Seq<int>, i: int, n: int) -> Seq<LineView>
    decreases n,
{
    if n <= 0 {
        Seq::empty()
    } else if places[n - 1] == i {
        members(lines, places, i, n - 1).push(lines[n - 1])
    } else {
        members(lines, places, i, n - 1)
    }
}

/// The arrangement a run's messages make: each shell of the register with
/// the messages placed in it.
pub open spec fn arranged(lines: Seq<LineView>) -> Option<Seq<ShellView>> {
    match placement(lines) {
        Some((joined, places)) => Some(
            Seq::new(
                joined.len(),
                |i: int| (joined[i], members(lines, places, i, lines.len() as int)),
            ),
        ),
        None => None,
    }
}

pub open spec fn usize_places(places: Seq<usize>) -> Seq<int> {
    places.map_values(|p: usize| p as int)
}

/// The shells a run's messages reveal, each carrying its own.
///
/// The grouping walks [`Shells::hear`] rather than deciding anything of its
/// own, which is what keeps the two readings of one run in step.
pub fn shells<'a>(lines: &'a [Line]) -> (r: Result<Vec<Shell<'a>>, Failure>)
    ensures
        match arranged(line_views(lines@)) {
            Some(arrangement) => r matches Ok(out) && shell_views(out@) == arrangement,
            None => r is Err,
        },
{
    let ghost views = line_views(lines@);
    let mut known = Shells::default();
    let mut places: Vec<usize> = Vec::new();
    for i in 0..lines.len()
        invariant
            known.wf(),
            views == line_views(lines@),
            placement(views.take(i as int)) == Some((known@, usize_places(places@))),
    {
        proof {
            assert(views.take(i + 1).drop_last() =~= views.take(i as int));
        }
        match known.hear(&lines[i]) {
            Ok(at) => {
                let ghost before = places@;
                places.push(at.0);
                assert(usize_places(places@) =~= usize_places(before).push(at@ as int));
            },
            Err(e) => {
                proof {
                    assert(views.take(i + 1).drop_last() =~= views.take(i as int));
                    lemma_placement_stays_none(views, i + 1);
                }
                return Err(e);
            },
        }
    }
    assert(views.take(lines.len() as int) =~= views);
    let ghost joined = known@;
    let ghost placed = usize_places(places@);
    proof {
        lemma_places_in_range(views);
        assert(placed.len() == places@.len());
    }
    let mut out: Vec<Shell<'a>> = Vec::new();
    let count = known.joined.len();
    for s in 0..count
        invariant
            count == known.joined@.len(),
            joined == known@,
            views == line_views(lines@),
            placed == usize_places(places@),
            places@.len() == lines@.len(),
            placement(views) == Some((joined, placed)),
            shell_views(out@) =~= Seq::new(
                s as nat,
                |i: int| (joined[i], members(views, placed, i, views.len() as int)),
            ),
    {
        let mut group: Vec<&'a Line> = Vec::new();
        for k in 0..lines.len()
            invariant
                views == line_views(lines@),
                placed == usize_places(places@),
                places@.len() == lines@.len(),
                group@.map_values(|l: &Line| l@) =~= members(views, placed, s as int, k as int),
        {
            if places[k] == s {
                group.push(&lines[k]);
            }
        }
        let ghost before = shell_views(out@);
        out.push(Shell { joined: known.joined[s].clone(), lines: group });
        assert(shell_views(out@) =~= before.push(out@[s as int]@));
    }
    Ok(out)
}

/// Whether shell `c` may be the one shell `i` was forked from: an earlier
/// shell carrying `i`'s parent pid, no generation of which, up to `c`,
/// opened after `i` did.
pub open spec fn may_fork(opened: Seq<Sent>, i: int, c: int) -> bool {
    &&& 0 <= c < i
    &&& opened[c].pid == opened[i].parent
    &&& forall|d: int|
        0 <= d <= c && #[trigger] opened[d].pid == opened[i].parent ==> opened[d].sent_at.0
            <= opened[i].sent_at.0
}

/// The newest shell below `k` that shell `i` may have been forked from.
pub open spec fn forked_below(opened: Seq<Sent>, i: int, k: int) -> Option<int>
    decreases k,
{
    if k <= 0 {
        None
    } else if may_fork(opened, i, k - 1) {
        Some(k - 1)
    } else {
        forked_below(opened, i, k - 1)
    }
}

/// The shell that shell `i` was forked from: the newest generation of its
/// parent pid that had opened by then, or none where the parent never
/// emitted.
pub open spec fn forked(opened: Seq<Sent>, i: int) -> Option<int> {
    forked_below(opened, i, i)
}

pub open spec fn opened_of(shells: Seq<ShellView>) -> Seq<Sent> {
    shells.map_values(|s: ShellView| s.0.0)
}

pub open spec fn parents_of(opened: Seq<Sent>) -> Seq<Option<int>> {
    Seq::new(opened.len(), |i: int| forked(opened, i))
}

pub open spec fn as_index(o: Option<usize>) -> Option<int> {
    match o {
        Some(p) => Some(p as int),
        None => None,
    }
}

/// The fork relation points strictly backwards: a shell can only have been
/// forked from one that had already joined, so a walk up it ends.
pub proof fn lemma_forked_precedes(opened: Seq<Sent>, i: int)
    ensures
        forked(opened, i) matches Some(c) ==> 0 <= c < i,
{
    lemma_forked_below(opened, i, i);
}

proof fn lemma_forked_below(opened: Seq<Sent>, i: int, k: int)
    ensures
        forked_below(opened, i, k) matches Some(c) ==> 0 <= c < i && c < k,
    decreases k,
{
    if k > 0 {
        lemma_forked_below(opened, i, k - 1);
    }
}

/// Which generation of the parent pid shell `index` belongs under: the
/// newest one, ahead of it in the register, such that no generation of
/// that pid up to it opened later than the child did.
pub fn parent_of(shells: &[Shell<'_>], index: usize) -> (r: Option<usize>)
    requires
        index < shells.len(),
    ensures
        as_index(r) == forked(opened_of(shell_views(shells@)), index as int),
{
    let ghost opened = opened_of(shell_views(shells@));
    let me = shells[index].joined.opened;
    let mut best: Option<usize> = None;
    let mut open = true;
    for d in 0..index
        invariant
            index < shells.len(),
            opened == opened_of(shell_views(shells@)),
            me == opened[index as int],
            as_index(best) == forked_below(opened, index as int, d as int),
            open == forall|e: int|
                0 <= e < d && #[trigger] opened[e].pid == me.parent ==> opened[e].sent_at.0
                    <= me.sent_at.0,
    {
        let candidate = shells[d].joined.opened;
        assert(candidate == opened[d as int]);
        if candidate.pid.0 == me.parent.0 {
            if open && candidate.sent_at.0 <= me.sent_at.0 {
                best = Some(d);
            } else {
                open = false;
            }
        }
    }
    best
}

/// For each shell, the shell it was forked from: the newest generation of
/// its parent pid that had opened by then. `None` is a shell whose parent
/// never emitted — the outermost one, whose parent is the run itself.
///
/// A parent's index is always below its child's, so walking this upward
/// terminates.
pub fn forked_from(shells: &[Shell<'_>]) -> (r: Vec<Option<usize>>)
    ensures
        r@.len() == shells@.len(),
        forall|i: int|
            0 <= i < shells@.len() ==> as_index(#[trigger] r@[i]) == forked(
                opened_of(shell_views(shells@)),
                i,
            ),
{
    let mut r: Vec<Option<usize>> = Vec::new();
    for i in 0..shells.len()
        invariant
            r@.len() == i,
            forall|j: int|
                0 <= j < i ==> as_index(#[trigger] r@[j]) == forked(
                    opened_of(shell_views(shells@)),
                    j,
                ),
    {
        r.push(parent_of(shells, i));
    }
    r
}

/// The shells among the first `n` whose parent is `p`, in order.
pub open spec fn with_parent(parents: Seq<Option<int>>, p: Option<int>, n: int) -> Seq<int>
    decreases n,
{
    if n <= 0 {
        Seq::empty()
    } else if parents[n - 1] == p {
        with_parent(parents, p, n - 1).push(n - 1)
    } else {
        with_parent(parents, p, n - 1)
    }
}

/// Whether `node` is shell `i` carrying, in order, a node for each shell
/// forked from it, and so on down.
pub open spec fn fits<'a>(
    node: ShellNode<'a>,
    shells: Seq<ShellView>,
    parents: Seq<Option<int>>,
    i: int,
) -> bool
    decreases shells.len() - i, 1int, 0int,
{
    let kids = with_parent(parents, Some(i), parents.len() as int);
    &&& 0 <= i < shells.len()
    &&& node.shell@ == shells[i]
    &&& node.children@.len() == kids.len()
    &&& fits_each(node.children@, shells, parents, kids, i, kids.len() as int)
}

/// Whether the first `n` of `nodes` are the nodes of shells `kids`, each
/// forked from shell `i`.
pub open spec fn fits_each<'a>(
    nodes: Seq<ShellNode<'a>>,
    shells: Seq<ShellView>,
    parents: Seq<Option<int>>,
    kids: Seq<int>,
    i: int,
    n: int,
) -> bool
    decreases shells.len() - i, 0int, n,
{
    if n <= 0 {
        true
    } else {
        &&& fits_each(nodes, shells, parents, kids, i, n - 1)
        &&& i < kids[n - 1]
        &&& kids[n - 1] < shells.len()
        &&& fits(nodes[n - 1], shells, parents, kids[n - 1])
    }
}

/// Nodes past the first `n` do not bear on whether those `n` fit.
proof fn lemma_fits_each_prefix<'a>(
    nodes: Seq<ShellNode<'a>>,
    shells: Seq<ShellView>,
    parents: Seq<Option<int>>,
    kids: Seq<int>,
    i: int,
    n: int,
    next: ShellNode<'a>,
    c: int,
)
    requires
        0 <= n <= nodes.len(),
        n <= kids.len(),
    ensures
        fits_each(nodes.push(next), shells, parents, kids.push(c), i, n) == fits_each(
            nodes,
            shells,
            parents,
            kids,
            i,
            n,
        ),
    decreases n,
{
    if n > 0 {
        lemma_fits_each_prefix(nodes, shells, parents, kids, i, n - 1, next, c);
        assert(nodes.push(next)[n - 1] == nodes[n - 1]);
        assert(kids.push(c)[n - 1] == kids[n - 1]);
    }
}

/// Adding the next child's node keeps the children in step.
proof fn lemma_fits_each_push<'a>(
    nodes: Seq<ShellNode<'a>>,
    shells: Seq<ShellView>,
    parents: Seq<Option<int>>,
    kids: Seq<int>,
    i: int,
    next: ShellNode<'a>,
    c: int,
)
    requires
        nodes.len() == kids.len(),
        fits_each(nodes, shells, parents, kids, i, nodes.len() as int),
        i < c < shells.len(),
        fits(next, shells, parents, c),
    ensures
        fits_each(nodes.push(next), shells, parents, kids.push(c), i, nodes.len() + 1int),
{
    lemma_fits_each_prefix(nodes, shells, parents, kids, i, nodes.len() as int, next, c);
    assert(nodes.push(next)[nodes.len() as int] == next);
    assert(kids.push(c)[nodes.len() as int] == c);
}

/// Shells linked through [`forked_from`], every root carrying what it
/// started.
pub fn forest<'a>(shells: &[Shell<'a>]) -> (r: Vec<ShellNode<'a>>)
    ensures
        ({
            let views = shell_views(shells@);
            let parents = parents_of(opened_of(views));
            let roots = with_parent(parents, None, views.len() as int);
            &&& r@.len() == roots.len()
            &&& forall|k: int| 0 <= k < roots.len() ==> fits(#[trigger] r@[k], views, parents, roots[k])
        }),
{
    let ghost views = shell_views(shells@);
    let ghost parents = parents_of(opened_of(views));
    let links = forked_from(shells);
    assert(parents =~= links@.map_values(|o: Option<usize>| as_index(o)));
    let mut roots: Vec<ShellNode<'a>> = Vec::new();
    for i in 0..shells.len()
        invariant
            views == shell_views(shells@),
            parents == parents_of(opened_of(views)),
            parents =~= links@.map_values(|o: Option<usize>| as_index(o)),
            links@.len() == shells@.len(),
            roots@.len() == with_parent(parents, None, i as int).len(),
            forall|k: int|
                0 <= k < roots@.len() ==> fits(
                    #[trigger] roots@[k],
                    views,
                    parents,
                    with_parent(parents, None, i as int)[k],
                ),
    {
        let ghost before = roots@;
        if links[i].is_none() {
            assert(parents[i as int] == None::<int>);
            roots.push(node(shells, &links, i));
            assert(with_parent(parents, None, i + 1) == with_parent(parents, None, i as int).push(
                i as int,
            ));
            assert forall|k: int| 0 <= k < roots@.len() implies fits(
                #[trigger] roots@[k],
                views,
                parents,
                with_parent(parents, None, i + 1)[k],
            ) by {
                if k < before.len() {
                    assert(roots@[k] == before[k]);
                }
            }
        } else {
            assert(parents[i as int] != None::<int>);
            assert(with_parent(parents, None, i + 1) == with_parent(parents, None, i as int));
        }
    }
    roots
}

/// The node for shell `index`, with everything forked from it.
fn node<'a>(shells: &[Shell<'a>], links: &Vec<Option<usize>>, index: usize) -> (r: ShellNode<'a>)
    requires
        index < shells.len(),
        links@.len() == shells@.len(),
        parents_of(opened_of(shell_views(shells@))) =~= links@.map_values(
            |o: Option<usize>| as_index(o),
        ),
    ensures
        fits(r, shell_views(shells@), parents_of(opened_of(shell_views(shells@))), index as int),
    decreases shells.len() - index,
{
    let ghost views = shell_views(shells@);
    let ghost parents = parents_of(opened_of(views));
    let ghost me = Some(index as int);
    let mut children: Vec<ShellNode<'a>> = Vec::new();
    let mut j: usize = 0;
    while j < shells.len()
        invariant
            j <= shells.len(),
            index < shells.len(),
            views == shell_views(shells@),
            parents == parents_of(opened_of(views)),
            parents =~= links@.map_values(|o: Option<usize>| as_index(o)),
            links@.len() == shells@.len(),
            me == Some(index as int),
            children@.len() == with_parent(parents, me, j as int).len(),
            fits_each(
                children@,
                views,
                parents,
                with_parent(parents, me, j as int),
                index as int,
                children@.len() as int,
            ),
        decreases shells.len() - j,
    {
        let ghost before = children@;
        let ghost kids = with_parent(parents, me, j as int);
        let is_child = match links[j] {
            Some(p) => p == index,
            None => false,
        };
        if is_child {
            proof {
                assert(parents[j as int] == me);
                assert(parents[j as int] == forked(opened_of(views), j as int));
                lemma_forked_precedes(opened_of(views), j as int);
            }
            let child = node(shells, links, j);
            proof {
                lemma_fits_each_push(before, views, parents, kids, index as int, child, j as int);
                assert(with_parent(parents, me, j + 1) == kids.push(j as int));
            }
            children.push(child);
        } else {
            proof {
                assert(parents[j as int] != me);
                assert(with_parent(parents, me, j + 1) == kids);
            }
        }
        j = j + 1;
    }
    let r = ShellNode { shell: shells[index].clone(), children };
    assert(parents.len() == j);
    assert(r.shell@ == views[index as int]);
    r
}

/// The arrangement is built on the register and on nothing else: a run has
/// one exactly when it has the other, and the arrangement's shells are the
/// register's, in the same order, each carrying the messages placed in it.
pub proof fn lemma_arrangement_walks_register(lines: Seq<LineView>)
    ensures
        arranged(lines) is Some <==> register(lines) is Some,
        arranged(lines) matches Some(a) ==> {
            &&& a.len() == register(lines)->0.len()
            &&& forall|i: int| 0 <= i < a.len() ==> (#[trigger] a[i]).0 == register(lines)->0[i]
        },
{
}

proof fn lemma_newest_is_greatest(joined: Seq<JoinedView>, pid: Pid)
    ensures
        match newest_of(joined, pid) {
            Some(i) => 0 <= i < joined.len() && joined[i].0.pid == pid && forall|k: int|
                i < k < joined.len() ==> (#[trigger] joined[k]).0.pid != pid,
            None => forall|k: int| 0 <= k < joined.len() ==> (#[trigger] joined[k]).0.pid != pid,
        },
    decreases joined.len(),
{
    if joined.len() > 0 {
        let rest = joined.drop_last();
        lemma_newest_is_greatest(rest, pid);
        if joined.last().0.pid != pid {
            assert forall|k: int| 0 <= k < rest.len() implies #[trigger] joined[k] == rest[k] by {}
        }
    }
}

/// How one message is heard: a join opens the next shell where its account
/// reads, and is refused where it does not; any other message belongs to the
/// shell of the greatest index whose pid sent it, and is refused where no
/// shell has that pid. Only a join changes the register.
pub proof fn lemma_hearing_rule(joined: Seq<JoinedView>, line: LineView)
    ensures
        line.0 == Kind::Join ==> hearing(joined, line) == match joined_of(line.1, line.2) {
            Some(j) => Some((joined.push(j), joined.len() as int)),
            None => None::<(Seq<JoinedView>, int)>,
        },
        line.0 != Kind::Join ==> match hearing(joined, line) {
            Some((after, i)) => {
                &&& after == joined
                &&& 0 <= i < joined.len()
                &&& joined[i].0.pid == line.1.pid
                &&& forall|k: int| i < k < joined.len() ==> (#[trigger] joined[k]).0.pid != line.1.pid
            },
            None => forall|k: int| 0 <= k < joined.len() ==> (#[trigger] joined[k]).0.pid != line.1.pid,
        },
{
    lemma_newest_is_greatest(joined, line.1.pid);
}

/// Each generation of a pid opened no earlier than the one before it.
pub open spec fn generations_in_clock_order(opened: Seq<Sent>) -> bool {
    forall|a: int, b: int|
        0 <= a < b < opened.len() && (#[trigger] opened[a]).pid == (#[trigger] opened[b]).pid
            ==> opened[a].sent_at.0 <= opened[b].sent_at.0
}

/// Whether shell `j` is a generation of shell `i`'s parent pid, ahead of it,
/// that had opened by the time `i` did.
pub open spec fn could_be_parent(opened: Seq<Sent>, i: int, j: int) -> bool {
    &&& 0 <= j < i
    &&& opened[j].pid == opened[i].parent
    &&& opened[j].sent_at.0 <= opened[i].sent_at.0
}

proof fn lemma_forked_below_newest(opened: Seq<Sent>, i: int, k: int)
    requires
        0 <= i < opened.len(),
        0 <= k <= i,
        generations_in_clock_order(opened),
    ensures
        match forked_below(opened, i, k) {
            Some(j) => could_be_parent(opened, i, j) && forall|m: int| j < m < k ==> !could_be_parent(opened, i, m),
            None => forall|m: int| 0 <= m < k ==> !could_be_parent(opened, i, m),
        },
    decreases k,
{
    if k > 0 {
        let c = k - 1;
        lemma_forked_below_newest(opened, i, c);
        if could_be_parent(opened, i, c) {
            assert forall|d: int| 0 <= d <= c && #[trigger] opened[d].pid == opened[i].parent implies opened[d].sent_at.0
                <= opened[i].sent_at.0 by {
                if d < c {
                    assert(opened[d].pid == opened[c].pid);
                }
            }
            assert(may_fork(opened, i, c));
        } else {
            if may_fork(opened, i, c) {
                assert(opened[c].pid == opened[c].pid);
            }
            assert(!may_fork(opened, i, c));
        }
    }
}

/// Which shell a shell forked from, said directly: where each pid's
/// generations opened in clock order, it is the generation of its parent
/// pid with the greatest index below it that had opened by the time it
/// did, and none where there is no such generation.
pub proof fn lemma_forked_is_newest_parent(opened: Seq<Sent>, i: int)
    requires
        0 <= i < opened.len(),
        generations_in_clock_order(opened),
    ensures
        match forked(opened, i) {
            Some(j) => could_be_parent(opened, i, j) && forall|m: int| j < m < i ==> !could_be_parent(opened, i, m),
            None => forall|m: int| 0 <= m < i ==> !could_be_parent(opened, i, m),
        },
{
    lemma_forked_below_newest(opened, i, i);
}

} // verus!
