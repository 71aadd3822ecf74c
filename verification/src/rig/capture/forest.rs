//! Who said what, and who started whom.

use std::collections::HashMap;

use vstd::prelude::*;

use super::origin::{origin_of, Origin, OriginView, ORIGIN_TAG};
use super::{chrono, ref_views, Capture, LineView};
use crate::rig::record::{FromRecord, Line, Pid, Stamp};
use crate::rig::tree::{as_index, with_parent};

verus! {

broadcast use vstd::std_specs::hash::group_hash_axioms;

/// One emitting shell: the line that opened it and everything it wrote
/// afterwards.
#[derive(Debug)]
pub struct Shell<'a> {
    pub pid: Pid,
    pub opened_at: Stamp,
    pub origin: Option<Origin>,
    pub lines: Vec<&'a Line>,
}

pub type ShellView = (Pid, Stamp, Option<OriginView>, Seq<LineView>);

pub open spec fn origin_view(o: Option<Origin>) -> Option<OriginView> {
    match o {
        Some(origin) => Some(origin@),
        None => None,
    }
}

impl<'a> View for Shell<'a> {
    type V = ShellView;

    open spec fn view(&self) -> ShellView {
        (self.pid, self.opened_at, origin_view(self.origin), ref_views(self.lines@))
    }
}

impl<'a> Clone for Shell<'a> {
    fn clone(&self) -> (r: Self)
        ensures
            r@ == self@,
    {
        let mut lines: Vec<&'a Line> = Vec::new();
        for k in 0..self.lines.len()
            invariant
                lines@ == self.lines@.take(k as int),
        {
            lines.push(self.lines[k]);
            assert(self.lines@.take(k + 1) == self.lines@.take(k as int).push(self.lines@[k as int]));
        }
        assert(self.lines@.take(self.lines.len() as int) == self.lines@);
        let origin = match &self.origin {
            Some(o) => Some(o.clone()),
            None => None,
        };
        Shell { pid: self.pid, opened_at: self.opened_at, origin, lines }
    }
}

#[derive(Debug)]
pub struct ShellNode<'a> {
    pub shell: Shell<'a>,
    pub children: Vec<ShellNode<'a>>,
}

pub open spec fn shell_views<'a>(shells: Seq<Shell<'a>>) -> Seq<ShellView> {
    shells.map_values(|s: Shell<'a>| s@)
}

/// Whether a line is a shell's account of where it came from.
pub open spec fn is_origin(line: LineView) -> bool {
    line.1.0 == ORIGIN_TAG@
}

/// The newest shell, among those opened at `heads`, carrying `pid`.
pub open spec fn newest_head(lines: Seq<LineView>, heads: Seq<int>, pid: Pid) -> Option<int>
    decreases heads.len(),
{
    if heads.len() == 0 {
        None
    } else if lines[heads.last()].0.pid == pid {
        Some(heads.len() - 1)
    } else {
        newest_head(lines, heads.drop_last(), pid)
    }
}

/// Which lines open shells, and which shell each line belongs to: an origin
/// opens a shell, and so does the first line of a pid never heard from;
/// every other line joins the newest shell of its pid.
pub open spec fn grouping(lines: Seq<LineView>) -> (Seq<int>, Seq<int>)
    decreases lines.len(),
{
    if lines.len() == 0 {
        (Seq::empty(), Seq::empty())
    } else {
        let (heads, places) = grouping(lines.drop_last());
        let line = lines.last();
        match newest_head(lines, heads, line.0.pid) {
            Some(s) if !is_origin(line) => (heads, places.push(s)),
            _ => (heads.push(lines.len() - 1), places.push(heads.len() as int)),
        }
    }
}

/// The messages among the first `n` placed in shell `i`, in order.
pub open spec fn members(lines: Seq<LineView>, places: Seq<int>, i: int, n: int) -> Seq<LineView>
    decreases n,
{
    if n <= 0 {
        Seq::empty()
    } else if places[n - 1] == i {
        members(lines, places, i, n - 1).push(lines[n - 1])
    } else {
        members(lines, places, i, n - 1)
    }
}

/// What the line opening a shell says of where it came from, where it is an
/// origin that reads.
pub open spec fn opening_origin(line: LineView) -> Option<OriginView> {
    if is_origin(line) {
        match origin_of(line.1.1) {
            Ok(o) => Some(o),
            Err(_) => None,
        }
    } else {
        None
    }
}

/// The shells ordered lines reveal, each with everything it wrote.
pub open spec fn shells_of(lines: Seq<LineView>) -> Seq<ShellView> {
    let (heads, places) = grouping(lines);
    Seq::new(
        heads.len(),
        |s: int|
            (
                lines[heads[s]].0.pid,
                lines[heads[s]].0,
                opening_origin(lines[heads[s]]),
                members(lines, places, s, lines.len() as int),
            ),
    )
}

proof fn lemma_newest_head(lines: Seq<LineView>, heads: Seq<int>, pid: Pid)
    ensures
        newest_head(lines, heads, pid) matches Some(s) ==> 0 <= s < heads.len() && lines[heads[s]].0.pid
            == pid,
        newest_head(lines, heads, pid) is None ==> forall|s: int|
            0 <= s < heads.len() ==> lines[#[trigger] heads[s]].0.pid != pid,
    decreases heads.len(),
{
    if heads.len() > 0 {
        let rest = heads.drop_last();
        lemma_newest_head(lines, rest, pid);
        if newest_head(lines, heads, pid) is None {
            assert forall|s: int| 0 <= s < heads.len() implies lines[#[trigger] heads[s]].0.pid
                != pid by {
                if s < rest.len() {
                    assert(heads[s] == rest[s]);
                }
            }
        }
    }
}

proof fn lemma_newest_head_agrees(a: Seq<LineView>, b: Seq<LineView>, heads: Seq<int>, pid: Pid)
    requires
        forall|s: int| 0 <= s < heads.len() ==> 0 <= #[trigger] heads[s] < a.len() && heads[s] < b.len()
            && a[heads[s]] == b[heads[s]],
    ensures
        newest_head(a, heads, pid) == newest_head(b, heads, pid),
    decreases heads.len(),
{
    if heads.len() > 0 {
        assert(a[heads.last()] == b[heads.last()]);
        lemma_newest_head_agrees(a, b, heads.drop_last(), pid);
    }
}

proof fn lemma_newest_head_push(lines: Seq<LineView>, heads: Seq<int>, h: int, pid: Pid)
    ensures
        newest_head(lines, heads.push(h), pid) == if lines[h].0.pid == pid {
            Some(heads.len() as int)
        } else {
            newest_head(lines, heads, pid)
        },
{
    assert(heads.push(h).drop_last() =~= heads);
}

/// The heads of a grouping are the lines, in order, that opened a shell;
/// every line is placed in a shell already open.
proof fn lemma_grouping(lines: Seq<LineView>)
    ensures
        grouping(lines).1.len() == lines.len(),
        forall|s: int|
            0 <= s < grouping(lines).0.len() ==> 0 <= #[trigger] grouping(lines).0[s] < lines.len(),
        forall|k: int|
            0 <= k < lines.len() ==> 0 <= #[trigger] grouping(lines).1[k] < grouping(lines).0.len(),
    decreases lines.len(),
{
    if lines.len() > 0 {
        let rest = lines.drop_last();
        lemma_grouping(rest);
        let (heads, places) = grouping(rest);
        lemma_newest_head(lines, heads, lines.last().0.pid);
        let (h2, p2) = grouping(lines);
        assert forall|s: int| 0 <= s < h2.len() implies 0 <= #[trigger] h2[s] < lines.len() by {
            if s < heads.len() {
                assert(h2[s] == heads[s]);
            }
        }
        assert forall|k: int| 0 <= k < lines.len() implies 0 <= #[trigger] p2[k] < h2.len() by {
            if k < places.len() {
                assert(p2[k] == places[k]);
            }
        }
    }
}

pub open spec fn as_ints(v: Seq<usize>) -> Seq<int> {
    v.map_values(|x: usize| x as int)
}

/// The index by pid agrees with the shells opened so far.
pub open spec fn indexed(newest: Map<u32, usize>, lines: Seq<LineView>, heads: Seq<int>) -> bool {
    forall|p: u32|
        #![trigger newest.contains_key(p)]
        match newest_head(lines, heads, Pid(p)) {
            Some(s) => newest.contains_key(p) && newest[p] == s,
            None => !newest.contains_key(p),
        }
}

impl Capture {
    /// A record tagged `__ORIGIN__` opens a shell; later records join the
    /// most recent shell with the same pid.
    pub fn shells(&self) -> (r: Vec<Shell<'_>>)
        ensures
            shell_views(r@) == shells_of(chrono(self@)),
    {
        let ordered = self.chronological();
        let ghost c = chrono(self@);
        let mut heads: Vec<usize> = Vec::new();
        let mut places: Vec<usize> = Vec::new();
        let mut newest: HashMap<u32, usize> = HashMap::new();
        for k in 0..ordered.len()
            invariant
                ref_views(ordered@) == c,
                ({
                    let (hs, ps) = grouping(c.take(k as int));
                    &&& hs == as_ints(heads@)
                    &&& ps == as_ints(places@)
                }),
                indexed(newest@, c, as_ints(heads@)),
                forall|s: int| 0 <= s < heads@.len() ==> #[trigger] heads@[s] < k,
        {
            let line = ordered[k];
            let ghost hs = as_ints(heads@);
            let ghost ps = as_ints(places@);
            let ghost prefix = c.take(k as int);
            proof {
                assert(c.take(k + 1).drop_last() =~= prefix);
                assert(line@ == c[k as int]);
                lemma_newest_head_agrees(c.take(k + 1), c, hs, line.stamp.pid);
            }
            let opens = crate::text::same(line.value.tag.as_str(), ORIGIN_TAG);
            let joins = match newest.get(&line.stamp.pid.0) {
                Some(index) => if opens {
                    None
                } else {
                    Some(*index)
                },
                None => None,
            };
            match joins {
                Some(index) => {
                    proof {
                        assert(newest@.contains_key(line.stamp.pid.0));
                    }
                    places.push(index);
                    proof {
                        assert(as_ints(places@) =~= ps.push(index as int));
                    }
                },
                None => {
                    proof {
                        if !opens {
                            assert(!newest@.contains_key(line.stamp.pid.0));
                        }
                    }
                    let count = heads.len();
                    newest.insert(line.stamp.pid.0, count);
                    places.push(count);
                    heads.push(k);
                    proof {
                        assert(as_ints(places@) =~= ps.push(count as int));
                        assert(as_ints(heads@) =~= hs.push(k as int));
                        assert forall|p: u32| #![trigger newest@.contains_key(p)]
                            match newest_head(c, as_ints(heads@), Pid(p)) {
                                Some(s) => newest@.contains_key(p) && newest@[p] == s,
                                None => !newest@.contains_key(p),
                            } by {
                            lemma_newest_head_push(c, hs, k as int, Pid(p));
                        }
                        assert(indexed(newest@, c, as_ints(heads@)));
                    }
                },
            }
        }
        assert(c.take(ordered.len() as int) =~= c);
        let ghost hs = as_ints(heads@);
        let ghost ps = as_ints(places@);
        proof {
            lemma_grouping(c);
        }
        let mut out: Vec<Shell<'_>> = Vec::new();
        for s in 0..heads.len()
            invariant
                ref_views(ordered@) == c,
                grouping(c) == (hs, ps),
                hs == as_ints(heads@),
                ps == as_ints(places@),
                places@.len() == c.len(),
                forall|t: int| 0 <= t < hs.len() ==> 0 <= #[trigger] hs[t] < c.len(),
                shell_views(out@) =~= shells_of(c).take(s as int),
        {
            proof {
                assert(hs[s as int] == heads@[s as int] as int);
                assert(ordered@.len() == c.len());
            }
            let head = ordered[heads[s]];
            proof {
                assert(head@ == c[hs[s as int]]);
            }
            let origin = if crate::text::same(head.value.tag.as_str(), ORIGIN_TAG) {
                match Origin::from_record(&head.value) {
                    Some(Ok(o)) => Some(o),
                    _ => None,
                }
            } else {
                None
            };
            let mut group: Vec<&Line> = Vec::new();
            for k in 0..ordered.len()
                invariant
                    ref_views(ordered@) == c,
                    ps == as_ints(places@),
                    places@.len() == c.len(),
                    ref_views(group@) =~= members(c, ps, s as int, k as int),
            {
                if places[k] == s {
                    group.push(ordered[k]);
                }
            }
            let ghost before = shell_views(out@);
            out.push(Shell { pid: head.stamp.pid, opened_at: head.stamp, origin, lines: group });
            proof {
                assert(shell_views(out@) =~= before.push(out@[s as int]@));
                assert(shells_of(c).take(s + 1) =~= shells_of(c).take(s as int).push(shells_of(c)[s as int]));
            }
        }
        assert(shells_of(c).take(heads.len() as int) =~= shells_of(c));
        out
    }
}

/// The pid a shell's origin names as its parent, where it names one.
pub open spec fn parent_pid(shell: ShellView) -> Option<Pid> {
    match shell.2 {
        Some(o) => o.0,
        None => None,
    }
}

/// Whether shell `c` could be the one shell `i` was forked from: another
/// shell of the parent pid, opened no later than `i` was.
pub open spec fn candidate(shells: Seq<ShellView>, i: int, parent: Pid, c: int) -> bool {
    &&& c != i
    &&& shells[c].0 == parent
    &&& shells[c].1.at.0 <= shells[i].1.at.0
}

/// Among the first `k` shells, the candidate opened last, the later of two
/// opened at one instant.
pub open spec fn best_below(shells: Seq<ShellView>, i: int, parent: Pid, k: int) -> Option<int>
    decreases k,
{
    if k <= 0 {
        None
    } else {
        let best = best_below(shells, i, parent, k - 1);
        if candidate(shells, i, parent, k - 1) && match best {
            Some(b) => shells[b].1.at.0 <= shells[k - 1].1.at.0,
            None => true,
        } {
            Some(k - 1)
        } else {
            best
        }
    }
}

/// The shell that shell `i` was forked from: the newest shell of the pid
/// its origin names that opened no later than it did. None where it has no
/// origin, names no parent, or the parent never emitted.
pub open spec fn forked(shells: Seq<ShellView>, i: int) -> Option<int> {
    match parent_pid(shells[i]) {
        Some(parent) => best_below(shells, i, parent, shells.len() as int),
        None => None,
    }
}

pub open spec fn parents_of(shells: Seq<ShellView>) -> Seq<Option<int>> {
    Seq::new(shells.len(), |i: int| forked(shells, i))
}

proof fn lemma_best_below(shells: Seq<ShellView>, i: int, parent: Pid, k: int)
    ensures
        best_below(shells, i, parent, k) matches Some(c) ==> 0 <= c < k && c != i,
    decreases k,
{
    if k > 0 {
        lemma_best_below(shells, i, parent, k - 1);
    }
}

/// A walk from a root down through the forked-from relation: it starts at a
/// shell with no parent, and each step goes to a shell forked from the one
/// before.
pub open spec fn descent(parents: Seq<Option<int>>, path: Seq<int>) -> bool {
    &&& path.len() >= 1
    &&& forall|t: int| 0 <= t < path.len() ==> 0 <= #[trigger] path[t] < parents.len()
    &&& parents[path[0]] is None
    &&& forall|t: int| 1 <= t < path.len() ==> parents[#[trigger] path[t]] == Some(path[t - 1])
}

proof fn lemma_descent_distinct(parents: Seq<Option<int>>, path: Seq<int>, a: int)
    requires
        descent(parents, path),
        0 <= a < path.len(),
    ensures
        forall|b: int| a < b < path.len() ==> path[a] != #[trigger] path[b],
    decreases a,
{
    if a > 0 {
        lemma_descent_distinct(parents, path, a - 1);
        assert forall|b: int| a < b < path.len() implies path[a] != #[trigger] path[b] by {
            if path[a] == path[b] {
                assert(parents[path[a]] == Some(path[a - 1]));
                assert(parents[path[b]] == Some(path[b - 1]));
                assert(path[a - 1] != path[b - 1]);
            }
        }
    } else {
        assert forall|b: int| a < b < path.len() implies path[a] != #[trigger] path[b] by {
            assert(parents[path[b]] == Some(path[b - 1]));
        }
    }
}

/// A walk down from a root never meets a shell twice, so it is no longer
/// than there are shells: the forest holds no cycle.
pub proof fn lemma_descent_bounded(parents: Seq<Option<int>>, path: Seq<int>)
    requires
        descent(parents, path),
    ensures
        path.len() <= parents.len(),
{
    assert forall|a: int, b: int| 0 <= a < path.len() && 0 <= b < path.len() && a != b implies path[a]
        != path[b] by {
        if a < b {
            lemma_descent_distinct(parents, path, a);
        } else {
            lemma_descent_distinct(parents, path, b);
        }
    }
    assert(path.no_duplicates());
    path.unique_seq_to_set();
    let range = vstd::set_lib::set_int_range(0, parents.len() as int);
    vstd::set_lib::lemma_int_range(0, parents.len() as int);
    assert(path.to_set().subset_of(range));
    vstd::set_lib::lemma_len_subset(path.to_set(), range);
}

/// Whether `node` is shell `i` carrying, in order, a node for each shell
/// forked from it, and so on down, no deeper than `depth`.
pub open spec fn grown<'a>(
    node: ShellNode<'a>,
    shells: Seq<ShellView>,
    parents: Seq<Option<int>>,
    i: int,
    depth: nat,
) -> bool
    decreases depth, 0int,
{
    let kids = with_parent(parents, Some(i), parents.len() as int);
    &&& depth > 0
    &&& 0 <= i < shells.len()
    &&& node.shell@ == shells[i]
    &&& node.children@.len() == kids.len()
    &&& grown_each(node.children@, shells, parents, kids, (depth - 1) as nat, kids.len() as int)
}

/// Whether the first `n` of `nodes` are grown from shells `kids`.
pub open spec fn grown_each<'a>(
    nodes: Seq<ShellNode<'a>>,
    shells: Seq<ShellView>,
    parents: Seq<Option<int>>,
    kids: Seq<int>,
    depth: nat,
    n: int,
) -> bool
    decreases depth, n,
{
    if n <= 0 {
        true
    } else {
        &&& grown_each(nodes, shells, parents, kids, depth, n - 1)
        &&& grown(nodes[n - 1], shells, parents, kids[n - 1], depth)
    }
}

proof fn lemma_grown_each_prefix<'a>(
    nodes: Seq<ShellNode<'a>>,
    shells: Seq<ShellView>,
    parents: Seq<Option<int>>,
    kids: Seq<int>,
    depth: nat,
    n: int,
    next: ShellNode<'a>,
    c: int,
)
    requires
        0 <= n <= nodes.len(),
        n <= kids.len(),
    ensures
        grown_each(nodes.push(next), shells, parents, kids.push(c), depth, n) == grown_each(
            nodes,
            shells,
            parents,
            kids,
            depth,
            n,
        ),
    decreases n,
{
    if n > 0 {
        lemma_grown_each_prefix(nodes, shells, parents, kids, depth, n - 1, next, c);
        assert(nodes.push(next)[n - 1] == nodes[n - 1]);
        assert(kids.push(c)[n - 1] == kids[n - 1]);
    }
}

/// For each shell, the shell it was forked from.
fn parent_of(shells: &[Shell<'_>], index: usize) -> (r: Option<usize>)
    requires
        index < shells.len(),
    ensures
        as_index(r) == forked(shell_views(shells@), index as int),
{
    let ghost views = shell_views(shells@);
    assert(views[index as int] == shells@[index as int]@);
    let parent = match &shells[index].origin {
        Some(origin) => match origin.parent {
            Some(p) => p,
            None => return None,
        },
        None => return None,
    };
    let at = shells[index].opened_at.at.0;
    let mut best: Option<usize> = None;
    for k in 0..shells.len()
        invariant
            index < shells.len(),
            views == shell_views(shells@),
            parent_pid(views[index as int]) == Some(parent),
            at == views[index as int].1.at.0,
            as_index(best) == best_below(views, index as int, parent, k as int),
            best matches Some(b) ==> b < k,
    {
        assert(views[k as int] == shells@[k as int]@);
        let fits = k != index && shells[k].pid.0 == parent.0 && shells[k].opened_at.at.0 <= at;
        let later = match best {
            Some(b) => {
                assert(views[b as int] == shells@[b as int]@);
                shells[b].opened_at.at.0 <= shells[k].opened_at.at.0
            },
            None => true,
        };
        if fits && later {
            best = Some(k);
        }
    }
    best
}

/// Shells linked through [`forked`], every root carrying what it started.
fn links<'a>(shells: &[Shell<'a>]) -> (r: Vec<Option<usize>>)
    ensures
        r@.len() == shells@.len(),
        parents_of(shell_views(shells@)) =~= r@.map_values(|o: Option<usize>| as_index(o)),
{
    let mut r: Vec<Option<usize>> = Vec::new();
    for i in 0..shells.len()
        invariant
            r@.len() == i,
            forall|j: int|
                0 <= j < i ==> as_index(#[trigger] r@[j]) == forked(shell_views(shells@), j),
    {
        r.push(parent_of(shells, i));
    }
    r
}

/// The node for shell `index`, reached from a root down `path`.
fn node<'a>(
    shells: &[Shell<'a>],
    links: &Vec<Option<usize>>,
    index: usize,
    Ghost(path): Ghost<Seq<int>>,
) -> (r: ShellNode<'a>)
    requires
        links@.len() == shells@.len(),
        parents_of(shell_views(shells@)) =~= links@.map_values(|o: Option<usize>| as_index(o)),
        descent(parents_of(shell_views(shells@)), path),
        path.last() == index,
    ensures
        grown(
            r,
            shell_views(shells@),
            parents_of(shell_views(shells@)),
            index as int,
            (shells@.len() + 1 - path.len()) as nat,
        ),
    decreases shells@.len() - path.len(),
{
    let ghost views = shell_views(shells@);
    let ghost parents = parents_of(views);
    let ghost me = Some(index as int);
    let ghost depth = (shells@.len() + 1 - path.len()) as nat;
    proof {
        lemma_descent_bounded(parents, path);
    }
    let mut children: Vec<ShellNode<'a>> = Vec::new();
    let mut j: usize = 0;
    while j < shells.len()
        invariant
            j <= shells.len(),
            views == shell_views(shells@),
            parents == parents_of(views),
            parents =~= links@.map_values(|o: Option<usize>| as_index(o)),
            links@.len() == shells@.len(),
            descent(parents, path),
            path.last() == index,
            path.len() <= parents.len(),
            me == Some(index as int),
            depth == (shells@.len() + 1 - path.len()) as nat,
            children@.len() == with_parent(parents, me, j as int).len(),
            grown_each(
                children@,
                views,
                parents,
                with_parent(parents, me, j as int),
                (depth - 1) as nat,
                children@.len() as int,
            ),
        decreases shells.len() - j,
    {
        let ghost before = children@;
        let ghost kids = with_parent(parents, me, j as int);
        let is_child = match links[j] {
            Some(p) => p == index,
            None => false,
        };
        if is_child {
            let ghost longer = path.push(j as int);
            proof {
                assert(parents[j as int] == me);
                assert forall|t: int| 1 <= t < longer.len() implies parents[#[trigger] longer[t]]
                    == Some(longer[t - 1]) by {
                    if t < path.len() {
                        assert(longer[t] == path[t] && longer[t - 1] == path[t - 1]);
                    }
                }
                assert(descent(parents, longer));
                lemma_descent_bounded(parents, longer);
            }
            let child = node(shells, links, j, Ghost(longer));
            proof {
                lemma_grown_each_prefix(
                    before,
                    views,
                    parents,
                    kids,
                    (depth - 1) as nat,
                    before.len() as int,
                    child,
                    j as int,
                );
                assert(before.push(child)[before.len() as int] == child);
                assert(kids.push(j as int)[before.len() as int] == j);
                assert(with_parent(parents, me, j + 1) == kids.push(j as int));
            }
            children.push(child);
        } else {
            proof {
                assert(parents[j as int] != me);
                assert(with_parent(parents, me, j + 1) == kids);
            }
        }
        j = j + 1;
    }
    let r = ShellNode { shell: shells[index].clone(), children };
    assert(parents.len() == j);
    assert(r.shell@ == views[index as int]);
    r
}

impl Capture {
    /// Roots are shells whose parent never emitted. A child attaches to the
    /// newest shell of its parent pid that opened no later than it did.
    pub fn forest(&self) -> (r: Vec<ShellNode<'_>>)
        ensures
            ({
                let views = shells_of(chrono(self@));
                let parents = parents_of(views);
                let roots = with_parent(parents, None, views.len() as int);
                &&& r@.len() == roots.len()
                &&& forall|k: int|
                    0 <= k < roots.len() ==> grown(
                        #[trigger] r@[k],
                        views,
                        parents,
                        roots[k],
                        views.len() as nat,
                    )
            }),
    {
        let shells = self.shells();
        let ghost views = shell_views(shells@);
        let ghost parents = parents_of(views);
        let links = links(shells.as_slice());
        let mut roots: Vec<ShellNode<'_>> = Vec::new();
        for i in 0..shells.len()
            invariant
                views == shell_views(shells@),
                parents == parents_of(views),
                parents =~= links@.map_values(|o: Option<usize>| as_index(o)),
                links@.len() == shells@.len(),
                roots@.len() == with_parent(parents, None, i as int).len(),
                forall|k: int|
                    0 <= k < roots@.len() ==> grown(
                        #[trigger] roots@[k],
                        views,
                        parents,
                        with_parent(parents, None, i as int)[k],
                        views.len() as nat,
                    ),
        {
            let ghost before = roots@;
            if links[i].is_none() {
                let ghost start = seq![i as int];
                proof {
                    assert(parents[i as int] == None::<int>);
                    assert(descent(parents, start));
                }
                let root = node(shells.as_slice(), &links, i, Ghost(start));
                roots.push(root);
                assert(with_parent(parents, None, i + 1) == with_parent(parents, None, i as int).push(
                    i as int,
                ));
                assert forall|k: int| 0 <= k < roots@.len() implies grown(
                    #[trigger] roots@[k],
                    views,
                    parents,
                    with_parent(parents, None, i + 1)[k],
                    views.len() as nat,
                ) by {
                    if k < before.len() {
                        assert(roots@[k] == before[k]);
                    }
                }
            } else {
                assert(parents[i as int] != None::<int>);
                assert(with_parent(parents, None, i + 1) == with_parent(parents, None, i as int));
            }
        }
        roots
    }
}

} // verus!