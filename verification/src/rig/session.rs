//! A session's bookkeeping: how many shells it has admitted, which of their
//! tasks have finished, and what it reports when it closes. The waiting
//! belongs to whoever runs the session; what each event does to the session
//! is decided here.

use vstd::prelude::*;

use super::attended::Attended;
use crate::failure::Failure;

verus! {

/// What one shell's task hands back: the shell attended, and a line its
/// pipe was left holding, if any — reported beside what the shell said, not
/// instead of it.
#[derive(Debug)]
pub struct Attendance<K> {
    pub attended: Attended<K>,
    pub cut: Option<Failure>,
}

/// The shells a serving session has admitted, and those whose tasks have
/// finished, in the order they finished.
#[derive(Debug)]
pub struct Gathering<K> {
    joined: usize,
    done: Vec<Attended<K>>,
}

/// The shells already finished, then the attended shell of each task that
/// came back whole, in the order they came back.
pub open spec fn gathered<K>(done: Seq<Attended<K>>, outcomes: Seq<Result<Attendance<K>, Failure>>) -> Seq<
    Attended<K>,
>
    decreases outcomes.len(),
{
    if outcomes.len() == 0 {
        done
    } else {
        let before = gathered(done, outcomes.drop_last());
        match outcomes.last() {
            Ok(attendance) => before.push(attendance.attended),
            Err(_) => before,
        }
    }
}

/// What one task's outcome holds against the session: the line its pipe
/// was left holding, or why the task failed.
pub open spec fn failure_of<K>(outcome: Result<Attendance<K>, Failure>) -> Option<Failure> {
    match outcome {
        Ok(attendance) => attendance.cut,
        Err(why) => Some(why),
    }
}

/// The first failure: `first` where there is one, else the first the
/// outcomes hold, in the order they came back.
pub open spec fn first_failure<K>(first: Option<Failure>, outcomes: Seq<Result<Attendance<K>, Failure>>) -> Option<
    Failure,
>
    decreases outcomes.len(),
{
    if outcomes.len() == 0 {
        first
    } else {
        match first_failure(first, outcomes.drop_last()) {
            Some(why) => Some(why),
            None => failure_of(outcomes.last()),
        }
    }
}

/// The order a shell joined in.
pub open spec fn nth_of<K>(attended: Attended<K>) -> usize {
    attended.shell.nth
}

/// Where a shell goes among shells already in join order: after every one
/// that joined no later than it.
pub open spec fn slot_by_nth<K>(ordered: Seq<Attended<K>>, nth: usize) -> int
    decreases ordered.len(),
{
    if ordered.len() == 0 {
        0
    } else if nth < nth_of(ordered[0]) {
        0
    } else {
        1 + slot_by_nth(ordered.drop_first(), nth)
    }
}

/// The shells in the order they joined, shells of one place keeping the
/// order they had.
pub open spec fn by_nth<K>(done: Seq<Attended<K>>) -> Seq<Attended<K>>
    decreases done.len(),
{
    if done.len() == 0 {
        Seq::empty()
    } else {
        let ordered = by_nth(done.drop_last());
        ordered.insert(slot_by_nth(ordered, nth_of(done.last())), done.last())
    }
}

/// No shell of the sequence joined after one behind it.
pub open spec fn in_join_order<K>(done: Seq<Attended<K>>) -> bool {
    forall|i: int, j: int| 0 <= i < j < done.len() ==> nth_of(#[trigger] done[i]) <= nth_of(#[trigger] done[j])
}

impl<K> Gathering<K> {
    /// How many shells have been admitted.
    pub closed spec fn admitted(&self) -> nat {
        self.joined as nat
    }

    /// The shells whose tasks have finished, in the order they finished.
    pub closed spec fn finished_so_far(&self) -> Seq<Attended<K>> {
        self.done@
    }

    /// Nobody admitted, nothing finished.
    pub fn new() -> (r: Self)
        ensures
            r.admitted() == 0,
            r.finished_so_far() == Seq::<Attended<K>>::empty(),
    {
        Self { joined: 0, done: Vec::new() }
    }

    /// How many shells have been admitted.
    pub fn joined(&self) -> (r: usize)
        ensures
            r == self.admitted(),
    {
        self.joined
    }

    /// A shell announced itself: it is the next to join, and its place in
    /// the order is the count of those before it.
    pub fn announced(&mut self) -> (nth: usize)
        requires
            old(self).admitted() < usize::MAX,
        ensures
            nth == old(self).admitted(),
            final(self).admitted() == old(self).admitted() + 1,
            final(self).finished_so_far() == old(self).finished_so_far(),
    {
        let nth = self.joined;
        self.joined = self.joined + 1;
        nth
    }

    /// A task finished while the session serves: its shell is kept, and a
    /// line its pipe was left holding is handed back, which ends the serving.
    pub fn finished(&mut self, attendance: Attendance<K>) -> (r: Option<Failure>)
        ensures
            final(self).admitted() == old(self).admitted(),
            final(self).finished_so_far() == old(self).finished_so_far().push(attendance.attended),
            r == attendance.cut,
    {
        let Attendance { attended, cut } = attendance;
        self.done.push(attended);
        cut
    }

    /// The session closes. `control` is what closing the control fifo went
    /// wrong with, and `outcomes` every task still running, in the order
    /// they came back. Every shell that finished is reported, in the order
    /// the shells joined; the failure reported is the first there was.
    pub fn close(self, control: Option<Failure>, outcomes: Vec<Result<Attendance<K>, Failure>>) -> (r: (
        Vec<Attended<K>>,
        Option<Failure>,
    ))
        ensures
            r.0@ == by_nth(gathered(self.finished_so_far(), outcomes@)),
            r.1 == first_failure(control, outcomes@),
    {
        let ghost all = outcomes@;
        let ghost first = self.done@;
        let mut done = self.done;
        let mut failed = control;
        let mut rest = outcomes;
        let ghost mut k: int = 0;
        assert(all.take(0) =~= Seq::<Result<Attendance<K>, Failure>>::empty());
        assert(all.skip(0) =~= all);
        while rest.len() > 0
            invariant
                0 <= k <= all.len(),
                rest@ == all.skip(k),
                done@ == gathered(first, all.take(k)),
                failed == first_failure(control, all.take(k)),
            decreases rest.len(),
        {
            let outcome = rest.remove(0);
            proof {
                assert(all.take(k + 1).drop_last() =~= all.take(k));
                assert(all.skip(k)[0] == all[k]);
                assert(all.take(k + 1).last() == all[k]);
            }
            match outcome {
                Ok(attendance) => {
                    let Attendance { attended, cut } = attendance;
                    done.push(attended);
                    if failed.is_none() {
                        failed = cut;
                    }
                },
                Err(why) => {
                    if failed.is_none() {
                        failed = Some(why);
                    }
                },
            }
            proof {
                assert(all.skip(k).drop_first() =~= all.skip(k + 1));
                k = k + 1;
            }
        }
        assert(all.take(all.len() as int) =~= all);
        (in_join_order_of(done), failed)
    }
}

/// The shells, in the order they joined: a stable insertion by `nth`.
fn in_join_order_of<K>(done: Vec<Attended<K>>) -> (r: Vec<Attended<K>>)
    ensures
        r@ == by_nth(done@),
{
    let ghost all = done@;
    let mut rest = done;
    let mut ordered: Vec<Attended<K>> = Vec::new();
    let ghost mut k: int = 0;
    assert(all.take(0) =~= Seq::<Attended<K>>::empty());
    assert(all.skip(0) =~= all);
    while rest.len() > 0
        invariant
            0 <= k <= all.len(),
            rest@ == all.skip(k),
            ordered@ == by_nth(all.take(k)),
        decreases rest.len(),
    {
        let next = rest.remove(0);
        proof {
            assert(all.skip(k)[0] == all[k]);
        }
        let nth = next.shell.nth;
        let ghost before = ordered@;
        let mut at: usize = 0;
        assert(before.skip(0) =~= before);
        while at < ordered.len() && !(nth < ordered[at].shell.nth)
            invariant
                at <= ordered.len(),
                ordered@ == before,
                nth == nth_of(next),
                slot_by_nth(before, nth) == at + slot_by_nth(before.skip(at as int), nth),
            decreases ordered.len() - at,
        {
            assert(before.skip(at as int).drop_first() =~= before.skip(at + 1));
            at = at + 1;
        }
        proof {
            if at < ordered.len() {
                assert(before.skip(at as int)[0] == before[at as int]);
            }
            assert(all.take(k + 1).drop_last() =~= all.take(k));
            assert(all.take(k + 1).last() == all[k]);
        }
        ordered.insert(at, next);
        proof {
            assert(all.skip(k).drop_first() =~= all.skip(k + 1));
            k = k + 1;
        }
    }
    assert(all.take(all.len() as int) =~= all);
    ordered
}

proof fn lemma_slot_by_nth<K>(ordered: Seq<Attended<K>>, nth: usize)
    ensures
        0 <= slot_by_nth(ordered, nth) <= ordered.len(),
        forall|i: int| 0 <= i < slot_by_nth(ordered, nth) ==> nth_of(#[trigger] ordered[i]) <= nth,
        slot_by_nth(ordered, nth) < ordered.len() ==> nth < nth_of(ordered[slot_by_nth(ordered, nth)]),
    decreases ordered.len(),
{
    if ordered.len() > 0 && !(nth < nth_of(ordered[0])) {
        let rest = ordered.drop_first();
        lemma_slot_by_nth(rest, nth);
        assert forall|i: int| 0 <= i < slot_by_nth(ordered, nth) implies nth_of(#[trigger] ordered[i]) <= nth by {
            if i > 0 {
                assert(ordered[i] == rest[i - 1]);
            }
        }
    }
}

/// A closed session reports its shells in the order they joined.
pub proof fn lemma_closed_in_join_order<K>(done: Seq<Attended<K>>)
    ensures
        in_join_order(by_nth(done)),
    decreases done.len(),
{
    if done.len() > 0 {
        let ordered = by_nth(done.drop_last());
        lemma_closed_in_join_order(done.drop_last());
        let x = done.last();
        let p = slot_by_nth(ordered, nth_of(x));
        lemma_slot_by_nth(ordered, nth_of(x));
        let t = ordered.insert(p, x);
        assert forall|i: int, j: int| 0 <= i < j < t.len() implies nth_of(#[trigger] t[i]) <= nth_of(
            #[trigger] t[j],
        ) by {
            if j < p {
                assert(t[i] == ordered[i] && t[j] == ordered[j]);
            } else if j == p {
                assert(t[i] == ordered[i]);
            } else if i < p {
                assert(t[i] == ordered[i] && t[j] == ordered[j - 1]);
            } else if i == p {
                assert(t[j] == ordered[j - 1]);
                if j - 1 > p {
                    assert(nth_of(ordered[p]) <= nth_of(ordered[j - 1]));
                }
            } else {
                assert(t[i] == ordered[i - 1] && t[j] == ordered[j - 1]);
            }
        }
    }
}

/// A closed session reports every shell that finished, and no other.
pub proof fn lemma_closing_keeps_every_shell<K>(done: Seq<Attended<K>>)
    ensures
        by_nth(done).to_multiset() == done.to_multiset(),
    decreases done.len(),
{
    broadcast use vstd::seq_lib::group_to_multiset_ensures;

    if done.len() > 0 {
        let rest = done.drop_last();
        lemma_closing_keeps_every_shell(rest);
        lemma_slot_by_nth(by_nth(rest), nth_of(done.last()));
        assert(rest.push(done.last()) =~= done);
    }
}

/// A failure closing the control fifo is the one a close reports, whatever
/// the shells' tasks came back with.
pub proof fn lemma_control_failure_comes_first<K>(why: Failure, outcomes: Seq<Result<Attendance<K>, Failure>>)
    ensures
        first_failure(Some(why), outcomes) == Some(why),
    decreases outcomes.len(),
{
    if outcomes.len() > 0 {
        lemma_control_failure_comes_first(why, outcomes.drop_last());
    }
}

} // verus!
