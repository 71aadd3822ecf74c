//! Everything read from a run, flat and in read order. Ordering, per-shell
//! grouping, the process forest and typed decoding are all views over it.

pub mod forest;
pub mod origin;

pub use forest::{Shell, ShellNode};
pub use origin::{BadField, Origin, OriginView, ORIGIN_TAG};

use vstd::prelude::*;

use crate::rig::record::{stamp_before, FromRecord, Line, Micros, Pid, Record, Stamp, Stamped};

verus! {

/// One record off the wire, as the contracts read it.
pub type LineView = (Stamp, (Seq<char>, Seq<Seq<char>>));

pub open spec fn line_views(lines: Seq<Line>) -> Seq<LineView> {
    lines.map_values(|l: Line| l@)
}

pub open spec fn ref_views(lines: Seq<&Line>) -> Seq<LineView> {
    lines.map_values(|l: &Line| l@)
}

#[derive(Debug)]
pub struct Capture {
    pub lines: Vec<Line>,
}

impl View for Capture {
    type V = Seq<LineView>;

    open spec fn view(&self) -> Seq<LineView> {
        line_views(self.lines@)
    }
}

/// The stamp records that came from no shell carry: pid 0, clock 0, and
/// their place in the list.
pub open spec fn literal_stamp(index: int) -> Stamp {
    Stamp { at: Micros(0), pid: Pid(0), seq: index as u32 }
}

/// The captures' lines, one after another.
pub open spec fn joined_lines(parts: Seq<Seq<LineView>>) -> Seq<LineView>
    decreases parts.len(),
{
    if parts.len() == 0 {
        Seq::empty()
    } else {
        joined_lines(parts.drop_last()) + parts.last()
    }
}

/// Where a line goes among lines already in order: after every one that is
/// not later than it.
pub open spec fn slot(ordered: Seq<LineView>, stamp: Stamp) -> int
    decreases ordered.len(),
{
    if ordered.len() == 0 {
        0
    } else if stamp_before(stamp, ordered[0].0) {
        0
    } else {
        1 + slot(ordered.drop_first(), stamp)
    }
}

/// The lines ordered by their stamps — clock, then pid, then sequence —
/// lines with one stamp keeping the order they were read in.
pub open spec fn chrono(lines: Seq<LineView>) -> Seq<LineView>
    decreases lines.len(),
{
    if lines.len() == 0 {
        Seq::empty()
    } else {
        let ordered = chrono(lines.drop_last());
        ordered.insert(slot(ordered, lines.last().0), lines.last())
    }
}

/// Where, among the lines, the records of family `T` stand.
pub open spec fn claimed<T: FromRecord>(lines: Seq<LineView>) -> Seq<int>
    decreases lines.len(),
{
    if lines.len() == 0 {
        Seq::empty()
    } else if T::claims(lines.last().1) {
        claimed::<T>(lines.drop_last()).push(lines.len() - 1)
    } else {
        claimed::<T>(lines.drop_last())
    }
}

/// Whether `entries` are, in order, the records of family `T` among the
/// lines, each under its line's stamp and decoded as the family decodes it.
pub open spec fn reads_as<T: FromRecord>(
    lines: Seq<LineView>,
    entries: Seq<Stamped<Result<T, T::Err>>>,
) -> bool {
    let picks = claimed::<T>(lines);
    &&& entries.len() == picks.len()
    &&& forall|k: int|
        0 <= k < picks.len() ==> (#[trigger] entries[k]).stamp == lines[picks[k]].0
            && T::decodes_to(lines[picks[k]].1, entries[k].value)
}

/// The entries that decoded, without the ones that did not.
pub open spec fn oks<T, E>(entries: Seq<Stamped<Result<T, E>>>) -> Seq<Stamped<T>>
    decreases entries.len(),
{
    if entries.len() == 0 {
        Seq::empty()
    } else {
        let rest = oks(entries.drop_last());
        match entries.last().value {
            Ok(v) => rest.push(Stamped { stamp: entries.last().stamp, value: v }),
            Err(_) => rest,
        }
    }
}

proof fn lemma_claimed_in_range<T: FromRecord>(lines: Seq<LineView>)
    ensures
        forall|k: int|
            0 <= k < claimed::<T>(lines).len() ==> 0 <= #[trigger] claimed::<T>(lines)[k] < lines.len(),
    decreases lines.len(),
{
    if lines.len() > 0 {
        let rest = claimed::<T>(lines.drop_last());
        lemma_claimed_in_range::<T>(lines.drop_last());
        assert forall|k: int| 0 <= k < claimed::<T>(lines).len() implies 0
            <= #[trigger] claimed::<T>(lines)[k] < lines.len() by {
            if k < rest.len() {
                assert(claimed::<T>(lines)[k] == rest[k]);
            }
        }
    }
}

impl Capture {
    pub fn new(lines: Vec<Line>) -> (r: Self)
        ensures
            r@ == line_views(lines@),
    {
        Self { lines }
    }

    /// Records that came from no shell. Stamped pid 0, so their provenance
    /// never claims one produced them.
    pub fn literal(records: Vec<Record>) -> (r: Self)
        ensures
            r@.len() == records@.len(),
            forall|k: int|
                0 <= k < records@.len() ==> #[trigger] r@[k] == (literal_stamp(k), records@[k]@),
    {
        let ghost given = records@;
        let count = records.len();
        let mut lines: Vec<Line> = Vec::new();
        let mut index: usize = 0;
        for value in it: records.into_iter()
            invariant
                index == it.index(),
                it.seq() == given,
                given.len() == count,
                index <= count,
                lines@.len() == index,
                forall|k: int|
                    0 <= k < index ==> #[trigger] lines@[k]@ == (literal_stamp(k), given[k]@),
        {
            #[verifier::truncate]
            let seq = index as u32;
            lines.push(Stamped { stamp: Stamp { at: Micros(0), pid: Pid(0), seq }, value });
            index = index + 1;
        }
        Self { lines }
    }
    /// Order is a view, so this only appends.
    pub fn concat(parts: Vec<Capture>) -> (r: Self)
        ensures
            r@ == joined_lines(parts@.map_values(|c: Capture| c@)),
    {
        let ghost given = parts@;
        let mut lines: Vec<Line> = Vec::new();
        for part in it: parts.into_iter()
            invariant
                it.seq() == given,
                line_views(lines@) == joined_lines(
                    given.take(it.index() as int).map_values(|c: Capture| c@),
                ),
        {
            let ghost before = lines@;
            let ghost seen = given.take(it.index() as int);
            let mut more = part.lines;
            let ghost added = more@;
            lines.append(&mut more);
            proof {
                let next = given.take(it.index() + 1);
                assert(next.drop_last() =~= seen);
                assert(next.map_values(|c: Capture| c@).drop_last() =~= seen.map_values(
                    |c: Capture| c@,
                ));
                assert(line_views(lines@) =~= line_views(before) + line_views(added));
            }
        }
        assert(given.take(given.len() as int) =~= given);
        Self { lines }
    }

    /// The lines by their stamps — clock, then pid, then sequence — lines
    /// with one stamp in the order they were read.
    pub fn chronological(&self) -> (r: Vec<&Line>)
        ensures
            ref_views(r@) == chrono(self@),
    {
        let mut ordered: Vec<&Line> = Vec::new();
        for k in 0..self.lines.len()
            invariant
                ref_views(ordered@) == chrono(self@.take(k as int)),
        {
            let line = &self.lines[k];
            let ghost before = ref_views(ordered@);
            let mut at: usize = 0;
            assert(before.skip(0) =~= before);
            while at < ordered.len() && !line.stamp.before(&ordered[at].stamp)
                invariant
                    at <= ordered.len(),
                    ref_views(ordered@) == before,
                    slot(before, line.stamp) == at + slot(before.skip(at as int), line.stamp),
                decreases ordered.len() - at,
            {
                assert(before.skip(at as int).drop_first() =~= before.skip(at + 1));
                at = at + 1;
            }
            proof {
                if at < ordered.len() {
                    assert(before.skip(at as int)[0] == before[at as int]);
                }
                assert(slot(before, line.stamp) == at);
                assert(self@.take(k + 1).drop_last() =~= self@.take(k as int));
            }
            ordered.insert(at, line);
            assert(ref_views(ordered@) =~= before.insert(at as int, self@[k as int]));
        }
        assert(self@.take(self.lines.len() as int) =~= self@);
        ordered
    }
    /// Every record the family recognised, successes and failures alike.
    pub fn of<T: FromRecord>(&self) -> (r: Vec<Stamped<Result<T, T::Err>>>)
        ensures
            reads_as(chrono(self@), r@),
    {
        let ordered = self.chronological();
        let ghost c = chrono(self@);
        let mut out: Vec<Stamped<Result<T, T::Err>>> = Vec::new();
        for k in 0..ordered.len()
            invariant
                ref_views(ordered@) == c,
                reads_as(c.take(k as int), out@),
        {
            let line = ordered[k];
            let ghost before = out@;
            proof {
                assert(c.take(k + 1).drop_last() =~= c.take(k as int));
                assert(line@ == c[k as int]);
                lemma_claimed_in_range::<T>(c.take(k as int));
            }
            match T::from_record(&line.value) {
                Some(value) => {
                    out.push(Stamped { stamp: line.stamp, value });
                    proof {
                        let picks = claimed::<T>(c.take(k + 1));
                        assert(picks == claimed::<T>(c.take(k as int)).push(k as int));
                        assert forall|j: int| 0 <= j < picks.len() implies (#[trigger] out@[j]).stamp
                            == c.take(k + 1)[picks[j]].0 && T::decodes_to(
                            c.take(k + 1)[picks[j]].1,
                            out@[j].value,
                        ) by {
                            if j < before.len() {
                                assert(out@[j] == before[j]);
                                assert(c.take(k + 1)[picks[j]] == c.take(k as int)[picks[j]]);
                            }
                        }
                    }
                },
                None => {
                    proof {
                        let picks = claimed::<T>(c.take(k + 1));
                        assert(picks == claimed::<T>(c.take(k as int)));
                        assert forall|j: int| 0 <= j < picks.len() implies (#[trigger] out@[j]).stamp
                            == c.take(k + 1)[picks[j]].0 && T::decodes_to(
                            c.take(k + 1)[picks[j]].1,
                            out@[j].value,
                        ) by {
                            assert(c.take(k + 1)[picks[j]] == c.take(k as int)[picks[j]]);
                        }
                    }
                },
            }
        }
        assert(c.take(ordered.len() as int) =~= c);
        out
    }

    /// The records of the family that decoded.
    pub fn decoded<T: FromRecord>(&self) -> (r: Vec<Stamped<T>>)
        ensures
            exists|entries: Seq<Stamped<Result<T, T::Err>>>|
                reads_as(chrono(self@), entries) && r@ == oks(entries),
    {
        let entries = self.of::<T>();
        let ghost e = entries@;
        let mut out: Vec<Stamped<T>> = Vec::new();
        for entry in it: entries.into_iter()
            invariant
                it.seq() == e,
                out@ == oks(e.take(it.index() as int)),
        {
            proof {
                assert(e.take(it.index() + 1).drop_last() =~= e.take(it.index() as int));
            }
            match entry.value {
                Ok(value) => out.push(Stamped { stamp: entry.stamp, value }),
                Err(_) => {},
            }
        }
        assert(e.take(e.len() as int) =~= e);
        out
    }
}


/// No line of the sequence comes before one ahead of it.
pub open spec fn in_order(lines: Seq<LineView>) -> bool {
    forall|i: int, j: int| 0 <= i < j < lines.len() ==> !stamp_before(lines[j].0, lines[i].0)
}

proof fn lemma_slot(ordered: Seq<LineView>, stamp: Stamp)
    ensures
        0 <= slot(ordered, stamp) <= ordered.len(),
        forall|i: int| 0 <= i < slot(ordered, stamp) ==> !stamp_before(stamp, #[trigger] ordered[i].0),
        slot(ordered, stamp) < ordered.len() ==> stamp_before(stamp, ordered[slot(ordered, stamp)].0),
    decreases ordered.len(),
{
    if ordered.len() > 0 && !stamp_before(stamp, ordered[0].0) {
        let rest = ordered.drop_first();
        lemma_slot(rest, stamp);
        assert forall|i: int| 0 <= i < slot(ordered, stamp) implies !stamp_before(
            stamp,
            #[trigger] ordered[i].0,
        ) by {
            if i > 0 {
                assert(ordered[i] == rest[i - 1]);
            }
        }
    }
}

/// A capture read chronologically is in order by stamp.
pub proof fn lemma_chrono_in_order(lines: Seq<LineView>)
    ensures
        in_order(chrono(lines)),
    decreases lines.len(),
{
    if lines.len() > 0 {
        let ordered = chrono(lines.drop_last());
        lemma_chrono_in_order(lines.drop_last());
        let x = lines.last();
        let p = slot(ordered, x.0);
        lemma_slot(ordered, x.0);
        let t = ordered.insert(p, x);
        assert forall|i: int, j: int| 0 <= i < j < t.len() implies !stamp_before(t[j].0, t[i].0) by {
            if j < p {
                assert(t[i] == ordered[i] && t[j] == ordered[j]);
            } else if j == p {
                assert(t[i] == ordered[i]);
            } else if i < p {
                assert(t[i] == ordered[i] && t[j] == ordered[j - 1]);
            } else if i == p {
                assert(t[j] == ordered[j - 1]);
                if j - 1 > p {
                    assert(!stamp_before(ordered[j - 1].0, ordered[p].0));
                }
            } else {
                assert(t[i] == ordered[i - 1] && t[j] == ordered[j - 1]);
            }
        }
    }
}

/// Reading a capture chronologically loses no line and adds none.
pub proof fn lemma_chrono_keeps_lines(lines: Seq<LineView>)
    ensures
        chrono(lines).to_multiset() == lines.to_multiset(),
    decreases lines.len(),
{
    broadcast use vstd::seq_lib::group_to_multiset_ensures;

    if lines.len() > 0 {
        let rest = lines.drop_last();
        lemma_chrono_keeps_lines(rest);
        let ordered = chrono(rest);
        lemma_slot(ordered, lines.last().0);
        assert(rest.push(lines.last()) =~= lines);
    }
}

/// Whether a line carries the stamp `stamp`.
pub open spec fn stamped_with(stamp: Stamp) -> spec_fn(LineView) -> bool {
    |l: LineView| l.0 == stamp
}

/// The lines carrying one stamp, in the order they stand.
pub open spec fn with_stamp(lines: Seq<LineView>, stamp: Stamp) -> Seq<LineView> {
    lines.filter(stamped_with(stamp))
}

proof fn lemma_none_with_stamp(s: Seq<LineView>, stamp: Stamp)
    requires
        forall|i: int| 0 <= i < s.len() ==> (#[trigger] s[i]).0 != stamp,
    ensures
        with_stamp(s, stamp) == Seq::<LineView>::empty(),
    decreases s.len(),
{
    reveal(Seq::filter);
    if s.len() > 0 {
        lemma_none_with_stamp(s.drop_last(), stamp);
        assert(s.last() == s[s.len() - 1]);
    }
}

proof fn lemma_one_with_stamp(x: LineView, stamp: Stamp)
    ensures
        with_stamp(seq![x], stamp) == if x.0 == stamp {
            seq![x]
        } else {
            Seq::<LineView>::empty()
        },
{
    reveal_with_fuel(Seq::filter, 2);
    assert(seq![x].drop_last() =~= Seq::<LineView>::empty());
}

/// Reading a capture chronologically is stable: lines with one stamp keep
/// the order they were read in.
pub proof fn lemma_chrono_is_stable(lines: Seq<LineView>, stamp: Stamp)
    ensures
        with_stamp(chrono(lines), stamp) == with_stamp(lines, stamp),
    decreases lines.len(),
{
    reveal(Seq::filter);
    if lines.len() > 0 {
        let rest = lines.drop_last();
        let x = lines.last();
        let ordered = chrono(rest);
        let p = slot(ordered, x.0);
        lemma_chrono_is_stable(rest, stamp);
        lemma_chrono_in_order(rest);
        lemma_slot(ordered, x.0);
        let pred = stamped_with(stamp);
        let before = ordered.take(p);
        let after = ordered.skip(p);
        assert(ordered.insert(p, x) =~= before + seq![x] + after);
        assert(before + after =~= ordered);
        Seq::filter_distributes_over_add(before + seq![x], after, pred);
        Seq::filter_distributes_over_add(before, seq![x], pred);
        Seq::filter_distributes_over_add(before, after, pred);
        lemma_one_with_stamp(x, stamp);
        if x.0 == stamp {
            assert forall|i: int| 0 <= i < after.len() implies (#[trigger] after[i]).0 != stamp by {
                assert(after[i] == ordered[p + i]);
                if i > 0 {
                    assert(!stamp_before(ordered[p + i].0, ordered[p].0));
                }
            }
            lemma_none_with_stamp(after, stamp);
            assert(with_stamp(before, stamp) + Seq::<LineView>::empty() =~= with_stamp(before, stamp));
            assert(with_stamp(before, stamp) + seq![x] =~= with_stamp(before, stamp).push(x));
        } else {
            assert(with_stamp(before, stamp) + Seq::<LineView>::empty() =~= with_stamp(before, stamp));
        }
    }
}

/// What a chronological reading is, said directly: the capture's own lines,
/// none lost and none added, in order by clock, then pid, then sequence,
/// lines of one stamp in the order they were read.
pub proof fn lemma_chrono_sorts(lines: Seq<LineView>)
    ensures
        chrono(lines).to_multiset() == lines.to_multiset(),
        in_order(chrono(lines)),
        forall|stamp: Stamp| #[trigger] with_stamp(chrono(lines), stamp) == with_stamp(lines, stamp),
{
    lemma_chrono_keeps_lines(lines);
    lemma_chrono_in_order(lines);
    assert forall|stamp: Stamp| #[trigger] with_stamp(chrono(lines), stamp) == with_stamp(lines, stamp) by {
        lemma_chrono_is_stable(lines, stamp);
    }
}

} // verus!