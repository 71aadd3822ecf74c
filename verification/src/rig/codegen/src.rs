//! Bash source fragments that compose without quoting hazards.
//!
//! `func` and `case` render multi-line bodies, so a definition may contain
//! comments, `case`/`esac`, and newlines — none of which survive the
//! `name() { body; }` one-liner form.

use vstd::prelude::*;

use crate::text::{blank, first_of, joined};

verus! {

/// The parts that are not blank, in order.
pub open spec fn kept(parts: Seq<Seq<char>>) -> Seq<Seq<char>>
    decreases parts.len(),
{
    if parts.len() == 0 {
        Seq::empty()
    } else if blank(parts.last()) {
        kept(parts.drop_last())
    } else {
        kept(parts.drop_last()).push(parts.last())
    }
}

/// Fragments one after another, a line apart, the blank ones dropped.
pub open spec fn seq_text(parts: Seq<Seq<char>>) -> Seq<char> {
    joined(kept(parts), seq!['\n'])
}

/// A line as `str::lines` gives it: its `\n` gone, and a `\r` before it.
pub open spec fn strip_cr(line: Seq<char>) -> Seq<char> {
    if line.len() > 0 && line.last() == '\r' {
        line.drop_last()
    } else {
        line
    }
}

/// The lines of a text, as `str::lines` splits it: no line for a final
/// `\n`, and none at all for empty text.
pub open spec fn lines_of(s: Seq<char>) -> Seq<Seq<char>>
    decreases s.len(),
{
    if s.len() == 0 {
        Seq::empty()
    } else {
        match first_of(s, '\n') {
            Some(i) => if 0 <= i < s.len() {
                seq![strip_cr(s.take(i))] + lines_of(s.skip(i + 1))
            } else {
                seq![s]
            },
            None => seq![s],
        }
    }
}

/// One level of indentation.
pub open spec fn indent_unit() -> Seq<char> {
    seq![' ', ' ', ' ', ' ']
}

/// `levels` levels of indentation.
pub open spec fn pad(levels: nat) -> Seq<char>
    decreases levels,
{
    if levels == 0 {
        Seq::empty()
    } else {
        pad((levels - 1) as nat) + indent_unit()
    }
}

/// Each line indented, a blank one emptied.
pub open spec fn indented_lines(lines: Seq<Seq<char>>, levels: nat) -> Seq<Seq<char>>
    decreases lines.len(),
{
    if lines.len() == 0 {
        Seq::empty()
    } else {
        let line = lines.last();
        indented_lines(lines.drop_last(), levels).push(
            if blank(line) {
                Seq::empty()
            } else {
                pad(levels) + line
            },
        )
    }
}

/// A text with every line indented by `levels`.
pub open spec fn indented(text: Seq<char>, levels: nat) -> Seq<char> {
    joined(indented_lines(lines_of(text), levels), seq!['\n'])
}

/// `name() {`, the body a level in, and `}`.
pub open spec fn func_text(name: Seq<char>, body: Seq<char>) -> Seq<char> {
    name + "() {\n"@ + indented(body, 1) + "\n}"@
}

/// One arm of a `case`: its pattern, its body two levels in, and `;;`.
pub open spec fn arm_text(pattern: Seq<char>, body: Seq<char>) -> Seq<char> {
    pad(1) + pattern + ")\n"@ + indented(body, 2) + seq!['\n'] + pad(2) + ";;\n"@
}

pub open spec fn arms_text(arms: Seq<(Seq<char>, Seq<char>)>) -> Seq<char>
    decreases arms.len(),
{
    if arms.len() == 0 {
        Seq::empty()
    } else {
        arms_text(arms.drop_last()) + arm_text(arms.last().0, arms.last().1)
    }
}

/// `case <subject> in`, the arms, and `esac`.
pub open spec fn case_text(subject: Seq<char>, arms: Seq<(Seq<char>, Seq<char>)>) -> Seq<char> {
    "case "@ + subject + " in\n"@ + arms_text(arms) + "esac"@
}

#[derive(Debug, PartialEq, Eq)]
pub struct BashSrc(String);

impl View for BashSrc {
    type V = Seq<char>;

    closed spec fn view(&self) -> Seq<char> {
        self.0@
    }
}

pub open spec fn src_views(parts: Seq<BashSrc>) -> Seq<Seq<char>> {
    parts.map_values(|p: BashSrc| p@)
}

pub open spec fn arm_views(arms: Seq<(String, BashSrc)>) -> Seq<(Seq<char>, Seq<char>)> {
    arms.map_values(|a: (String, BashSrc)| (a.0@, a.1@))
}

/// `levels` levels of indentation, as text.
fn pad_of(levels: usize) -> (r: String)
    ensures
        r@ == pad(levels as nat),
{
    let mut r = String::new();
    let mut k: usize = 0;
    while k < levels
        invariant
            k <= levels,
            r@ == pad(k as nat),
        decreases levels - k,
    {
        crate::text::push_str(&mut r, "    ");
        proof {
            reveal_strlit("    ");
        }
        k = k + 1;
    }
    r
}

pub open spec fn char_views(lines: Seq<Vec<char>>) -> Seq<Seq<char>> {
    lines.map_values(|l: Vec<char>| l@)
}

/// The lines of a text, as `str::lines` gives them.
fn lines(text: &str) -> (r: Vec<Vec<char>>)
    ensures
        char_views(r@) == lines_of(text@),
{
    let mut rest = crate::text::chars_of(text);
    let mut out: Vec<Vec<char>> = Vec::new();
    loop
        invariant
            char_views(out@) + lines_of(rest@) == lines_of(text@),
        decreases rest@.len(),
    {
        if rest.len() == 0 {
            assert(char_views(out@) + lines_of(rest@) == char_views(out@));
            return out;
        }
        let ghost before = char_views(out@);
        let n = rest.len();
        match crate::text::find(rest.as_slice(), '\n') {
            None => {
                let ghost last = rest@;
                assert(lines_of(last) == seq![last]);
                out.push(rest);
                assert(char_views(out@) =~= before + lines_of(last));
                return out;
            },
            Some(i) => {
                let mut line = crate::text::slice_of(rest.as_slice(), 0, i);
                if line.len() > 0 && line[line.len() - 1] == '\r' {
                    line.pop();
                }
                let next = crate::text::slice_of(rest.as_slice(), i + 1, n);
                proof {
                    assert(line@ == strip_cr(rest@.take(i as int)));
                    assert(next@ == rest@.skip(i + 1));
                }
                out.push(line);
                proof {
                    assert(char_views(out@) =~= before.push(line@));
                    assert(lines_of(rest@) == seq![line@] + lines_of(next@));
                    assert(before.push(line@) + lines_of(next@) =~= before + (seq![line@] + lines_of(
                        next@,
                    )));
                }
                rest = next;
            },
        }
    }
}

/// Every line of `text` indented by `levels`, a blank line emptied.
fn indent(text: &str, levels: usize) -> (r: String)
    ensures
        r@ == indented(text@, levels as nat),
{
    let all = lines(text);
    let ghost views = char_views(all@);
    let margin = pad_of(levels);
    let mut out = String::new();
    for k in 0..all.len()
        invariant
            views == char_views(all@),
            views == lines_of(text@),
            margin@ == pad(levels as nat),
            out@ == joined(indented_lines(views.take(k as int), levels as nat), seq!['\n']),
    {
        let ghost before = indented_lines(views.take(k as int), levels as nat);
        proof {
            assert(views.take(k + 1).drop_last() =~= views.take(k as int));
            assert(views.take(k + 1).last() == all@[k as int]@);
        }
        if k > 0 {
            crate::text::push_char(&mut out, '\n');
        }
        let line = crate::text::string_of(all[k].as_slice());
        if !crate::text::is_blank(line.as_str()) {
            crate::text::push_str(&mut out, margin.as_str());
            crate::text::push_str(&mut out, line.as_str());
        }
        proof {
            let after = indented_lines(views.take(k + 1), levels as nat);
            assert(after == before.push(after.last()));
            assert(after.drop_last() == before);
            if k > 0 {
                assert(after.len() >= 2);
            } else {
                assert(before.len() == 0);
            }
        }
    }
    assert(views.take(all.len() as int) =~= views);
    out
}

impl BashSrc {
    pub fn empty() -> (r: Self)
        ensures
            r@ == Seq::<char>::empty(),
    {
        BashSrc(String::new())
    }

    pub fn raw(text: String) -> (r: Self)
        ensures
            r@ == text@,
    {
        BashSrc(text)
    }

    /// The fragments a line apart, the blank ones dropped.
    pub fn seq(parts: Vec<BashSrc>) -> (r: Self)
        ensures
            r@ == seq_text(src_views(parts@)),
    {
        let ghost given = src_views(parts@);
        let mut out = String::new();
        let mut any = false;
        for part in it: parts.into_iter()
            invariant
                src_views(it.seq()) == given,
                any == (kept(given.take(it.index() as int)).len() > 0),
                out@ == joined(kept(given.take(it.index() as int)), seq!['\n']),
        {
            let ghost k = it.index();
            proof {
                assert(given.take(k + 1).drop_last() =~= given.take(k as int));
                assert(given.take(k + 1).last() == part@);
            }
            let ghost before = kept(given.take(k as int));
            if !crate::text::is_blank(part.0.as_str()) {
                if any {
                    crate::text::push_char(&mut out, '\n');
                }
                crate::text::push_str(&mut out, part.0.as_str());
                any = true;
                proof {
                    let after = kept(given.take(k + 1));
                    assert(after == before.push(part@));
                    assert(after.drop_last() == before);
                    if before.len() > 0 {
                        assert(joined(after, seq!['\n']) == joined(before, seq!['\n']) + seq!['\n']
                            + part@);
                    } else {
                        assert(joined(after, seq!['\n']) == part@);
                    }
                }
            } else {
                assert(kept(given.take(k + 1)) == before);
            }
        }
        assert(given.take(given.len() as int) =~= given);
        BashSrc(out)
    }

    /// `name() {`, the body a level in, and `}`.
    pub fn func(name: &str, body: BashSrc) -> (r: Self)
        ensures
            r@ == func_text(name@, body@),
    {
        let mut out = crate::text::owned(name);
        crate::text::push_str(&mut out, "() {\n");
        let inner = indent(body.0.as_str(), 1);
        crate::text::push_str(&mut out, inner.as_str());
        crate::text::push_str(&mut out, "\n}");
        BashSrc(out)
    }

    /// `case <subject> in`, each arm's pattern and body, and `esac`.
    pub fn case(subject: &str, arms: Vec<(String, BashSrc)>) -> (r: Self)
        ensures
            r@ == case_text(subject@, arm_views(arms@)),
    {
        let ghost given = arm_views(arms@);
        let mut out = crate::text::owned("case ");
        crate::text::push_str(&mut out, subject);
        crate::text::push_str(&mut out, " in\n");
        let ghost head = "case "@ + subject@ + " in\n"@;
        for arm in it: arms.into_iter()
            invariant
                arm_views(it.seq()) == given,
                out@ == head + arms_text(given.take(it.index() as int)),
        {
            let ghost k = it.index();
            proof {
                assert(given.take(k + 1).drop_last() =~= given.take(k as int));
                assert(given.take(k + 1).last() == (arm.0@, arm.1@));
            }
            let (pattern, body) = arm;
            crate::text::push_str(&mut out, "    ");
            crate::text::push_str(&mut out, pattern.as_str());
            crate::text::push_str(&mut out, ")\n");
            let inner = indent(body.0.as_str(), 2);
            crate::text::push_str(&mut out, inner.as_str());
            crate::text::push_char(&mut out, '\n');
            crate::text::push_str(&mut out, "        ;;\n");
            proof {
                reveal_strlit("    ");
                reveal_strlit("        ;;\n");
                reveal_strlit(";;\n");
                reveal_with_fuel(pad, 3);
                assert(pad(1) =~= "    "@);
                assert(pad(2) + ";;\n"@ =~= "        ;;\n"@);
            }
        }
        assert(given.take(given.len() as int) =~= given);
        crate::text::push_str(&mut out, "esac");
        BashSrc(out)
    }

    pub fn as_str(&self) -> (r: &str)
        ensures
            r@ == self@,
    {
        self.0.as_str()
    }

    /// Whether there is nothing here but whitespace.
    pub fn is_empty(&self) -> (r: bool)
        ensures
            r == crate::text::blank(self@),
    {
        crate::text::is_blank(self.0.as_str())
    }
}

impl Clone for BashSrc {
    fn clone(&self) -> (r: Self)
        ensures
            r@ == self@,
    {
        BashSrc(self.0.clone())
    }
}

impl Default for BashSrc {
    fn default() -> (r: Self)
        ensures
            r@ == Seq::<char>::empty(),
    {
        BashSrc(String::new())
    }
}

} // verus!