//! Decimal numbers as text, both ways: what `str::parse` accepts for an
//! unsigned integer, and what `to_string` writes for one.

use vstd::prelude::*;

verus! {

pub open spec fn is_digit(c: char) -> bool {
    '0' <= c && c <= '9'
}

pub open spec fn all_digits(s: Seq<char>) -> bool {
    forall|i: int| 0 <= i < s.len() ==> is_digit(#[trigger] s[i])
}

pub open spec fn digit_value(c: char) -> nat {
    (c as int - '0' as int) as nat
}

/// The number the digits of `s` spell, most significant first.
pub open spec fn value_of(s: Seq<char>) -> nat
    decreases s.len(),
{
    if s.len() == 0 {
        0
    } else {
        value_of(s.drop_last()) * 10 + digit_value(s.last())
    }
}

/// The digits after an optional leading `+`, which `str::parse` takes for an
/// unsigned number.
pub open spec fn unsigned_body(s: Seq<char>) -> Seq<char> {
    if s.len() > 0 && s[0] == '+' {
        s.drop_first()
    } else {
        s
    }
}

/// What `str::parse` gives for an unsigned integer whose largest value is
/// `max`: `None` for anything that is not one, or is too large.
pub open spec fn unsigned(s: Seq<char>, max: nat) -> Option<nat> {
    let body = unsigned_body(s);
    if body.len() > 0 && all_digits(body) && value_of(body) <= max {
        Some(value_of(body))
    } else {
        None
    }
}

/// A field that `str::parse` reads as a `u32`.
pub open spec fn u32_of(t: Seq<char>) -> Option<u32> {
    match unsigned(t, u32::MAX as nat) {
        Some(n) => Some(n as u32),
        None => None,
    }
}

/// Bytes read as text, one character each: an ASCII number reads the same,
/// and nothing else reads as a number either way.
pub open spec fn ascii_chars(b: Seq<u8>) -> Seq<char> {
    b.map_values(|x: u8| x as char)
}

/// The digits `to_string` writes for `n`.
pub open spec fn decimal(n: nat) -> Seq<char>
    decreases n,
{
    if n < 10 {
        seq![digit_char(n)]
    } else {
        decimal(n / 10).push(digit_char(n % 10))
    }
}

pub open spec fn digit_char(d: nat) -> char {
    (('0' as int) + d) as char
}

proof fn lemma_value_grows(s: Seq<char>, i: int)
    requires
        0 <= i <= s.len(),
        all_digits(s),
    ensures
        value_of(s.take(i)) <= value_of(s),
    decreases s.len() - i,
{
    if i < s.len() {
        lemma_value_grows(s, i + 1);
        assert(s.take(i + 1).drop_last() == s.take(i));
    } else {
        assert(s.take(i) == s);
    }
}

/// Reads an unsigned number no larger than `max`, as `str::parse` does.
fn parse_bounded(s: &[char], max: u64) -> (r: Option<u64>)
    requires
        max >= 9,
    ensures
        match r {
            Some(v) => unsigned(s@, max as nat) == Some(v as nat),
            None => unsigned(s@, max as nat) is None,
        },
{
    let start: usize = if s.len() > 0 && s[0] == '+' { 1 } else { 0 };
    let ghost body = unsigned_body(s@);
    assert(body == s@.skip(start as int));
    if start == s.len() {
        return None;
    }
    let mut acc: u64 = 0;
    let mut i: usize = start;
    while i < s.len()
        invariant
            start <= i <= s@.len(),
            start < s@.len(),
            max >= 9,
            body == unsigned_body(s@),
            body == s@.skip(start as int),
            all_digits(body.take(i - start)),
            acc as nat == value_of(body.take(i - start)),
            acc <= max,
        decreases s@.len() - i,
    {
        let c = s[i];
        if !('0' <= c && c <= '9') {
            assert(body[i - start] == c);
            assert(!is_digit(body[i - start]));
            assert(!all_digits(body));
            return None;
        }
        let d = (c as u32 - '0' as u32) as u64;
        assert(body.take(i + 1 - start).drop_last() == body.take(i - start));
        if acc > (max - d) / 10 {
            proof {
                assert(acc * 10 + d > max) by (nonlinear_arith)
                    requires
                        acc > (max - d) / 10,
                        d <= max,
                ;
                assert(value_of(body.take(i + 1 - start)) > max);
                if all_digits(body) {
                    lemma_value_grows(body, i + 1 - start);
                }
            }
            return None;
        }
        assert(acc * 10 + d <= max) by (nonlinear_arith)
            requires
                acc <= (max - d) / 10,
                d <= max,
        ;
        acc = acc * 10 + d;
        i = i + 1;
    }
    assert(body.take(i - start) == body);
    Some(acc)
}

/// `str::parse::<u32>`.
pub fn parse_u32(s: &[char]) -> (r: Option<u32>)
    ensures
        match r {
            Some(v) => unsigned(s@, u32::MAX as nat) == Some(v as nat),
            None => unsigned(s@, u32::MAX as nat) is None,
        },
        r == u32_of(s@),
{
    match parse_bounded(s, u32::MAX as u64) {
        Some(v) => Some(v as u32),
        None => None,
    }
}

/// `str::parse::<u64>`.
pub fn parse_u64(s: &[char]) -> (r: Option<u64>)
    ensures
        match r {
            Some(v) => unsigned(s@, u64::MAX as nat) == Some(v as nat),
            None => unsigned(s@, u64::MAX as nat) is None,
        },
{
    parse_bounded(s, u64::MAX)
}

/// Bytes, each taken as the character of the same code.
pub fn ascii_of(b: &[u8]) -> (out: Vec<char>)
    ensures
        out@ == ascii_chars(b@),
{
    let mut out: Vec<char> = Vec::new();
    let mut i: usize = 0;
    while i < b.len()
        invariant
            0 <= i <= b@.len(),
            out@ == ascii_chars(b@.take(i as int)),
        decreases b@.len() - i,
    {
        out.push(b[i] as char);
        i = i + 1;
        assert(ascii_chars(b@.take(i as int)) == ascii_chars(b@.take(i - 1)).push(b@[i - 1] as char));
    }
    assert(b@.take(i as int) == b@);
    out
}

/// The character of one decimal digit.
fn digit(d: u64) -> (c: char)
    requires
        d < 10,
    ensures
        c == digit_char(d as nat),
{
    match d {
        0 => '0',
        1 => '1',
        2 => '2',
        3 => '3',
        4 => '4',
        5 => '5',
        6 => '6',
        7 => '7',
        8 => '8',
        _ => '9',
    }
}

/// The decimal digits of `n`, as `to_string` writes them.
pub fn decimal_text(n: u64) -> (out: String)
    ensures
        out@ == decimal(n as nat),
    decreases n,
{
    let c = digit(n % 10);
    if n < 10 {
        let mut out = String::new();
        crate::text::push_char(&mut out, c);
        out
    } else {
        let mut out = decimal_text(n / 10);
        crate::text::push_char(&mut out, c);
        out
    }
}

} // verus!

verus! {

pub open spec fn pow10_spec(p: nat) -> nat
    decreases p,
{
    if p == 0 {
        1
    } else {
        10 * pow10_spec((p - 1) as nat)
    }
}

/// A number below `10^p`, shifted one place and given one more digit, is
/// below `10^(p+1)`.
pub proof fn lemma_pow10_step(p: nat, v: nat, d: nat)
    requires
        v < pow10_spec(p),
        d < 10,
    ensures
        v * 10 + d < pow10_spec(p + 1),
        p + 1 <= 6 ==> pow10_spec(p + 1) <= 1_000_000,
{
    assert(v * 10 + d < pow10_spec(p) * 10) by (nonlinear_arith)
        requires
            v < pow10_spec(p),
            d < 10,
    ;
    if p + 1 <= 6 {
        lemma_pow10_bound(p + 1);
    }
}

proof fn lemma_pow10_bound(p: nat)
    requires
        p <= 6,
    ensures
        pow10_spec(p) <= 1_000_000,
    decreases p,
{
    reveal_with_fuel(pow10_spec, 7);
    if p > 0 {
        lemma_pow10_bound((p - 1) as nat);
    }
}

/// The text `to_string` writes for a signed number.
pub open spec fn signed_decimal(n: int) -> Seq<char> {
    if n < 0 {
        seq!['-'] + decimal((-n) as nat)
    } else {
        decimal(n as nat)
    }
}

/// `i32::to_string`.
pub fn signed_text(n: i32) -> (out: String)
    ensures
        out@ == signed_decimal(n as int),
{
    if n < 0 {
        let magnitude: u64 = (0i64 - n as i64) as u64;
        let mut out = crate::text::owned("-");
        let digits = decimal_text(magnitude);
        crate::text::push_str(&mut out, digits.as_str());
        proof {
            reveal_strlit("-");
        }
        assert(out@ =~= seq!['-'] + decimal((-n) as nat));
        out
    } else {
        decimal_text(n as u64)
    }
}

/// What `str::parse` gives for an `i32`: an optional sign, then digits,
/// within range.
pub open spec fn i32_of(t: Seq<char>) -> Option<i32> {
    if t.len() > 0 && t[0] == '-' {
        let body = t.skip(1);
        if body.len() > 0 && all_digits(body) && value_of(body) <= 0x8000_0000 {
            Some((0 - value_of(body)) as i32)
        } else {
            None
        }
    } else {
        match unsigned(t, i32::MAX as nat) {
            Some(n) => Some(n as i32),
            None => None,
        }
    }
}

/// `str::parse::<i32>`.
pub fn parse_i32(s: &[char]) -> (r: Option<i32>)
    ensures
        r == i32_of(s@),
{
    if s.len() > 0 && s[0] == '-' {
        if s.len() > 1 && s[1] == '+' {
            assert(!is_digit(s@.skip(1)[0]));
            return None;
        }
        let n = s.len();
        let rest = crate::text::slice_of(s, 1, n);
        assert(rest@ == s@.skip(1));
        assert(unsigned_body(rest@) == rest@);
        match parse_bounded(rest.as_slice(), 0x8000_0000u64) {
            Some(v) => {
                let r = (0i64 - v as i64) as i32;
                Some(r)
            },
            None => None,
        }
    } else {
        match parse_bounded(s, i32::MAX as u64) {
            Some(v) => Some(v as i32),
            None => None,
        }
    }
}

} // verus!