//! Durations in whole seconds and their text form, `PT<h>H<m>M<s>S`.

use crate::text::{
    all_digits, append_decimal, chars_of, decimal, decimal_value, digit_value, is_digit,
    lemma_decimal_digits, lemma_decimal_round_trip,
};
use vstd::prelude::*;
use vstd::string::*;

verus! {

/// The text of a duration: hours, minutes below 60 and seconds below 60, each written out.
pub open spec fn duration_text(secs: nat) -> Seq<char> {
    seq!['P', 'T'] + decimal(secs / 3600) + seq!['H'] + decimal((secs % 3600) / 60) + seq!['M']
        + decimal(secs % 60) + seq!['S']
}

/// How many digits stand in a row from position `from` on.
pub open spec fn digit_run(s: Seq<char>, from: int) -> nat
    decreases s.len() - from,
{
    if 0 <= from < s.len() && is_digit(s[from]) {
        1 + digit_run(s, from + 1)
    } else {
        0
    }
}

/// Reads one component at `from`: a numeral directly followed by `unit`. Gives its
/// value and the position after it, or zero and `from` where no such component stands.
pub open spec fn component(s: Seq<char>, from: int, unit: char) -> (nat, int) {
    let n = digit_run(s, from);
    if n > 0 && from + n < s.len() && s[from + n] == unit {
        (decimal_value(s.subrange(from, from + n)), from + n + 1)
    } else {
        (0, from)
    }
}

/// The seconds that a duration text stands for. A text is well formed if it is
/// `PT` followed by an hours, a minutes and a seconds component, in this order,
/// each of which may be missing, and nothing else.
pub open spec fn duration_seconds(s: Seq<char>) -> Option<nat> {
    if s.len() >= 2 && s[0] == 'P' && s[1] == 'T' {
        let (h, p1) = component(s, 2, 'H');
        let (m, p2) = component(s, p1, 'M');
        let (sec, p3) = component(s, p2, 'S');
        if p3 == s.len() {
            Some(h * 3600 + m * 60 + sec)
        } else {
            None
        }
    } else {
        None
    }
}

/// The result of `parse_duration_seconds`: the seconds of a well-formed text
/// that fit in 64 bits.
pub open spec fn parsed_duration(s: Seq<char>) -> Option<u64> {
    match duration_seconds(s) {
        Some(n) => if n <= u64::MAX {
            Some(n as u64)
        } else {
            None
        },
        None => None,
    }
}

/// Writes a duration as text.
pub fn format_duration(secs: u64) -> (res: String)
    ensures
        res@ == duration_text(secs as nat),
{
    proof {
        reveal_strlit("PT");
        reveal_strlit("H");
        reveal_strlit("M");
        reveal_strlit("S");
    }
    let mut out = String::from_str("PT");
    assert(out@ =~= seq!['P', 'T']);
    append_decimal(&mut out, secs / 3600);
    out.append("H");
    append_decimal(&mut out, (secs % 3600) / 60);
    out.append("M");
    append_decimal(&mut out, secs % 60);
    out.append("S");
    assert(out@ =~= duration_text(secs as nat));
    out
}

proof fn lemma_digit_run_split(s: Seq<char>, from: int, to: int)
    requires
        0 <= from <= to <= s.len(),
        forall|k: int| from <= k < to ==> is_digit(#[trigger] s[k]),
    ensures
        digit_run(s, from) == (to - from) + digit_run(s, to),
    decreases to - from,
{
    if from < to {
        lemma_digit_run_split(s, from + 1, to);
    }
}

/// Reads a numeral followed by `unit` at `from`; `None` as value where it exceeds 64 bits.
fn read_component(v: &Vec<char>, from: usize, unit: char) -> (res: (Option<u64>, usize))
    requires
        from <= v.len(),
    ensures
        res.1 == component(v@, from as int, unit).1,
        from <= res.1 <= v.len(),
        match res.0 {
            Some(x) => x == component(v@, from as int, unit).0,
            None => component(v@, from as int, unit).0 > u64::MAX,
        },
{
    let mut i: usize = from;
    let mut acc: Option<u64> = Some(0);
    assert(v@.subrange(from as int, from as int).len() == 0);
    while i < v.len() && '0' <= v[i] && v[i] <= '9'
        invariant
            from <= i <= v.len(),
            forall|k: int| from <= k < i ==> is_digit(#[trigger] v@[k]),
            match acc {
                Some(x) => x == decimal_value(v@.subrange(from as int, i as int)),
                None => decimal_value(v@.subrange(from as int, i as int)) > u64::MAX,
            },
        decreases v.len() - i,
    {
        let d: u64 = (v[i] as u32 - '0' as u32) as u64;
        proof {
            let next = v@.subrange(from as int, i + 1);
            assert(next.drop_last() =~= v@.subrange(from as int, i as int));
            assert(next.last() == v@[i as int]);
            assert(d == digit_value(v@[i as int]));
        }
        acc = match acc {
            Some(x) => match x.checked_mul(10) {
                Some(y) => y.checked_add(d),
                None => None,
            },
            None => None,
        };
        i += 1;
    }
    proof {
        lemma_digit_run_split(v@, from as int, i as int);
        assert(digit_run(v@, i as int) == 0);
    }
    if i > from && i < v.len() && v[i] == unit {
        (acc, i + 1)
    } else {
        (Some(0), from)
    }
}

/// Reads a duration text. `None` where the text is not well formed or stands for
/// more seconds than 64 bits hold.
pub fn parse_duration_seconds(text: &str) -> (res: Option<u64>)
    ensures
        res == parsed_duration(text@),
{
    let v = chars_of(text);
    if v.len() < 2 || v[0] != 'P' || v[1] != 'T' {
        return None;
    }
    let (h, p1) = read_component(&v, 2, 'H');
    let (m, p2) = read_component(&v, p1, 'M');
    let (s, p3) = read_component(&v, p2, 'S');
    if p3 != v.len() {
        return None;
    }
    let hs = match h {
        Some(x) => x.checked_mul(3600),
        None => None,
    };
    let ms = match m {
        Some(x) => x.checked_mul(60),
        None => None,
    };
    match (hs, ms, s) {
        (Some(a), Some(b), Some(c)) => match a.checked_add(b) {
            Some(ab) => ab.checked_add(c),
            None => None,
        },
        _ => None,
    }
}

proof fn lemma_component_at(s: Seq<char>, from: int, digits: Seq<char>, unit: char)
    requires
        0 <= from,
        from + digits.len() < s.len(),
        digits.len() > 0,
        all_digits(digits),
        s.subrange(from, from + digits.len()) == digits,
        s[from + digits.len()] == unit,
        !is_digit(unit),
    ensures
        component(s, from, unit) == (decimal_value(digits), from + digits.len() + 1),
{
    let to = from + digits.len();
    assert forall|k: int| from <= k < to implies is_digit(#[trigger] s[k]) by {
        assert(s[k] == digits[k - from]);
    }
    lemma_digit_run_split(s, from, to);
    assert(digit_run(s, to) == 0);
}

/// A duration that was written out is read back as it was.
pub proof fn lemma_duration_round_trip(secs: nat)
    ensures
        duration_seconds(duration_text(secs)) == Some(secs),
{
    let h = decimal(secs / 3600);
    let m = decimal((secs % 3600) / 60);
    let c = decimal(secs % 60);
    let s = duration_text(secs);
    lemma_decimal_digits(secs / 3600);
    lemma_decimal_digits((secs % 3600) / 60);
    lemma_decimal_digits(secs % 60);
    lemma_decimal_round_trip(secs / 3600);
    lemma_decimal_round_trip((secs % 3600) / 60);
    lemma_decimal_round_trip(secs % 60);
    let hl: int = h.len() as int;
    let ml: int = m.len() as int;
    let cl: int = c.len() as int;
    let p1: int = 2int + hl + 1;
    let p2: int = p1 + ml + 1;
    let p3: int = p2 + cl + 1;
    assert(s.len() == p3);
    assert(s.subrange(2, 2int + hl) =~= h);
    assert(s[2int + hl] == 'H');
    lemma_component_at(s, 2, h, 'H');
    assert(s.subrange(p1, p1 + ml) =~= m);
    assert(s[p1 + ml] == 'M');
    lemma_component_at(s, p1, m, 'M');
    assert(s.subrange(p2, p2 + cl) =~= c);
    assert(s[p2 + cl] == 'S');
    lemma_component_at(s, p2, c, 'S');
    assert(secs == (secs / 3600) * 3600 + ((secs % 3600) / 60) * 60 + secs % 60);
}

} // verus!
