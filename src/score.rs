use crate::text::{chars_of, find, find_from, find_at_or_after, lemma_find_from_bounds, slice};
use vstd::prelude::*;

verus! {

/// The largest score: 10.00 in the table's notation.
pub const MAX_SCORE: u16 = 1000;

pub open spec fn is_digit(c: char) -> bool {
    '0' <= c <= '9'
}

/// A non-empty run of decimal digits.
pub open spec fn is_digits(s: Seq<char>) -> bool {
    s.len() > 0 && forall|i: int| 0 <= i < s.len() ==> is_digit(#[trigger] s[i])
}

/// The number that the decimal digits `s` write.
pub open spec fn digits_value(s: Seq<char>) -> nat
    decreases s.len(),
{
    if s.len() == 0 {
        0
    } else {
        digits_value(s.drop_last()) * 10 + (s.last() as nat - '0' as nat) as nat
    }
}

/// The whole and fractional halves of a score text: the parts around the
/// first `.`, or the whole text and `"0"` where it has no `.`.
pub open spec fn score_halves(t: Seq<char>) -> (Seq<char>, Seq<char>) {
    match find(t, seq!['.']) {
        Some(i) => (t.subrange(0, i), t.subrange(i + 1, t.len() as int)),
        None => (t, seq!['0']),
    }
}

/// The fixed-point value of a score text: `whole * 100 + fraction`, where both
/// halves are runs of digits and the value is at most `MAX_SCORE`. The
/// fractional half is taken as the integer it writes, so `"9.4"` gives 904.
pub open spec fn score_of(t: Seq<char>) -> Option<u16> {
    let (a, b) = score_halves(t);
    if is_digits(a) && is_digits(b) && digits_value(a) * 100 + digits_value(b) <= MAX_SCORE {
        Some((digits_value(a) * 100 + digits_value(b)) as u16)
    } else {
        None
    }
}

proof fn lemma_prefix_value_le(s: Seq<char>, i: int)
    requires
        0 <= i <= s.len(),
        forall|k: int| 0 <= k < s.len() ==> is_digit(#[trigger] s[k]),
    ensures
        digits_value(s.subrange(0, i)) <= digits_value(s),
    decreases s.len() - i,
{
    if i < s.len() {
        lemma_prefix_value_le(s, i + 1);
        assert(s.subrange(0, i + 1).drop_last() =~= s.subrange(0, i));
    } else {
        assert(s.subrange(0, i) =~= s);
    }
}

/// The value of the digits `s`, where they are digits and write at most `MAX_SCORE`.
fn digits_value_of(s: &Vec<char>) -> (r: Option<u16>)
    ensures
        match r {
            Some(v) => is_digits(s@) && v == digits_value(s@) && v <= MAX_SCORE,
            None => !(is_digits(s@) && digits_value(s@) <= MAX_SCORE),
        },
{
    if s.len() == 0 {
        return None;
    }
    let mut v: u16 = 0;
    let mut i: usize = 0;
    while i < s.len()
        invariant
            i <= s.len(),
            v <= MAX_SCORE,
            v == digits_value(s@.subrange(0, i as int)),
            forall|k: int| 0 <= k < i ==> is_digit(#[trigger] s@[k]),
        decreases s.len() - i,
    {
        let c = s[i];
        assert(s@.subrange(0, i + 1).drop_last() =~= s@.subrange(0, i as int));
        if !('0' <= c && c <= '9') {
            return None;
        }
        let d = (c as u32 - '0' as u32) as u16;
        let next = v * 10 + d;
        if next > MAX_SCORE {
            proof {
                if is_digits(s@) {
                    lemma_prefix_value_le(s@, i + 1);
                }
            }
            return None;
        }
        v = next;
        i += 1;
    }
    assert(s@.subrange(0, s.len() as int) =~= s@);
    Some(v)
}

/// Exec form of `score_of`, on characters.
pub fn score_of_chars(t: &Vec<char>) -> (r: Option<u16>)
    ensures
        r == score_of(t@),
{
    let dot = vec!['.'];
    let (whole, fraction) = match find_at_or_after(t, &dot, 0) {
        Some(i) => {
            proof {
                lemma_find_from_bounds(t@, dot@, 0);
            }
            assert(dot@ =~= seq!['.']);
            (slice(t, 0, i), slice(t, i + 1, t.len()))
        },
        None => {
            assert(dot@ =~= seq!['.']);
            assert(t@.subrange(0, t.len() as int) =~= t@);
            let zero = vec!['0'];
            assert(zero@ =~= seq!['0']);
            (slice(t, 0, t.len()), zero)
        },
    };
    assert((whole@, fraction@) == score_halves(t@));
    let a = match digits_value_of(&whole) {
        Some(a) => a,
        None => {
            return None;
        },
    };
    let b = match digits_value_of(&fraction) {
        Some(b) => b,
        None => {
            return None;
        },
    };
    if a > 10 {
        assert(digits_value(whole@) * 100 + digits_value(fraction@) > MAX_SCORE) by (nonlinear_arith)
            requires
                digits_value(whole@) > 10,
        ;
        return None;
    }
    let v = a * 100 + b;
    if v > MAX_SCORE {
        return None;
    }
    Some(v)
}

/// Decodes a score text such as `"9.39"` into its fixed-point value (939).
/// Text without a `.` is a whole number (`"10"` gives 1000). `None` where
/// either half is not a run of decimal digits, where the text has more than
/// one `.`, or where the value exceeds `MAX_SCORE`.
pub fn decode_score(text: &str) -> (r: Option<u16>)
    ensures
        r == score_of(text@),
{
    let t = chars_of(text);
    score_of_chars(&t)
}

/// Decoding a score text `"<whole>.<fraction>"` with at most two fractional
/// digits gives back both components: the whole part is the value divided by
/// 100 and the fractional part is the remainder.
pub proof fn lemma_score_round_trip(whole: Seq<char>, fraction: Seq<char>)
    requires
        is_digits(whole),
        is_digits(fraction),
        fraction.len() <= 2,
        digits_value(whole) * 100 + digits_value(fraction) <= MAX_SCORE,
    ensures
        score_of(whole + seq!['.'] + fraction) matches Some(v) && v / 100 == digits_value(whole)
            && v % 100 == digits_value(fraction),
{
    let t = whole + seq!['.'] + fraction;
    lemma_find_first_dot(whole, fraction, 0);
    assert(t.subrange(0, whole.len() as int) =~= whole);
    assert(t.subrange(whole.len() as int + 1, t.len() as int) =~= fraction);
    lemma_short_value_below_100(fraction);
    let v = digits_value(whole) * 100 + digits_value(fraction);
    assert(v / 100 == digits_value(whole) && v % 100 == digits_value(fraction))
        by (nonlinear_arith)
        requires
            v == digits_value(whole) * 100 + digits_value(fraction),
            digits_value(fraction) < 100,
    ;
}

proof fn lemma_find_first_dot(whole: Seq<char>, fraction: Seq<char>, i: int)
    requires
        is_digits(whole),
        0 <= i <= whole.len(),
    ensures
        find_from(whole + seq!['.'] + fraction, seq!['.'], i) == Some(whole.len() as int),
    decreases whole.len() - i,
{
    let t = whole + seq!['.'] + fraction;
    if i < whole.len() {
        assert(t.subrange(i, i + 1)[0] == whole[i]);
        lemma_find_first_dot(whole, fraction, i + 1);
    } else {
        assert(t.subrange(i, i + 1) =~= seq!['.']);
    }
}

proof fn lemma_short_value_below_100(s: Seq<char>)
    requires
        is_digits(s),
        s.len() <= 2,
    ensures
        digits_value(s) < 100,
{
    let d = s.drop_last();
    assert(is_digit(s.last()));
    if d.len() > 0 {
        assert(d.drop_last().len() == 0);
        assert(digits_value(d.drop_last()) == 0);
        assert(d.last() == d[0]);
        assert(d[0] == s[0]);
        assert(is_digit(d[0]));
        assert(digits_value(d) <= 9);
    } else {
        assert(digits_value(d) == 0);
    }
}

} // verus!
