//! The total duration of a video, written `HH:MM:SS.ff`.

use crate::decimal::{
    all_digits, bounded_decimal, digit_value, digits_value, is_digit, lemma_digits_value_prefix,
    Decimal, MANTISSA_LIMIT,
};
use crate::error::SomEomError;
use crate::text::chars_of;
use vstd::prelude::*;

verus! {

/// `s` is `H:M:S.F` with its separators at `c1`, `c2` and `d`, and `H`, `M`,
/// `S` and `F` non-empty runs of decimal digits.
pub open spec fn clock_shape(s: Seq<char>, c1: int, c2: int, d: int) -> bool {
    &&& 0 < c1 && c1 + 1 < c2 && c2 + 1 < d && d + 1 < s.len()
    &&& s[c1] == ':' && s[c2] == ':' && s[d] == '.'
    &&& all_digits(s.subrange(0, c1))
    &&& all_digits(s.subrange(c1 + 1, c2))
    &&& all_digits(s.subrange(c2 + 1, d))
    &&& all_digits(s.subrange(d + 1, s.len() as int))
}

/// The duration, in hundredths of a second, of `H:M:S.F`:
/// `H * 3600 + M * 60 + S` seconds and `F` hundredths, whatever the number
/// of digits of `F`.
pub open spec fn clock_hundredths(s: Seq<char>, c1: int, c2: int, d: int) -> nat {
    100 * (3600 * digits_value(s.subrange(0, c1)) + 60 * digits_value(s.subrange(c1 + 1, c2))
        + digits_value(s.subrange(c2 + 1, d))) + digits_value(s.subrange(d + 1, s.len() as int))
}

/// The seconds that `HH:MM:SS.ff` denotes, as a decimal with two fraction
/// digits; `None` for text of any other shape, or too large a value.
pub open spec fn clock_duration(s: Seq<char>) -> Option<Decimal> {
    if exists|c1: int, c2: int, d: int| clock_shape(s, c1, c2, d) {
        let (c1, c2, d) = choose|c1: int, c2: int, d: int| clock_shape(s, c1, c2, d);
        bounded_decimal(clock_hundredths(s, c1, c2, d), 2)
    } else {
        None
    }
}

/// The first `c` in `s` at or after `from`.
fn find_char(s: &Vec<char>, c: char, from: usize) -> (r: Option<usize>)
    ensures
        r matches Some(i) ==> from <= i < s@.len() && s@[i as int] == c && forall|j: int|
            from <= j < i ==> s@[j] != c,
        r is None ==> forall|j: int| from <= j < s@.len() ==> s@[j] != c,
{
    let mut i: usize = from;
    while i < s.len()
        invariant
            from <= i || i >= s@.len(),
            forall|j: int| from <= j < i ==> s@[j] != c,
        decreases s@.len() - i,
    {
        if s[i] == c {
            return Some(i);
        }
        i = i + 1;
    }
    None
}

proof fn lemma_digits_value_step(t: Seq<char>, k: int)
    requires
        0 <= k < t.len(),
    ensures
        digits_value(t.take(k + 1)) == digits_value(t.take(k)) * 10 + digit_value(t[k]),
{
    assert(t.take(k + 1).drop_last() =~= t.take(k));
}

/// The number spelt by `s[a..b]`, a non-empty run of digits under `MANTISSA_LIMIT`.
fn parse_digit_run(s: &Vec<char>, a: usize, b: usize) -> (r: Option<u64>)
    requires
        a <= b <= s@.len(),
    ensures
        r matches Some(x) ==> a < b && all_digits(s@.subrange(a as int, b as int)) && x
            == digits_value(s@.subrange(a as int, b as int)),
        r is None ==> !(a < b && all_digits(s@.subrange(a as int, b as int))) || digits_value(
            s@.subrange(a as int, b as int),
        ) >= MANTISSA_LIMIT,
{
    let ghost t = s@.subrange(a as int, b as int);
    if a == b {
        return None;
    }
    let mut x: u64 = 0;
    let mut i: usize = a;
    while i < b
        invariant
            a <= i <= b <= s@.len(),
            t == s@.subrange(a as int, b as int),
            x < MANTISSA_LIMIT,
            x == digits_value(t.take(i - a)),
            all_digits(t.take(i - a)),
        decreases b - i,
    {
        let c = s[i];
        assert(t[i - a] == c);
        if !((c as u32) >= ('0' as u32) && (c as u32) <= ('9' as u32)) {
            assert(!is_digit(t[i - a]));
            return None;
        }
        let d: u64 = (c as u32 - '0' as u32) as u64;
        proof {
            lemma_digits_value_step(t, i - a);
            assert(t.take(i - a + 1) =~= t.take(i - a).push(c));
        }
        if x > (MANTISSA_LIMIT - 1 - d) / 10 {
            proof {
                lemma_digits_value_prefix(t, i - a + 1);
            }
            return None;
        }
        x = x * 10 + d;
        i = i + 1;
    }
    assert(t.take(b - a) =~= t);
    Some(x)
}

/// Where `s` has the shape at `(c1, c2, d)`, those are the first `:`, the
/// next `:` and the next `.`.
proof fn lemma_clock_shape_unique(s: Seq<char>, c1: int, c2: int, d: int)
    requires
        clock_shape(s, c1, c2, d),
    ensures
        forall|j: int| 0 <= j < c1 ==> s[j] != ':',
        forall|j: int| c1 < j < c2 ==> s[j] != ':',
        forall|j: int| c2 < j < d ==> s[j] != '.',
{
    assert forall|j: int| 0 <= j < c1 implies s[j] != ':' by {
        assert(is_digit(s.subrange(0, c1)[j]));
    }
    assert forall|j: int| c1 < j < c2 implies s[j] != ':' by {
        assert(is_digit(s.subrange(c1 + 1, c2)[j - c1 - 1]));
    }
    assert forall|j: int| c2 < j < d implies s[j] != '.' by {
        assert(is_digit(s.subrange(c2 + 1, d)[j - c2 - 1]));
    }
}

/// The duration that `HH:MM:SS.ff` denotes, in seconds, with the part after
/// the `.` counted in hundredths (`00:01:39.04` gives 99.04).
pub fn parse_video_duration(time_str: &str) -> (r: Result<Decimal, SomEomError>)
    ensures
        r matches Ok(v) ==> clock_duration(time_str@) == Some(v) && v.wf(),
        r is Err ==> clock_duration(time_str@) is None && r == Err::<Decimal, SomEomError>(
            SomEomError::UnparsableNumber,
        ),
{
    let s = chars_of(time_str);
    let n = s.len();
    let ghost sv = s@;
    let c1 = match find_char(&s, ':', 0) {
        Some(i) => i,
        None => {
            proof {
                if exists|c1: int, c2: int, d: int| clock_shape(sv, c1, c2, d) {
                    let (c1, c2, d) = choose|c1: int, c2: int, d: int| clock_shape(sv, c1, c2, d);
                    assert(sv[c1] == ':');
                }
            }
            return Err(SomEomError::UnparsableNumber);
        },
    };
    let c2 = match find_char(&s, ':', c1 + 1) {
        Some(i) => i,
        None => {
            proof {
                if exists|c1: int, c2: int, d: int| clock_shape(sv, c1, c2, d) {
                    let (e1, e2, e) = choose|c1: int, c2: int, d: int| clock_shape(sv, c1, c2, d);
                    lemma_clock_shape_unique(sv, e1, e2, e);
                    assert(sv[e2] == ':');
                }
            }
            return Err(SomEomError::UnparsableNumber);
        },
    };
    let d = match find_char(&s, '.', c2 + 1) {
        Some(i) => i,
        None => {
            proof {
                if exists|c1: int, c2: int, d: int| clock_shape(sv, c1, c2, d) {
                    let (e1, e2, e) = choose|c1: int, c2: int, d: int| clock_shape(sv, c1, c2, d);
                    lemma_clock_shape_unique(sv, e1, e2, e);
                    assert(sv[e1] == ':');
                    assert(e1 == c1);
                    assert(sv[e2] == ':');
                    assert(e2 == c2);
                    assert(sv[e] == '.');
                }
            }
            return Err(SomEomError::UnparsableNumber);
        },
    };
    let ghost shaped = exists|e1: int, e2: int, e: int| clock_shape(sv, e1, e2, e);
    proof {
        if shaped {
            let (e1, e2, e) = choose|e1: int, e2: int, e: int| clock_shape(sv, e1, e2, e);
            lemma_clock_shape_unique(sv, e1, e2, e);
            assert(sv[e1] == ':');
            assert(e1 == c1);
            assert(sv[e2] == ':');
            assert(e2 == c2);
            assert(sv[e] == '.');
            assert(e == d);
        }
    }
    let h = parse_digit_run(&s, 0, c1);
    let m = parse_digit_run(&s, c1 + 1, c2);
    let sec = parse_digit_run(&s, c2 + 1, d);
    let f = parse_digit_run(&s, d + 1, n);
    match (h, m, sec, f) {
        (Some(h), Some(m), Some(sec), Some(f)) => {
            assert(clock_shape(sv, c1 as int, c2 as int, d as int));
            let total: u128 = 100 * (3600 * (h as u128) + 60 * (m as u128) + (sec as u128)) + (
            f as u128);
            if total >= MANTISSA_LIMIT as u128 {
                return Err(SomEomError::UnparsableNumber);
            }
            Ok(Decimal { digits: total as u64, scale: 2 })
        },
        _ => {
            proof {
                if shaped {
                    assert(clock_hundredths(sv, c1 as int, c2 as int, d as int) >= MANTISSA_LIMIT);
                }
            }
            Err(SomEomError::UnparsableNumber)
        },
    }
}

} // verus!
