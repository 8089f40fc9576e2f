//! Exact non-negative decimal numbers, read from text such as `24.024000`.

use crate::text::chars_of;
use vstd::prelude::*;

verus! {

/// Bound (exclusive) on the mantissa of a [`Decimal`]: seventeen significant digits.
pub const MANTISSA_LIMIT: u64 = 100_000_000_000_000_000;

/// Largest number of fraction digits a [`Decimal`] may carry.
pub const MAX_SCALE: u32 = 36;

/// The number `digits / 10^scale`.
#[derive(Clone, Copy, Debug, PartialEq, Eq, Structural)]
pub struct Decimal {
    pub digits: u64,
    pub scale: u32,
}

impl Decimal {
    /// The mantissa and the scale are within the bounds that the arithmetic relies on.
    pub open spec fn wf(self) -> bool {
        self.digits < MANTISSA_LIMIT && self.scale <= MAX_SCALE
    }

    pub fn new(digits: u64, scale: u32) -> (r: Decimal)
        requires
            digits < MANTISSA_LIMIT,
            scale <= MAX_SCALE,
        ensures
            r.digits == digits,
            r.scale == scale,
            r.wf(),
    {
        Decimal { digits, scale }
    }
}

pub open spec fn is_digit(c: char) -> bool {
    '0' as u32 <= c as u32 && c as u32 <= '9' as u32
}

pub open spec fn digit_value(c: char) -> nat {
    (c as u32 - '0' as u32) as nat
}

pub open spec fn all_digits(s: Seq<char>) -> bool {
    forall|i: int| 0 <= i < s.len() ==> is_digit(#[trigger] s[i])
}

/// The number that a string of decimal digits spells, most significant first.
pub open spec fn digits_value(s: Seq<char>) -> nat
    decreases s.len(),
{
    if s.len() == 0 {
        0
    } else {
        digits_value(s.drop_last()) * 10 + digit_value(s.last())
    }
}

/// A `Decimal` of the given mantissa and scale, where both are in bounds.
pub open spec fn bounded_decimal(mantissa: nat, scale: nat) -> Option<Decimal> {
    if mantissa < MANTISSA_LIMIT && scale <= MAX_SCALE {
        Some(Decimal { digits: mantissa as u64, scale: scale as u32 })
    } else {
        None
    }
}

pub open spec fn pow10(e: nat) -> nat
    decreases e,
{
    if e == 0 {
        1
    } else {
        10 * pow10((e - 1) as nat)
    }
}

pub proof fn lemma_pow10_monotone(a: nat, b: nat)
    requires
        a <= b,
    ensures
        1 <= pow10(a) <= pow10(b),
    decreases b,
{
    if a < b {
        lemma_pow10_monotone(a, (b - 1) as nat);
    } else if a > 0 {
        lemma_pow10_monotone((a - 1) as nat, (a - 1) as nat);
    }
}

proof fn lemma_pow10_17()
    ensures
        pow10(17) == MANTISSA_LIMIT,
{
    reveal_with_fuel(pow10, 18);
}

/// `i` is the index of the first `c1` or `c2` in `s`, or `s.len()` where there is none.
pub open spec fn is_first_index(s: Seq<char>, c1: char, c2: char, i: int) -> bool {
    &&& 0 <= i <= s.len()
    &&& forall|j: int| 0 <= j < i ==> s[j] != c1 && s[j] != c2
    &&& i < s.len() ==> (s[i] == c1 || s[i] == c2)
}

/// The index of the first `c1` or `c2` in `s`, or `s.len()` where there is none.
pub open spec fn first_index(s: Seq<char>, c1: char, c2: char) -> int {
    choose|i: int| is_first_index(s, c1, c2, i)
}

proof fn lemma_first_index(s: Seq<char>, c1: char, c2: char, i: int)
    requires
        is_first_index(s, c1, c2, i),
    ensures
        first_index(s, c1, c2) == i,
{
    let k = choose|k: int| is_first_index(s, c1, c2, k);
    if k < i {
        assert(s[k] != c1 && s[k] != c2);
    } else if k > i {
        assert(s[i] != c1 && s[i] != c2);
    }
}

/// `s` without its trailing `0`s.
pub open spec fn strip_zeros(s: Seq<char>) -> Seq<char>
    decreases s.len(),
{
    if s.len() > 0 && s.last() == '0' {
        strip_zeros(s.drop_last())
    } else {
        s
    }
}

proof fn lemma_strip_zeros(d: Seq<char>, l: int)
    requires
        0 <= l <= d.len(),
        l == 0 || d[l - 1] != '0',
        forall|j: int| l <= j < d.len() ==> d[j] == '0',
    ensures
        strip_zeros(d) == d.take(l),
    decreases d.len(),
{
    if d.len() == l {
        assert(d.take(l) =~= d);
    } else {
        assert(d.drop_last().take(l) =~= d.take(l));
        lemma_strip_zeros(d.drop_last(), l);
    }
}

/// The `Decimal` in lowest terms (no trailing zero in a fraction) of the
/// number `digits_value(d) * 10^k`; `None` where that number has none, its
/// significant digits (trailing zeros left out) reaching `MANTISSA_LIMIT`
/// or its fraction more than `MAX_SCALE` digits.
pub open spec fn canonical_decimal(d: Seq<char>, k: int) -> Option<Decimal> {
    let t = strip_zeros(d);
    let n = digits_value(t);
    let k2 = k + (d.len() - t.len());
    if n == 0 {
        Some(Decimal { digits: 0, scale: 0 })
    } else if k2 >= 0 {
        if n * pow10(k2 as nat) < MANTISSA_LIMIT {
            Some(Decimal { digits: (n * pow10(k2 as nat)) as u64, scale: 0 })
        } else {
            None
        }
    } else if n < MANTISSA_LIMIT && -k2 <= MAX_SCALE {
        Some(Decimal { digits: n as u64, scale: (-k2) as u32 })
    } else {
        None
    }
}

/// `s` without one leading `+` or `-`.
pub open spec fn unsigned(s: Seq<char>) -> Seq<char> {
    if s.len() > 0 && (s[0] == '+' || s[0] == '-') {
        s.skip(1)
    } else {
        s
    }
}

/// The number that the parts of a number text denote: the digits before
/// and after the point, whether there is an exponent, and the exponent's
/// text (after its `e`).
pub open spec fn decimal_of_parts(
    int_d: Seq<char>,
    frac_d: Seq<char>,
    has_exp: bool,
    x: Seq<char>,
) -> Option<Decimal> {
    let xd = unsigned(x);
    if all_digits(int_d) && all_digits(frac_d) && int_d.len() + frac_d.len() > 0 && (has_exp
        ==> xd.len() > 0 && all_digits(xd)) {
        let e: int = if x.len() > 0 && x[0] == '-' {
            -digits_value(xd)
        } else {
            digits_value(xd) as int
        };
        canonical_decimal(int_d + frac_d, e - frac_d.len())
    } else {
        None
    }
}

/// What a number text denotes: an optional `+`, digits with an optional
/// fraction after a `.` (at least one digit in all), and an optional
/// exponent `e` or `E` with an optional sign and at least one digit
/// (`720`, `7.007`, `+1`, `.5`, `5.`, `1e3`, `2.5E-2`). `None` for any other
/// text (a minus sign, `inf`, `nan` included), and for a number with no
/// `Decimal` form (see `canonical_decimal`).
pub open spec fn decimal_text(s: Seq<char>) -> Option<Decimal> {
    let b = if s.len() > 0 && s[0] == '+' {
        s.skip(1)
    } else {
        s
    };
    let ei = first_index(b, 'e', 'E');
    let m = b.take(ei);
    let pi = first_index(m, '.', '.');
    decimal_of_parts(
        m.take(pi),
        if pi < m.len() {
            m.skip(pi + 1)
        } else {
            Seq::empty()
        },
        ei < b.len(),
        if ei < b.len() {
            b.skip(ei + 1)
        } else {
            Seq::empty()
        },
    )
}

pub(crate) proof fn lemma_digits_value_prefix(t: Seq<char>, j: int)
    requires
        0 <= j <= t.len(),
    ensures
        digits_value(t.take(j)) <= digits_value(t),
    decreases t.len(),
{
    if j < t.len() {
        assert(t.drop_last().take(j) =~= t.take(j));
        lemma_digits_value_prefix(t.drop_last(), j);
    } else {
        assert(t.take(j) =~= t);
    }
}

fn is_digit_char(c: char) -> (r: bool)
    ensures
        r == is_digit(c),
{
    (c as u32) >= ('0' as u32) && (c as u32) <= ('9' as u32)
}

/// The first index in `v[from..to]`, counted from `from`, holding `c1` or `c2`.
fn first_of(v: &Vec<char>, from: usize, to: usize, c1: char, c2: char) -> (r: usize)
    requires
        from <= to <= v@.len(),
    ensures
        from <= r <= to,
        first_index(v@.subrange(from as int, to as int), c1, c2) == r - from,
{
    let ghost s = v@.subrange(from as int, to as int);
    let mut i: usize = from;
    while i < to
        invariant
            from <= i <= to <= v@.len(),
            s == v@.subrange(from as int, to as int),
            forall|j: int| 0 <= j < i - from ==> s[j] != c1 && s[j] != c2,
        ensures
            from <= i <= to,
            forall|j: int| 0 <= j < i - from ==> s[j] != c1 && s[j] != c2,
            i < to ==> (v@[i as int] == c1 || v@[i as int] == c2),
        decreases to - i,
    {
        if v[i] == c1 || v[i] == c2 {
            break;
        }
        assert(s[i - from] == v@[i as int]);
        i = i + 1;
    }
    proof {
        if i < to {
            assert(s[i - from] == v@[i as int]);
        }
        lemma_first_index(s, c1, c2, i - from);
    }
    i
}

/// `v[a..b]` is all digits.
fn digits_in(v: &Vec<char>, a: usize, b: usize) -> (r: bool)
    requires
        a <= b <= v@.len(),
    ensures
        r == all_digits(v@.subrange(a as int, b as int)),
{
    let mut i: usize = a;
    while i < b
        invariant
            a <= i <= b <= v@.len(),
            forall|j: int| 0 <= j < i - a ==> is_digit(#[trigger] v@.subrange(a as int, b as int)[j]),
        decreases b - i,
    {
        if !is_digit_char(v[i]) {
            assert(!is_digit(v@.subrange(a as int, b as int)[i - a]));
            return false;
        }
        assert(v@.subrange(a as int, b as int)[i - a] == v@[i as int]);
        i = i + 1;
    }
    true
}

/// Appends `v[a..b]` to `out`.
fn push_range(out: &mut Vec<char>, v: &Vec<char>, a: usize, b: usize)
    requires
        a <= b <= v@.len(),
    ensures
        final(out)@ == old(out)@ + v@.subrange(a as int, b as int),
{
    let mut i: usize = a;
    while i < b
        invariant
            a <= i <= b <= v@.len(),
            out@ == old(out)@ + v@.subrange(a as int, i as int),
        decreases b - i,
    {
        out.push(v[i]);
        i = i + 1;
        assert(out@ =~= old(out)@ + v@.subrange(a as int, i as int));
    }
}

/// Bound on the exponent's size past which no `Decimal` can result.
const EXPONENT_CAP: u128 = 0x4_0000_0000_0000_0000;

/// The number spelt by the digits `v[a..b]`, or `None` where it exceeds `EXPONENT_CAP`.
fn exponent_value(v: &Vec<char>, a: usize, b: usize) -> (r: Option<u128>)
    requires
        a <= b <= v@.len(),
        all_digits(v@.subrange(a as int, b as int)),
    ensures
        r matches Some(x) ==> x == digits_value(v@.subrange(a as int, b as int)) && x
            <= EXPONENT_CAP,
        r is None ==> digits_value(v@.subrange(a as int, b as int)) > EXPONENT_CAP,
{
    let ghost t = v@.subrange(a as int, b as int);
    let mut x: u128 = 0;
    let mut i: usize = a;
    while i < b
        invariant
            a <= i <= b <= v@.len(),
            t == v@.subrange(a as int, b as int),
            all_digits(t),
            x <= EXPONENT_CAP,
            x == digits_value(t.take(i - a)),
        decreases b - i,
    {
        let c = v[i];
        assert(t[i - a] == c);
        assert(is_digit(t[i - a]));
        let d: u128 = (c as u32 - '0' as u32) as u128;
        assert(t.take(i + 1 - a).drop_last() =~= t.take(i - a));
        if x > (EXPONENT_CAP - d) / 10 {
            proof {
                lemma_digits_value_prefix(t, i + 1 - a);
            }
            return None;
        }
        x = x * 10 + d;
        i = i + 1;
    }
    assert(t.take(b - a) =~= t);
    Some(x)
}

/// The length of `d` without its trailing zeros, and the number those
/// digits spell where it is under `MANTISSA_LIMIT`.
fn significant_digits(d: &Vec<char>) -> (r: (usize, Option<u64>))
    requires
        all_digits(d@),
    ensures
        r.0 <= d@.len(),
        strip_zeros(d@) == d@.take(r.0 as int),
        r.1 matches Some(x) ==> x == digits_value(strip_zeros(d@)) && x < MANTISSA_LIMIT,
        r.1 is None ==> digits_value(strip_zeros(d@)) >= MANTISSA_LIMIT,
{
    let mut l: usize = d.len();
    while l > 0
        invariant
            l <= d@.len(),
            forall|j: int| l <= j < d@.len() ==> d@[j] == '0',
        ensures
            l <= d@.len(),
            forall|j: int| l <= j < d@.len() ==> d@[j] == '0',
            l == 0 || d@[l - 1] != '0',
        decreases l,
    {
        if d[l - 1] != '0' {
            break;
        }
        l = l - 1;
    }
    proof {
        lemma_strip_zeros(d@, l as int);
    }
    let ghost t = d@.take(l as int);
    let mut x: u64 = 0;
    let mut j: usize = 0;
    while j < l
        invariant
            j <= l <= d@.len(),
            t == d@.take(l as int),
            strip_zeros(d@) == t,
            all_digits(d@),
            x < MANTISSA_LIMIT,
            x == digits_value(t.take(j as int)),
        decreases l - j,
    {
        let c = d[j];
        assert(t[j as int] == c);
        assert(is_digit(d@[j as int]));
        assert(is_digit(c));
        let dv: u64 = (c as u32 - '0' as u32) as u64;
        assert(t.take(j + 1).drop_last() =~= t.take(j as int));
        if x > (MANTISSA_LIMIT - 1 - dv) / 10 {
            proof {
                lemma_digits_value_prefix(t, j + 1);
            }
            return (l, None);
        }
        x = x * 10 + dv;
        j = j + 1;
    }
    assert(t.take(l as int) =~= t);
    (l, Some(x))
}

/// `canonical_decimal(d, k)` from the significant digits' value `sig` and
/// the exponent `k2` that applies to them.
fn canonical_from(sig: u64, k2: i128) -> (r: Option<Decimal>)
    requires
        sig < MANTISSA_LIMIT,
    ensures
        r == (if sig == 0 {
            Some(Decimal { digits: 0, scale: 0 })
        } else if k2 >= 0 {
            if sig * pow10(k2 as nat) < MANTISSA_LIMIT {
                Some(Decimal { digits: (sig * pow10(k2 as nat)) as u64, scale: 0 })
            } else {
                None
            }
        } else if -k2 <= MAX_SCALE {
            Some(Decimal { digits: sig, scale: (-k2) as u32 })
        } else {
            None::<Decimal>
        }),
{
    if sig == 0 {
        return Some(Decimal { digits: 0, scale: 0 });
    }
    if k2 >= 0 {
        proof {
            lemma_pow10_17();
        }
        if k2 > 16 {
            proof {
                lemma_pow10_monotone(17, k2 as nat);
                assert(sig * pow10(k2 as nat) >= pow10(k2 as nat)) by (nonlinear_arith)
                    requires
                        sig >= 1,
                ;
            }
            return None;
        }
        let mut p: u64 = 1;
        let mut q: i128 = 0;
        while q < k2
            invariant
                0 <= q <= k2 <= 16,
                p == pow10(q as nat),
                pow10(17) == MANTISSA_LIMIT,
            decreases k2 - q,
        {
            proof {
                lemma_pow10_monotone((q + 1) as nat, 17);
            }
            p = p * 10;
            q = q + 1;
        }
        proof {
            lemma_pow10_monotone(k2 as nat, 17);
        }
        assert(sig * p < 10_000_000_000_000_000_000_000_000_000_000_000) by (nonlinear_arith)
            requires
                sig < 100_000_000_000_000_000,
                p <= 100_000_000_000_000_000,
        ;
        let total: u128 = (sig as u128) * (p as u128);
        if total >= MANTISSA_LIMIT as u128 {
            return None;
        }
        return Some(Decimal { digits: total as u64, scale: 0 });
    }
    if k2 < -36 {
        return None;
    }
    Some(Decimal { digits: sig, scale: (-k2) as u32 })
}

/// The number that the parts `v[st..pi]`, `v[fs..ei]` and, where `ei` is
/// inside `v`, `v[ei + 1..]` denote.
#[verifier::rlimit(30)]
fn decimal_from_parts(v: &Vec<char>, st: usize, pi: usize, fs: usize, ei: usize) -> (r: Option<
    Decimal,
>)
    requires
        st <= pi <= fs <= ei <= v@.len(),
    ensures
        r == decimal_of_parts(
            v@.subrange(st as int, pi as int),
            v@.subrange(fs as int, ei as int),
            ei < v@.len(),
            if ei < v@.len() {
                v@.subrange(ei + 1, v@.len() as int)
            } else {
                Seq::empty()
            },
        ),
        r matches Some(d) ==> d.wf(),
{
    let n = v.len();
    let ghost int_d = v@.subrange(st as int, pi as int);
    let ghost frac_d = v@.subrange(fs as int, ei as int);
    let ghost x = if ei < n {
        v@.subrange(ei + 1, n as int)
    } else {
        Seq::<char>::empty()
    };
    if !digits_in(v, st, pi) || !digits_in(v, fs, ei) || (pi - st) + (ei - fs) == 0 {
        return None;
    }
    let mut neg = false;
    let mut xs: usize = n;
    if ei < n {
        xs = ei + 1;
        if xs < n && (v[xs] == '+' || v[xs] == '-') {
            neg = v[xs] == '-';
            xs = xs + 1;
        }
        assert(unsigned(x) =~= v@.subrange(xs as int, n as int));
        if xs == n || !digits_in(v, xs, n) {
            return None;
        }
    } else {
        assert(unsigned(x) =~= v@.subrange(xs as int, n as int));
    }
    assert(neg == (x.len() > 0 && x[0] == '-'));
    let ghost xd = unsigned(x);
    let ex = exponent_value(v, xs, n);
    let mut dg: Vec<char> = Vec::new();
    push_range(&mut dg, v, st, pi);
    push_range(&mut dg, v, fs, ei);
    assert(dg@ =~= int_d + frac_d);
    let (l, sig) = significant_digits(&dg);
    let ghost e: int = if neg {
        -digits_value(xd)
    } else {
        digits_value(xd) as int
    };
    let ghost k2s: int = e - frac_d.len() + (dg@.len() - l);
    let sig = match sig {
        Some(x) => x,
        None => {
            proof {
                let nn = digits_value(strip_zeros(dg@));
                if k2s >= 0 {
                    lemma_pow10_monotone(0, k2s as nat);
                    assert(nn * pow10(k2s as nat) >= nn) by (nonlinear_arith)
                        requires
                            pow10(k2s as nat) >= 1,
                    ;
                }
            }
            return None;
        },
    };
    if sig == 0 {
        return Some(Decimal { digits: 0, scale: 0 });
    }
    let ex = match ex {
        Some(e) => e,
        None => {
            proof {
                if !neg {
                    lemma_pow10_17();
                    lemma_pow10_monotone(17, k2s as nat);
                    assert(sig * pow10(k2s as nat) >= pow10(k2s as nat)) by (nonlinear_arith)
                        requires
                            sig >= 1,
                    ;
                }
            }
            return None;
        },
    };
    let k2: i128 = (if neg {
        -(ex as i128)
    } else {
        ex as i128
    }) - ((ei - fs) as i128) + ((dg.len() - l) as i128);
    assert(k2 == k2s);
    canonical_from(sig, k2)
}

/// Reads a decimal number from text.
pub fn parse_decimal(s: &str) -> (r: Option<Decimal>)
    ensures
        r == decimal_text(s@),
        r matches Some(d) ==> d.wf(),
{
    let v = chars_of(s);
    let n = v.len();
    let st: usize = if n > 0 && v[0] == '+' {
        1
    } else {
        0
    };
    let ghost b = if s@.len() > 0 && s@[0] == '+' {
        s@.skip(1)
    } else {
        s@
    };
    assert(b =~= v@.subrange(st as int, n as int));
    let ei = first_of(&v, st, n, 'e', 'E');
    let ghost m = b.take(ei - st);
    assert(m =~= v@.subrange(st as int, ei as int));
    let pi = first_of(&v, st, ei, '.', '.');
    let fs: usize = if pi < ei {
        pi + 1
    } else {
        ei
    };
    assert(m.take(pi - st) =~= v@.subrange(st as int, pi as int));
    assert((if pi - st < m.len() {
        m.skip(pi - st + 1)
    } else {
        Seq::<char>::empty()
    }) =~= v@.subrange(fs as int, ei as int));
    assert((if ei - st < b.len() {
        b.skip(ei - st + 1)
    } else {
        Seq::<char>::empty()
    }) =~= (if ei < n {
        v@.subrange(ei + 1, n as int)
    } else {
        Seq::<char>::empty()
    }));
    decimal_from_parts(&v, st, pi, fs, ei)
}

} // verus!
