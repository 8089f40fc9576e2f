//! The 29.97 fps clock: timestamps to frame indices, frame indices to
//! drop-frame timecode.

use crate::decimal::{is_digit, lemma_pow10_monotone, pow10, Decimal};
use crate::error::SomEomError;
use crate::text::substring;
use vstd::arithmetic::div_mod::{lemma_fundamental_div_mod, lemma_fundamental_div_mod_converse};
use vstd::prelude::*;

verus! {

/// Largest frame index that is rendered as timecode (about a thousand years
/// of material at 29.97 fps).
pub const MAX_FRAME: u64 = 1_000_000_000_000;

/// The frame shown at time `t` seconds: `t * 29.97` rounded to the nearest
/// integer, halves rounded up. With `t = digits / 10^scale` and
/// `29.97 = 2997 / 100`, that is `floor((2 * digits * 2997 + q) / (2 * q))`
/// where `q = 10^(scale + 2)`.
pub open spec fn frame_at(t: Decimal) -> nat {
    let q: int = pow10((t.scale + 2) as nat) as int;
    ((2 * (t.digits as int) * 2997 + q) / (2 * q)) as nat
}

proof fn lemma_pow10_38()
    ensures
        pow10(38) == 100_000_000_000_000_000_000_000_000_000_000_000_000,
{
    reveal_with_fuel(pow10, 39);
}

proof fn lemma_rounded_frame_fits(x: u128, q: u128)
    requires
        x < 600_000_000_000_000_000_000,
        q >= 100,
    ensures
        (x + q) / (2 * q) < 0x1_0000_0000_0000_0000,
{
    let r = (x + q) / (2 * q);
    assert(r * (2 * q) <= x + q) by (nonlinear_arith)
        requires
            q >= 100,
            r == (x + q) / (2 * q),
    ;
    assert(r * 200 <= x + 100) by (nonlinear_arith)
        requires
            q >= 100,
            r * (2 * q) <= x + q,
    ;
}

/// The frame index at a timestamp of `timestamp` seconds.
pub fn get_frame_per_timestamp(timestamp: Decimal) -> (r: u64)
    requires
        timestamp.wf(),
    ensures
        r == frame_at(timestamp),
{
    let mut q: u128 = 100;
    let mut i: u32 = 0;
    proof {
        lemma_pow10_38();
        reveal_with_fuel(pow10, 3);
    }
    while i < timestamp.scale
        invariant
            i <= timestamp.scale <= 36,
            q == pow10((i + 2) as nat),
            pow10(38) == 100_000_000_000_000_000_000_000_000_000_000_000_000,
        decreases timestamp.scale - i,
    {
        proof {
            lemma_pow10_monotone((i + 3) as nat, 38);
        }
        q = q * 10;
        i = i + 1;
    }
    proof {
        lemma_pow10_monotone(2, (timestamp.scale + 2) as nat);
        lemma_pow10_monotone((timestamp.scale + 2) as nat, 38);
    }
    let x: u128 = 2 * (timestamp.digits as u128) * 2997;
    let r: u128 = (x + q) / (2 * q);
    proof {
        lemma_rounded_frame_fits(x, q);
    }
    r as u64
}

/// The frame numbers that drop-frame counting skips before frame `f`:
/// numbers 00 and 01 at the start of every minute except every tenth, that
/// is 18 in each full ten-minute block of 17982 frames and 2 for each minute
/// begun after the first of the current block.
pub open spec fn drop_frame_adjustment(f: nat) -> nat {
    let r = f % 17982;
    18 * (f / 17982) + if r > 2 {
        2 * (((r - 2) as nat) / 1798)
    } else {
        0
    }
}

/// The frame number that drop-frame counting gives frame `f`, on a count
/// of 30 numbers per second.
pub open spec fn drop_frame_count(f: nat) -> nat {
    f + drop_frame_adjustment(f)
}

pub open spec fn digit_char(d: nat) -> char {
    ('0' as u32 + d) as char
}

/// Decimal digits of `n`, no leading zeros.
pub open spec fn decimal_chars(n: nat) -> Seq<char>
    decreases n,
{
    if n < 10 {
        seq![digit_char(n)]
    } else {
        decimal_chars(n / 10).push(digit_char(n % 10))
    }
}

/// Decimal digits of `n`, padded with a zero to at least two.
pub open spec fn two_digits(n: nat) -> Seq<char> {
    if n < 10 {
        seq!['0', digit_char(n)]
    } else {
        decimal_chars(n)
    }
}

/// `HH:MM:SS` of the frame number `a` at 30 numbers per second; the hours
/// are not wrapped at a day.
pub open spec fn hms_text(a: nat) -> Seq<char> {
    two_digits(a / 108000) + seq![':'] + two_digits((a / 1800) % 60) + seq![':'] + two_digits(
        (a / 30) % 60,
    )
}

/// The timecode `HH:MM:SS:FF` of frame `a` at 30 fps.
pub open spec fn timecode_30_text(a: nat) -> Seq<char> {
    hms_text(a) + seq![':'] + two_digits(a % 30)
}

/// The SMPTE drop-frame timecode `HH:MM:SS;FF` of frame `f` at 29.97 fps.
pub open spec fn drop_frame_text(f: nat) -> Seq<char> {
    let a = drop_frame_count(f);
    hms_text(a) + seq![';'] + two_digits(a % 30)
}

proof fn lemma_two_digits_small(n: nat)
    requires
        n < 100,
    ensures
        two_digits(n).len() == 2,
        is_digit(two_digits(n)[0]),
        is_digit(two_digits(n)[1]),
{
    if n >= 10 {
        assert(decimal_chars(n / 10) == seq![digit_char(n / 10)]);
    }
}

/// Where frame `f` falls in its ten-minute block, on the drop-frame count.
spec fn block_offset(f: nat) -> nat {
    let r = f % 17982;
    r + if r > 2 {
        2 * (((r - 2) as nat) / 1798)
    } else {
        0
    }
}

proof fn lemma_count_in_block(f: nat)
    ensures
        drop_frame_count(f) == 18000 * (f / 17982) + block_offset(f),
        block_offset(f) < 18000,
        block_offset(f) % 1800 < 2 ==> block_offset(f) < 1800,
{
    lemma_fundamental_div_mod(f as int, 17982);
    let r = f % 17982;
    if r > 2 {
        let k = ((r - 2) as nat) / 1798;
        let j = ((r - 2) as nat) % 1798;
        lemma_fundamental_div_mod((r - 2) as int, 1798);
        assert(block_offset(f) == k * 1800 + (2 + j));
        lemma_fundamental_div_mod_converse(block_offset(f) as int, 1800, k as int, (2 + j) as int);
    }
}

/// The fields of frame number `a`: minutes (unwrapped), seconds and frames.
proof fn lemma_fields(a: nat)
    ensures
        a % 1800 == 30 * ((a / 30) % 60) + a % 30,
        (a / 1800) % 10 == ((a / 1800) % 60) % 10,
{
    let m = a / 1800;
    let rr = a % 1800;
    lemma_fundamental_div_mod(a as int, 1800);
    lemma_fundamental_div_mod(rr as int, 30);
    let s = rr / 30;
    let fr = rr % 30;
    assert(a == 30 * (60 * m + s) + fr);
    lemma_fundamental_div_mod_converse(a as int, 30, (60 * m + s) as int, fr as int);
    lemma_fundamental_div_mod_converse((a / 30) as int, 60, m as int, s as int);
    lemma_fundamental_div_mod(m as int, 60);
    let y = m % 60;
    lemma_fundamental_div_mod(y as int, 10);
    assert(m == 10 * (6 * (m / 60) + y / 10) + y % 10);
    lemma_fundamental_div_mod_converse(m as int, 10, (6 * (m / 60) + y / 10) as int, (y % 10) as int);
}

/// Drop-frame counting skips frame numbers 00 and 01 at the start of every
/// minute except every tenth: where the seconds field of the timecode of
/// frame `f` is 00 and its frames field under 02, its minutes field is a
/// multiple of ten.
pub proof fn lemma_minute_starts_skipped(f: nat)
    ensures
        ({
            let a = drop_frame_count(f);
            (a / 30) % 60 == 0 && a % 30 < 2 ==> ((a / 1800) % 60) % 10 == 0
        }),
{
    let a = drop_frame_count(f);
    let q = f / 17982;
    let w = block_offset(f);
    lemma_count_in_block(f);
    lemma_fields(a);
    lemma_fundamental_div_mod(w as int, 1800);
    assert(a == 1800 * (10 * q + w / 1800) + w % 1800);
    lemma_fundamental_div_mod_converse(a as int, 1800, (10 * q + w / 1800) as int, (w % 1800) as int);
    if (a / 30) % 60 == 0 && a % 30 < 2 {
        assert(w % 1800 < 2);
        assert(w / 1800 == 0);
        assert(a / 1800 == 10 * q);
        lemma_fundamental_div_mod_converse((a / 1800) as int, 10, q as int, 0);
    }
}

/// Successive frames get strictly increasing drop-frame counts, so no two
/// frames share a timecode.
pub proof fn lemma_drop_frame_count_increases(f: nat)
    ensures
        drop_frame_count(f) < drop_frame_count(f + 1),
{
    lemma_count_in_block(f);
    lemma_count_in_block(f + 1);
    lemma_fundamental_div_mod(f as int, 17982);
    let q = f / 17982;
    let r = f % 17982;
    if r < 17981 {
        lemma_fundamental_div_mod_converse((f + 1) as int, 17982, q as int, (r + 1) as int);
        if r + 1 > 2 && r > 2 {
            assert(((r - 1) as nat) / 1798 >= ((r - 2) as nat) / 1798);
        }
    } else {
        lemma_fundamental_div_mod_converse((f + 1) as int, 17982, (q + 1) as int, 0);
    }
}

/// Below a day of material (2589408 frames) the timecode is `HH:MM:SS;FF`:
/// eleven characters, two digits in each field.
pub proof fn lemma_drop_frame_text_shape(f: nat)
    requires
        f < 2589408,
    ensures
        drop_frame_text(f).len() == 11,
        drop_frame_text(f)[2] == ':',
        drop_frame_text(f)[5] == ':',
        drop_frame_text(f)[8] == ';',
        forall|i: int|
            0 <= i < 11 && i != 2 && i != 5 && i != 8 ==> is_digit(#[trigger] drop_frame_text(f)[i]),
{
    let a = drop_frame_count(f);
    lemma_count_in_block(f);
    assert(f / 17982 <= 143);
    assert(a < 2592000);
    lemma_two_digits_small(a / 108000);
    lemma_two_digits_small((a / 1800) % 60);
    lemma_two_digits_small((a / 30) % 60);
    lemma_two_digits_small(a % 30);
    let t = drop_frame_text(f);
    assert forall|i: int| 0 <= i < 11 && i != 2 && i != 5 && i != 8 implies is_digit(#[trigger] t[i]) by {
        if i < 2 {
            assert(t[i] == two_digits(a / 108000)[i]);
        } else if i < 5 {
            assert(t[i] == two_digits((a / 1800) % 60)[i - 3]);
        } else if i < 8 {
            assert(t[i] == two_digits((a / 30) % 60)[i - 6]);
        } else {
            assert(t[i] == two_digits(a % 30)[i - 9]);
        }
    }
}

#[verifier::external_type_specification]
#[verifier::external_body]
pub struct ExTimecodeParseError(vtc::TimecodeParseError);

/// Relies on vtc's `Timecode::with_frames` at `rates::F30`, then
/// `Timecode::timecode`. `with_frames` on a `u64` fails only above
/// `i64::MAX`; at 30 fps (not NTSC) `timecode` prints hours, minutes,
/// seconds and frames of the frame count at a timebase of 30 with `{:02}`,
/// separated by `:`. The bound keeps vtc's rational arithmetic within `i64`.
#[verifier::external_body]
fn vtc_timecode_30(frame: u64) -> (r: Result<String, vtc::TimecodeParseError>)
    requires
        frame <= 2 * MAX_FRAME,
    ensures
        r is Ok,
        r matches Ok(s) ==> s@ == timecode_30_text(frame as nat),
{
    match vtc::Timecode::with_frames(frame, vtc::rates::F30) {
        Ok(tc) => Ok(tc.timecode()),
        Err(e) => Err(e),
    }
}

/// The drop-frame timecode of a frame index; `FrameOutOfRange` above `MAX_FRAME`.
///
/// vtc's own 29.97 drop-frame rate is not used: its adjustment multiplies
/// by 2 before dividing by 1798 (frame 1109 would read `00:00:37;00`, not
/// `00:00:36;29`) and starts over every 24 hours. The frame number is
/// adjusted here by the SMPTE rule and vtc prints it at 30 fps.
pub fn get_timecode(frame: u64) -> (r: Result<String, SomEomError>)
    ensures
        frame <= MAX_FRAME ==> (r matches Ok(s) && s@ == drop_frame_text(frame as nat)),
        frame > MAX_FRAME ==> r == Err::<String, SomEomError>(SomEomError::FrameOutOfRange),
{
    if frame > MAX_FRAME {
        return Err(SomEomError::FrameOutOfRange);
    }
    let r: u64 = frame % 17982;
    let extra: u64 = if r > 2 {
        2 * ((r - 2) / 1798)
    } else {
        0
    };
    let a: u64 = frame + 18 * (frame / 17982) + extra;
    assert(a == drop_frame_count(frame as nat));
    let s = match vtc_timecode_30(a) {
        Ok(s) => s,
        Err(_) => {
            return Err(SomEomError::FrameOutOfRange);
        },
    };
    proof {
        lemma_two_digits_small(a as nat % 30);
    }
    let n = s.unicode_len();
    let mut t = substring(s.as_str(), 0, n - 3);
    t.append(";");
    let tail = substring(s.as_str(), n - 2, n);
    t.append(tail.as_str());
    proof {
        reveal_strlit(";");
        let h = hms_text(a as nat);
        let ff = two_digits(a as nat % 30);
        assert(s@.subrange(0, n - 3) =~= h);
        assert(s@.subrange(n - 2, n as int) =~= ff);
        assert(t@ =~= drop_frame_text(frame as nat));
    }
    Ok(t)
}

} // verus!
