//! Named values in a detector payload such as
//! `black_start:4.97163 black_end:7.007 black_duration:2.03537`.

use crate::decimal::{decimal_text, parse_decimal, Decimal};
use crate::text::{chars_of, is_space, is_space_char, substring};
use vstd::prelude::*;

verus! {

/// Left to right over `s`: the tokens completed so far, and the one being read.
pub open spec fn split_state(s: Seq<char>) -> (Seq<Seq<char>>, Seq<char>)
    decreases s.len(),
{
    if s.len() == 0 {
        (Seq::empty(), Seq::empty())
    } else {
        let (done, cur) = split_state(s.drop_last());
        if is_space(s.last()) {
            if cur.len() > 0 {
                (done.push(cur), Seq::empty())
            } else {
                (done, cur)
            }
        } else {
            (done, cur.push(s.last()))
        }
    }
}

/// The maximal runs of non-white-space characters of `s`, in order.
pub open spec fn tokens(s: Seq<char>) -> Seq<Seq<char>> {
    let (done, cur) = split_state(s);
    if cur.len() > 0 {
        done.push(cur)
    } else {
        done
    }
}

/// The part of token `t` before its first `:` is `key`.
pub open spec fn has_key(t: Seq<char>, key: Seq<char>) -> bool {
    &&& t.len() > key.len()
    &&& t.take(key.len() as int) == key
    &&& t[key.len() as int] == ':'
    &&& forall|i: int| 0 <= i < key.len() ==> key[i] != ':'
}

/// The first of `toks` whose key is `key`.
pub open spec fn first_keyed(toks: Seq<Seq<char>>, key: Seq<char>) -> Option<Seq<char>>
    decreases toks.len(),
{
    if toks.len() == 0 {
        None
    } else {
        match first_keyed(toks.drop_last(), key) {
            Some(t) => Some(t),
            None => if has_key(toks.last(), key) {
                Some(toks.last())
            } else {
                None
            },
        }
    }
}

/// The number after `key:` in the first token of `payload` keyed `key`;
/// `None` where no token has that key or its value is not a number.
pub open spec fn filter_value(payload: Seq<char>, key: Seq<char>) -> Option<Decimal> {
    match first_keyed(tokens(payload), key) {
        Some(t) => decimal_text(t.skip(key.len() as int + 1)),
        None => None,
    }
}

/// Token `s[a..b]` has key `key`.
fn token_has_key(s: &Vec<char>, a: usize, b: usize, key: &Vec<char>, key_ok: bool) -> (r: bool)
    requires
        a <= b <= s@.len(),
        key_ok == (forall|i: int| 0 <= i < key@.len() ==> key@[i] != ':'),
    ensures
        r == has_key(s@.subrange(a as int, b as int), key@),
{
    let ghost t = s@.subrange(a as int, b as int);
    let k = key.len();
    if !key_ok || b - a <= k {
        return false;
    }
    let mut i: usize = 0;
    while i < k
        invariant
            a <= b <= s@.len(),
            t == s@.subrange(a as int, b as int),
            k == key@.len(),
            b - a > k,
            i <= k,
            forall|j: int| 0 <= j < i ==> t[j] == key@[j],
        decreases k - i,
    {
        if s[a + i] != key[i] {
            assert(t.take(k as int)[i as int] != key@[i as int]);
            return false;
        }
        i = i + 1;
    }
    assert(t.take(k as int) =~= key@);
    s[a + k] == ':'
}

/// The number after `value:` in the first token of `raw_str` keyed `value`
/// (`black_end` in `black_start:4.97163 black_end:7.007` gives 7.007).
pub fn get_filter_value(raw_str: &str, value: &str) -> (r: Option<Decimal>)
    ensures
        r == filter_value(raw_str@, value@),
        r matches Some(d) ==> d.wf(),
{
    let s = chars_of(raw_str);
    let key = chars_of(value);
    let n = s.len();
    let k = key.len();
    let mut key_ok = true;
    let mut j: usize = 0;
    while j < k
        invariant
            k == key@.len(),
            j <= k,
            key_ok == (forall|i: int| 0 <= i < j ==> key@[i] != ':'),
        decreases k - j,
    {
        if key[j] == ':' {
            key_ok = false;
        }
        j = j + 1;
    }
    let mut found: Option<(usize, usize)> = None;
    let mut start: usize = 0;
    let mut i: usize = 0;
    let ghost mut done: Seq<Seq<char>> = Seq::empty();
    while i < n
        invariant
            n == s@.len(),
            k == key@.len(),
            key_ok == (forall|i: int| 0 <= i < k ==> key@[i] != ':'),
            start <= i <= n,
            split_state(s@.take(i as int)) == (done, s@.subrange(start as int, i as int)),
            match found {
                Some((a, b)) => a <= b <= n && has_key(s@.subrange(a as int, b as int), key@)
                    && first_keyed(done, key@) == Some(s@.subrange(a as int, b as int)),
                None => first_keyed(done, key@) is None,
            },
        decreases n - i,
    {
        let c = s[i];
        assert(s@.take(i + 1).drop_last() =~= s@.take(i as int));
        if is_space_char(c) {
            if start < i {
                if found.is_none() && token_has_key(&s, start, i, &key, key_ok) {
                    found = Some((start, i));
                }
                proof {
                    let prev = done;
                    done = done.push(s@.subrange(start as int, i as int));
                    assert(done.drop_last() =~= prev);
                }
            }
            start = i + 1;
        } else {
            assert(s@.subrange(start as int, i + 1) =~= s@.subrange(start as int, i as int).push(
                c,
            ));
        }
        i = i + 1;
    }
    if start < n {
        if found.is_none() && token_has_key(&s, start, n, &key, key_ok) {
            found = Some((start, n));
        }
        proof {
            let prev = done;
            done = done.push(s@.subrange(start as int, n as int));
            assert(done.drop_last() =~= prev);
        }
    }
    assert(s@.take(n as int) =~= s@);
    assert(tokens(s@) == done);
    match found {
        Some((a, b)) => {
            let v = substring(raw_str, a + k + 1, b);
            assert(v@ =~= s@.subrange(a as int, b as int).skip(k + 1));
            parse_decimal(v.as_str())
        },
        None => None,
    }
}

} // verus!
