//! Character-level helpers and the two field extractors for detector lines:
//! the payload after the bracketed prefix, and a labelled field.

use crate::error::SomEomError;
use vstd::prelude::*;

verus! {

/// Unicode `White_Space`, the characters that separate tokens.
pub open spec fn is_space(c: char) -> bool {
    let u = c as u32;
    (9 <= u && u <= 13) || u == 32 || u == 0x85 || u == 0xA0 || u == 0x1680 || (0x2000 <= u && u
        <= 0x200A) || u == 0x2028 || u == 0x2029 || u == 0x202F || u == 0x205F || u == 0x3000
}

pub fn is_space_char(c: char) -> (r: bool)
    ensures
        r == is_space(c),
{
    let u = c as u32;
    (9 <= u && u <= 13) || u == 32 || u == 0x85 || u == 0xA0 || u == 0x1680 || (0x2000 <= u && u
        <= 0x200A) || u == 0x2028 || u == 0x2029 || u == 0x202F || u == 0x205F || u == 0x3000
}

/// `pat` stands in `s` starting at index `i`.
pub open spec fn occurs_at(s: Seq<char>, pat: Seq<char>, i: int) -> bool {
    0 <= i && i + pat.len() <= s.len() && s.subrange(i, i + pat.len()) == pat
}

pub open spec fn is_first_occurrence(s: Seq<char>, pat: Seq<char>, from: int, i: int) -> bool {
    from <= i && occurs_at(s, pat, i) && forall|j: int| from <= j < i ==> !occurs_at(s, pat, j)
}

/// The least index, not below `from`, at which `pat` stands in `s`.
pub open spec fn first_occurrence(s: Seq<char>, pat: Seq<char>, from: int) -> Option<int> {
    if exists|i: int| is_first_occurrence(s, pat, from, i) {
        Some(choose|i: int| is_first_occurrence(s, pat, from, i))
    } else {
        None
    }
}

proof fn lemma_first_occurrence_is(s: Seq<char>, pat: Seq<char>, from: int, i: int)
    requires
        is_first_occurrence(s, pat, from, i),
    ensures
        first_occurrence(s, pat, from) == Some(i),
{
    let k = choose|k: int| is_first_occurrence(s, pat, from, k);
    if k < i {
        assert(!occurs_at(s, pat, k));
    } else if k > i {
        assert(!occurs_at(s, pat, i));
    }
}

/// The characters of a string, one per element.
pub fn chars_of(s: &str) -> (v: Vec<char>)
    ensures
        v@ == s@,
{
    let n = s.unicode_len();
    let mut v: Vec<char> = Vec::new();
    let mut i: usize = 0;
    while i < n
        invariant
            n == s@.len(),
            i <= n,
            v@ == s@.take(i as int),
        decreases n - i,
    {
        v.push(s.get_char(i));
        i = i + 1;
        assert(v@ =~= s@.take(i as int));
    }
    assert(s@.take(n as int) =~= s@);
    v
}

/// The first index, not below `from`, at which `pat` stands in `s`.
pub fn find_from(s: &Vec<char>, pat: &Vec<char>, from: usize) -> (r: Option<usize>)
    requires
        from <= s@.len(),
    ensures
        r matches Some(i) ==> first_occurrence(s@, pat@, from as int) == Some(i as int)
            && is_first_occurrence(s@, pat@, from as int, i as int),
        r is None ==> first_occurrence(s@, pat@, from as int) is None && forall|j: int|
            from <= j ==> !occurs_at(s@, pat@, j),
{
    let n = s.len();
    let m = pat.len();
    if m > n {
        assert forall|i: int| !is_first_occurrence(s@, pat@, from as int, i) by {}
        return None;
    }
    if from > n - m {
        assert forall|j: int| from <= j implies !occurs_at(s@, pat@, j) by {}
        assert forall|i: int| !is_first_occurrence(s@, pat@, from as int, i) by {}
        return None;
    }
    let mut i: usize = from;
    while i <= n - m
        invariant
            n == s@.len(),
            m == pat@.len(),
            m <= n,
            from <= i <= n - m + 1,
            forall|j: int| from <= j < i ==> !occurs_at(s@, pat@, j),
        decreases n + 1 - i,
    {
        let mut k: usize = 0;
        while k < m
            invariant
                n == s@.len(),
                m == pat@.len(),
                i + m <= n,
                k <= m,
                forall|t: int| 0 <= t < k ==> s@[i + t] == pat@[t],
            ensures
                k <= m,
                forall|t: int| 0 <= t < k ==> s@[i + t] == pat@[t],
                k < m ==> s@[i + k] != pat@[k as int],
            decreases m - k,
        {
            if s[i + k] != pat[k] {
                break;
            }
            k = k + 1;
        }
        if k == m {
            proof {
                assert(s@.subrange(i as int, i + m) =~= pat@);
                lemma_first_occurrence_is(s@, pat@, from as int, i as int);
            }
            return Some(i);
        }
        assert(s@.subrange(i as int, i + m)[k as int] != pat@[k as int]);
        i = i + 1;
    }
    assert forall|j: int| !is_first_occurrence(s@, pat@, from as int, j) by {
        if from <= j && j < i {
            assert(!occurs_at(s@, pat@, j));
        }
    }
    None
}

/// A `String` holding `s[from..to]`.
pub fn substring(s: &str, from: usize, to: usize) -> (r: String)
    requires
        from <= to <= s@.len(),
    ensures
        r@ == s@.subrange(from as int, to as int),
{
    s.substring_char(from, to).to_owned()
}

/// What follows the first `[`, and after it the first `] `, in a detector
/// line; `None` where either is missing.
pub open spec fn payload_of(line: Seq<char>) -> Option<Seq<char>> {
    match first_occurrence(line, seq!['['], 0) {
        Some(b) => match first_occurrence(line, seq![']', ' '], b + 1) {
            Some(e) => Some(line.skip(e + 2)),
            None => None,
        },
        None => None,
    }
}

/// The payload of a detector line, that is everything after its
/// `[<prefix>] ` (`[blackdetect @ 0x13e00d040] black_start:4.97163 ...`
/// gives `black_start:4.97163 ...`).
pub fn extract_filter_prefix(input: &str) -> (r: Result<String, SomEomError>)
    ensures
        r matches Ok(p) ==> payload_of(input@) == Some(p@),
        r is Err ==> payload_of(input@) is None && r == Err::<String, SomEomError>(
            SomEomError::MalformedLogLine,
        ),
{
    let s = chars_of(input);
    let n = s.len();
    let mut open: Vec<char> = Vec::new();
    open.push('[');
    let mut close: Vec<char> = Vec::new();
    close.push(']');
    close.push(' ');
    assert(open@ =~= seq!['[']);
    assert(close@ =~= seq![']', ' ']);
    match find_from(&s, &open, 0) {
        Some(b) => {
            assert(occurs_at(s@, open@, b as int));
            assert(b + 1 <= s@.len());
            match find_from(&s, &close, b + 1) {
                Some(e) => {
                    assert(occurs_at(s@, close@, e as int));
                    assert(e + 2 <= s@.len());
                    Ok(substring(input, e + 2, s.len()))
                },
                None => Err(SomEomError::MalformedLogLine),
            }
        },
        None => Err(SomEomError::MalformedLogLine),
    }
}

/// `s` without its leading white space.
pub open spec fn trim_start(s: Seq<char>) -> Seq<char>
    decreases s.len(),
{
    if s.len() > 0 && is_space(s[0]) {
        trim_start(s.drop_first())
    } else {
        s
    }
}

/// `s` without one trailing comma, if it has one.
pub open spec fn strip_comma(s: Seq<char>) -> Seq<char> {
    if s.len() > 0 && s.last() == ',' {
        s.drop_last()
    } else {
        s
    }
}

/// `s` up to its first space, all of it where there is none.
pub open spec fn up_to_space(s: Seq<char>) -> Seq<char> {
    match first_occurrence(s, seq![' '], 0) {
        Some(e) => s.take(e),
        None => s,
    }
}

/// The value of the field `<label>:` in a line: after the first `<label>:`,
/// leading white space skipped, up to the next space, one trailing comma
/// removed. `None` where the line has no `<label>:`.
pub open spec fn labeled_field(line: Seq<char>, label: Seq<char>) -> Option<Seq<char>> {
    match first_occurrence(line, label.push(':'), 0) {
        Some(i) => Some(
            strip_comma(up_to_space(trim_start(line.skip(i + label.len() + 1)))),
        ),
        None => None,
    }
}

/// The value of the field `<param>:` in `input_string`
/// (`Duration: 00:00:39.04, start: ...` and `Duration` give `00:00:39.04`).
pub fn get_value_from_string(param: &str, input_string: String) -> (r: Option<String>)
    ensures
        r matches Some(v) ==> labeled_field(input_string@, param@) == Some(v@),
        r is None ==> labeled_field(input_string@, param@) is None,
{
    let line = input_string.as_str();
    let s = chars_of(line);
    let n = s.len();
    let mut pattern = chars_of(param);
    pattern.push(':');
    let i = match find_from(&s, &pattern, 0) {
        Some(i) => i,
        None => {
            return None;
        },
    };
    assert(occurs_at(s@, pattern@, i as int));
    assert(i + pattern@.len() <= s@.len());
    let ghost rest = s@.skip(i + pattern@.len());
    let mut a: usize = i + pattern.len();
    while a < s.len() && is_space_char(s[a])
        invariant
            i + pattern@.len() <= a <= s@.len(),
            trim_start(rest) == trim_start(s@.skip(a as int)),
            rest == s@.skip(i + pattern@.len()),
        decreases s@.len() - a,
    {
        assert(s@.skip(a as int).drop_first() =~= s@.skip(a + 1));
        a = a + 1;
    }
    let ghost t = s@.skip(a as int);
    assert(trim_start(t) == t);
    let mut space: Vec<char> = Vec::new();
    space.push(' ');
    assert(space@ =~= seq![' ']);
    let b: usize = match find_from(&s, &space, a) {
        Some(e) => e,
        None => s.len(),
    };
    proof {
        if b < s@.len() {
            assert(occurs_at(s@, space@, b as int));
            assert(s@.subrange(b as int, b + 1) =~= t.subrange(b - a, b - a + 1));
            assert forall|j: int| 0 <= j < b - a implies !occurs_at(t, space@, j) by {
                assert(s@.subrange(a + j, a + j + 1) =~= t.subrange(j, j + 1));
                assert(!occurs_at(s@, space@, a + j));
            }
            lemma_first_occurrence_is(t, space@, 0, b - a);
            assert(up_to_space(t) =~= s@.subrange(a as int, b as int));
        } else {
            assert forall|j: int| !is_first_occurrence(t, space@, 0, j) by {
                if 0 <= j && j + 1 <= t.len() {
                    assert(s@.subrange(a + j, a + j + 1) =~= t.subrange(j, j + 1));
                    assert(!occurs_at(s@, space@, a + j));
                }
            }
            assert(up_to_space(t) =~= s@.subrange(a as int, b as int));
        }
    }
    let c: usize = if b > a && s[b - 1] == ',' {
        b - 1
    } else {
        b
    };
    assert(strip_comma(s@.subrange(a as int, b as int)) =~= s@.subrange(a as int, c as int));
    Some(substring(line, a, c))
}

} // verus!
