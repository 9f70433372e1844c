//! Text primitives of the holiday source format, stated over sequences of
//! characters: white space and trimming, splitting at a separator,
//! replacing a character, and reading a decimal integer.

use vstd::prelude::*;
use vstd::std_specs::iter::IteratorSpec;

verus! {

/// The characters with the Unicode property `White_Space`.
pub open spec fn is_space(c: char) -> bool {
    let u = c as u32;
    ||| 0x09 <= u <= 0x0D
    ||| u == 0x20
    ||| u == 0x85
    ||| u == 0xA0
    ||| u == 0x1680
    ||| 0x2000 <= u <= 0x200A
    ||| u == 0x2028
    ||| u == 0x2029
    ||| u == 0x202F
    ||| u == 0x205F
    ||| u == 0x3000
}

/// `s` without its leading white space.
pub open spec fn trim_start(s: Seq<char>) -> Seq<char>
    decreases s.len(),
{
    if s.len() > 0 && is_space(s.first()) {
        trim_start(s.drop_first())
    } else {
        s
    }
}

/// `s` without its trailing white space.
pub open spec fn trim_end(s: Seq<char>) -> Seq<char>
    decreases s.len(),
{
    if s.len() > 0 && is_space(s.last()) {
        trim_end(s.drop_last())
    } else {
        s
    }
}

/// `s` without leading and trailing white space.
pub open spec fn trim(s: Seq<char>) -> Seq<char> {
    trim_end(trim_start(s))
}

/// The index of the first `sep` in `s`, or the length of `s` if there is none.
pub open spec fn first_index_of(s: Seq<char>, sep: char) -> int
    decreases s.len(),
{
    if s.len() == 0 || s.first() == sep {
        0
    } else {
        1 + first_index_of(s.drop_first(), sep)
    }
}

/// The pieces of `s` between occurrences of `sep`, in order. There is always
/// at least one piece; two adjacent separators enclose an empty piece.
pub open spec fn split(s: Seq<char>, sep: char) -> Seq<Seq<char>>
    decreases s.len(),
{
    let i = first_index_of(s, sep);
    if 0 <= i < s.len() {
        seq![s.take(i)] + split(s.skip(i + 1), sep)
    } else {
        seq![s]
    }
}

/// `s` with every `from` replaced by `to`.
pub open spec fn replaced(s: Seq<char>, from: char, to: char) -> Seq<char> {
    Seq::new(s.len(), |i: int| if s[i] == from { to } else { s[i] })
}

/// The decimal digits, `0` to `9`.
pub open spec fn is_digit(c: char) -> bool {
    '0' <= c <= '9'
}

/// Whether `s` holds decimal digits only.
pub open spec fn all_digits(s: Seq<char>) -> bool {
    forall|i: int| 0 <= i < s.len() ==> is_digit(#[trigger] s[i])
}

/// The number that the decimal digits `s` write, most significant first.
pub open spec fn decimal_value(s: Seq<char>) -> int
    decreases s.len(),
{
    if s.len() == 0 {
        0
    } else {
        10 * decimal_value(s.drop_last()) + (s.last() as int - '0' as int)
    }
}

/// What follows an optional leading sign of `s`.
pub open spec fn unsigned_part(s: Seq<char>) -> Seq<char> {
    if s.len() > 0 && (s.first() == '+' || s.first() == '-') {
        s.drop_first()
    } else {
        s
    }
}

/// The integer that `s` writes: an optional `+` or `-`, then one or more
/// decimal digits and nothing else, with a value that a 32-bit signed
/// integer can hold. Any other text writes no integer.
pub open spec fn parse_int(s: Seq<char>) -> Option<int> {
    let digits = unsigned_part(s);
    let magnitude = decimal_value(digits);
    let value = if s.len() > 0 && s.first() == '-' { -magnitude } else { magnitude };
    if digits.len() > 0 && all_digits(digits) && i32::MIN <= value <= i32::MAX {
        Some(value)
    } else {
        None
    }
}

/// Whether `spans` are the places in `s` of `parts`, one for one.
pub open spec fn spans_of(s: Seq<char>, spans: Seq<(usize, usize)>, parts: Seq<Seq<char>>) -> bool {
    &&& spans.len() == parts.len()
    &&& forall|i: int|
        0 <= i < spans.len() ==> {
            &&& (#[trigger] spans[i]).0 <= spans[i].1 <= s.len()
            &&& s.subrange(spans[i].0 as int, spans[i].1 as int) == parts[i]
        }
}

/// The characters of `s`, in order.
pub fn chars_of(s: &str) -> (chars: Vec<char>)
    ensures
        chars@ == s@,
{
    let mut chars: Vec<char> = Vec::new();
    for c in it: s.chars()
        invariant
            chars@ == it.seq().take(it.index() as int),
            it.seq() == s@,
    {
        chars.push(c);
    }
    chars
}

/// Whether `c` is white space.
pub fn is_whitespace(c: char) -> (space: bool)
    ensures
        space == is_space(c),
{
    let u: u32 = c as u32;
    (0x09 <= u && u <= 0x0D) || u == 0x20 || u == 0x85 || u == 0xA0 || u == 0x1680 || (0x2000 <= u
        && u <= 0x200A) || u == 0x2028 || u == 0x2029 || u == 0x202F || u == 0x205F || u == 0x3000
}

/// Where the trimmed text lies in `s`: `s[span.0..span.1]` is `s` without
/// its leading and trailing white space.
pub fn trim_span(s: &[char]) -> (span: (usize, usize))
    ensures
        span.0 <= span.1 <= s@.len(),
        s@.subrange(span.0 as int, span.1 as int) == trim(s@),
{
    let mut start: usize = 0;
    assert(s@.skip(0) == s@);
    while start < s.len() && is_whitespace(s[start])
        invariant
            start <= s@.len(),
            trim_start(s@) == trim_start(s@.skip(start as int)),
        decreases s@.len() - start,
    {
        assert(s@.skip(start as int).drop_first() == s@.skip(start as int + 1));
        start += 1;
    }
    assert(trim_start(s@) == s@.skip(start as int));
    let mut end: usize = s.len();
    assert(s@.subrange(start as int, end as int) == s@.skip(start as int));
    while end > start && is_whitespace(s[end - 1])
        invariant
            start <= end <= s@.len(),
            trim(s@) == trim_end(s@.subrange(start as int, end as int)),
        decreases end,
    {
        assert(s@.subrange(start as int, end as int).drop_last() == s@.subrange(
            start as int,
            end as int - 1,
        ));
        end -= 1;
    }
    (start, end)
}

/// A separator-free stretch followed by a separator ends at the first
/// separator; a separator-free sequence has none.
proof fn lemma_first_index_of(s: Seq<char>, sep: char, k: int)
    requires
        0 <= k <= s.len(),
        forall|i: int| 0 <= i < k ==> s[i] != sep,
        k < s.len() ==> s[k] == sep,
    ensures
        first_index_of(s, sep) == k,
    decreases k,
{
    if k > 0 {
        lemma_first_index_of(s.drop_first(), sep, k - 1);
    }
}

/// Where the pieces of `s` between occurrences of `sep` lie in `s`.
pub fn split_spans(s: &[char], sep: char) -> (spans: Vec<(usize, usize)>)
    ensures
        spans_of(s@, spans@, split(s@, sep)),
{
    let mut spans: Vec<(usize, usize)> = Vec::new();
    let ghost mut parts: Seq<Seq<char>> = Seq::empty();
    let mut begin: usize = 0;
    let mut i: usize = 0;
    assert(s@.skip(0) == s@);
    while i < s.len()
        invariant
            begin <= i <= s@.len(),
            spans_of(s@, spans@, parts),
            split(s@, sep) == parts + split(s@.skip(begin as int), sep),
            forall|j: int| begin <= j < i ==> s@[j] != sep,
        decreases s@.len() - i,
    {
        if s[i] == sep {
            proof {
                let rest = s@.skip(begin as int);
                lemma_first_index_of(rest, sep, i - begin);
                assert(rest.take(i - begin) == s@.subrange(begin as int, i as int));
                assert(rest.skip(i - begin + 1) == s@.skip(i as int + 1));
                assert(parts + (seq![rest.take(i - begin)] + split(s@.skip(i as int + 1), sep))
                    == parts.push(rest.take(i - begin)) + split(s@.skip(i as int + 1), sep));
                parts = parts.push(rest.take(i - begin));
            }
            spans.push((begin, i));
            begin = i + 1;
        }
        i += 1;
    }
    proof {
        let rest = s@.skip(begin as int);
        lemma_first_index_of(rest, sep, rest.len() as int);
        assert(rest == s@.subrange(begin as int, s@.len() as int));
        assert(parts + seq![rest] == parts.push(rest));
        parts = parts.push(rest);
    }
    spans.push((begin, s.len()));
    spans
}

/// A copy of `s` with every `from` replaced by `to`.
pub fn replace_char(s: &[char], from: char, to: char) -> (out: Vec<char>)
    ensures
        out@ == replaced(s@, from, to),
{
    let mut out: Vec<char> = Vec::new();
    let mut i: usize = 0;
    while i < s.len()
        invariant
            i <= s@.len(),
            out@ == replaced(s@, from, to).take(i as int),
        decreases s@.len() - i,
    {
        let c = s[i];
        out.push(if c == from { to } else { c });
        assert(out@ == replaced(s@, from, to).take(i as int + 1));
        i += 1;
    }
    assert(out@ == replaced(s@, from, to));
    out
}

/// Digits written before others weigh in: a prefix of a digit string writes
/// no more than the whole.
proof fn lemma_decimal_value_prefix(s: Seq<char>, k: int)
    requires
        all_digits(s),
        0 <= k <= s.len(),
    ensures
        0 <= decimal_value(s.take(k)) <= decimal_value(s),
    decreases s.len() - k,
{
    if k == s.len() {
        assert(s.take(k) == s);
        lemma_decimal_value_nonnegative(s);
    } else {
        lemma_decimal_value_prefix(s, k + 1);
        assert(s.take(k + 1).drop_last() == s.take(k));
        assert(is_digit(s[k]));
        lemma_decimal_value_nonnegative(s.take(k));
    }
}

/// Digits write no negative number.
proof fn lemma_decimal_value_nonnegative(s: Seq<char>)
    requires
        all_digits(s),
    ensures
        0 <= decimal_value(s),
    decreases s.len(),
{
    if s.len() > 0 {
        lemma_decimal_value_nonnegative(s.drop_last());
        assert(is_digit(s.last()));
    }
}

/// Reads a decimal integer, as `parse_int` defines it.
pub fn parse_i32(s: &[char]) -> (parsed: Option<i32>)
    ensures
        parsed matches Some(v) ==> parse_int(s@) == Some(v as int),
        parsed is None ==> parse_int(s@) is None,
{
    let n = s.len();
    let negative = n > 0 && s[0] == '-';
    let first: usize = if n > 0 && (s[0] == '+' || s[0] == '-') { 1 } else { 0 };
    let ghost digits = unsigned_part(s@);
    assert(digits == s@.skip(first as int));
    if first == n {
        return None;
    }
    let mut magnitude: i64 = 0;
    let mut i: usize = first;
    assert(digits.take(0) == Seq::<char>::empty());
    while i < n
        invariant
            first <= i <= n == s@.len(),
            digits == unsigned_part(s@),
            digits == s@.skip(first as int),
            negative == (s@.len() > 0 && s@.first() == '-'),
            all_digits(digits.take(i - first)),
            magnitude == decimal_value(digits.take(i - first)),
            0 <= magnitude <= 0x8000_0000,
        decreases n - i,
    {
        let c = s[i];
        assert(digits[i - first] == c);
        if !('0' <= c && c <= '9') {
            return None;
        }
        let ghost before = digits.take(i - first);
        let ghost upto = digits.take(i - first + 1);
        assert(upto.drop_last() == before);
        assert(upto.last() == c);
        assert forall|j: int| 0 <= j < upto.len() implies is_digit(#[trigger] upto[j]) by {
            if j < before.len() {
                assert(upto[j] == before[j]);
            }
        }
        magnitude = magnitude * 10 + (c as i64 - '0' as i64);
        assert(magnitude == decimal_value(upto));
        if magnitude > 0x8000_0000 {
            proof {
                if all_digits(digits) {
                    lemma_decimal_value_prefix(digits, i - first + 1);
                }
            }
            return None;
        }
        i += 1;
    }
    assert(digits.take(i - first) == digits);
    if negative {
        Some((-magnitude) as i32)
    } else if magnitude <= 0x7FFF_FFFF {
        Some(magnitude as i32)
    } else {
        None
    }
}

} // verus!
