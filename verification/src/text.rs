//! Character-level helpers for the header text: UTF-8 decoding, trimming,
//! splitting and integer parsing.
use vstd::prelude::*;
use vstd::utf8::{valid_utf8, decode_utf8};

verus! {

/// Whether `c` has the Unicode `White_Space` property (what `char::is_whitespace` tests).
pub open spec fn is_white_space(c: char) -> bool {
    ||| ('\u{9}' <= c && c <= '\u{d}')
    ||| c == ' '
    ||| c == '\u{85}'
    ||| c == '\u{a0}'
    ||| c == '\u{1680}'
    ||| ('\u{2000}' <= c && c <= '\u{200a}')
    ||| c == '\u{2028}'
    ||| c == '\u{2029}'
    ||| c == '\u{202f}'
    ||| c == '\u{205f}'
    ||| c == '\u{3000}'
}

/// Whether `c` is white space in the sense of `char::is_whitespace`.
pub fn white_space(c: char) -> (b: bool)
    ensures
        b == is_white_space(c),
{
    ('\u{9}' <= c && c <= '\u{d}') || c == ' ' || c == '\u{85}' || c == '\u{a0}' || c == '\u{1680}'
        || ('\u{2000}' <= c && c <= '\u{200a}') || c == '\u{2028}' || c == '\u{2029}' || c
        == '\u{202f}' || c == '\u{205f}' || c == '\u{3000}'
}

/// `s` without its leading white space.
pub open spec fn trim_start(s: Seq<char>) -> Seq<char>
    decreases s.len(),
{
    if s.len() > 0 && is_white_space(s[0]) {
        trim_start(s.drop_first())
    } else {
        s
    }
}

/// `s` without its trailing white space.
pub open spec fn trim_end(s: Seq<char>) -> Seq<char>
    decreases s.len(),
{
    if s.len() > 0 && is_white_space(s.last()) {
        trim_end(s.drop_last())
    } else {
        s
    }
}

/// `s` without leading and trailing white space (what `str::trim` returns).
pub open spec fn trim(s: Seq<char>) -> Seq<char> {
    trim_end(trim_start(s))
}

/// Whether `c` is a line-ending character.
pub open spec fn is_line_break(c: char) -> bool {
    c == '\r' || c == '\n'
}

/// `s` without its trailing `\r` and `\n` characters.
pub open spec fn trim_line_breaks(s: Seq<char>) -> Seq<char>
    decreases s.len(),
{
    if s.len() > 0 && is_line_break(s.last()) {
        trim_line_breaks(s.drop_last())
    } else {
        s
    }
}

/// Index of the first `c` in `s`, or `s.len()` when there is none.
pub open spec fn index_of_first(s: Seq<char>, c: char) -> int
    decreases s.len(),
{
    if s.len() == 0 {
        0
    } else if s[0] == c {
        0
    } else {
        1 + index_of_first(s.drop_first(), c)
    }
}

/// The parts of `s` before and after its first `c` (what `str::split_once` returns).
pub open spec fn split_once(s: Seq<char>, c: char) -> Option<(Seq<char>, Seq<char>)> {
    let k = index_of_first(s, c);
    if k >= s.len() {
        None
    } else {
        Some((s.take(k), s.skip(k + 1)))
    }
}

/// `index_of_first` finds the first occurrence of `c`, if any.
pub proof fn lemma_index_of_first(s: Seq<char>, c: char)
    ensures
        0 <= index_of_first(s, c) <= s.len(),
        index_of_first(s, c) < s.len() ==> s[index_of_first(s, c)] == c,
        forall|j: int| 0 <= j < index_of_first(s, c) ==> s[j] != c,
    decreases s.len(),
{
    if s.len() > 0 && s[0] != c {
        lemma_index_of_first(s.drop_first(), c);
        assert forall|j: int| 0 <= j < index_of_first(s, c) implies s[j] != c by {
            if j > 0 {
                assert(s[j] == s.drop_first()[j - 1]);
            }
        }
    }
}

/// The value of a nonempty string of ASCII digits.
pub open spec fn digits_value(s: Seq<char>) -> int
    decreases s.len(),
{
    if s.len() == 0 {
        0
    } else {
        digits_value(s.drop_last()) * 10 + (s.last() as int - 48)
    }
}

/// Whether `c` is one of `0` to `9`.
pub open spec fn is_ascii_digit(c: char) -> bool {
    '0' <= c && c <= '9'
}

/// Whether every character of `s` is one of `0` to `9`.
pub open spec fn all_ascii_digits(s: Seq<char>) -> bool {
    forall|i: int| 0 <= i < s.len() ==> is_ascii_digit(#[trigger] s[i])
}

/// What `str::parse::<i64>` returns: an optional sign, then one or more
/// ASCII digits, with a value that fits in `i64`.
pub open spec fn spec_parse_i64(s: Seq<char>) -> Option<int> {
    if s.len() == 0 {
        None
    } else {
        let negative = s[0] == '-';
        let d = if s[0] == '+' || s[0] == '-' {
            s.drop_first()
        } else {
            s
        };
        if d.len() == 0 || !all_ascii_digits(d) {
            None
        } else {
            let v = if negative {
                -digits_value(d)
            } else {
                digits_value(d)
            };
            if i64::MIN <= v && v <= i64::MAX {
                Some(v)
            } else {
                None
            }
        }
    }
}

/// A string of ASCII digits has a nonnegative value.
pub proof fn lemma_digits_value_nonneg(s: Seq<char>)
    requires
        all_ascii_digits(s),
    ensures
        digits_value(s) >= 0,
    decreases s.len(),
{
    if s.len() > 0 {
        lemma_digits_value_nonneg(s.drop_last());
    }
}

/// Parse `s` as an `i64` the way `str::parse::<i64>` does.
pub fn parse_i64(s: &[char]) -> (r: Option<i64>)
    ensures
        r matches Some(v) ==> spec_parse_i64(s@) == Some(v as int),
        r is None ==> spec_parse_i64(s@) is None,
{
    let n = s.len();
    if n == 0 {
        return None;
    }
    let negative = s[0] == '-';
    let start: usize = if s[0] == '+' || s[0] == '-' {
        1
    } else {
        0
    };
    if start == n {
        return None;
    }
    let ghost d = s@.skip(start as int);
    proof {
        assert(s@.drop_first() =~= s@.skip(1));
        assert(s@.skip(0) =~= s@);
        assert(s@.subrange(start as int, start as int) =~= Seq::<char>::empty());
    }
    let limit: u64 = if negative {
        0x8000_0000_0000_0000u64
    } else {
        0x7fff_ffff_ffff_ffffu64
    };
    let mut acc: u64 = 0;
    let mut overflow = false;
    let mut i = start;
    while i < n
        invariant
            start <= i <= n,
            n == s@.len(),
            d == s@.skip(start as int),
            n > 0,
            start == 1 ==> d == s@.drop_first(),
            start == 0 ==> d == s@,
            (start == 1) == (s@[0] == '+' || s@[0] == '-'),
            negative == (s@[0] == '-'),
            limit == (if negative { 0x8000_0000_0000_0000u64 } else { 0x7fff_ffff_ffff_ffffu64 }),
            forall|k: int| start <= k < i ==> is_ascii_digit(#[trigger] s@[k]),
            !overflow ==> acc == digits_value(s@.subrange(start as int, i as int)),
            !overflow ==> acc <= limit,
            overflow ==> digits_value(s@.subrange(start as int, i as int)) > limit,
            all_ascii_digits(s@.subrange(start as int, i as int)),
        decreases n - i,
    {
        let c = s[i];
        if !('0' <= c && c <= '9') {
            proof {
                assert(d[i - start] == s@[i as int]);
                assert(!is_ascii_digit(d[i - start]));
                assert(!all_ascii_digits(d));
            }
            return None;
        }
        let digit = (c as u32 - 48) as u64;
        assert(digit <= 9);
        assert(digit == c as int - 48);
        let ghost prev = s@.subrange(start as int, i as int);
        let ghost next = s@.subrange(start as int, i + 1);
        proof {
            assert(next.drop_last() =~= prev);
            assert(next.last() == c);
            assert(all_ascii_digits(next));
            lemma_digits_value_nonneg(prev);
        }
        if !overflow {
            if acc > (limit - digit) / 10 {
                overflow = true;
                assert(acc * 10 + digit > limit) by (nonlinear_arith)
                    requires
                        acc > (limit - digit) / 10,
                        digit <= 9,
                        limit >= 9,
                ;
            } else {
                assert(acc * 10 + digit <= limit) by (nonlinear_arith)
                    requires
                        acc <= (limit - digit) / 10,
                        digit <= 9,
                        limit >= 9,
                ;
                acc = acc * 10 + digit;
            }
        } else {
            assert(digits_value(prev) * 10 + digit > limit) by (nonlinear_arith)
                requires
                    digits_value(prev) > limit,
            ;
        }
        i = i + 1;
    }
    assert(s@.subrange(start as int, n as int) =~= d);
    proof {
        lemma_digits_value_nonneg(d);
    }
    if overflow {
        return None;
    }
    if negative {
        if acc == 0x8000_0000_0000_0000u64 {
            Some(i64::MIN)
        } else {
            Some(-(acc as i64))
        }
    } else {
        Some(acc as i64)
    }
}

/// Copy `s[start..end]` into a new vector.
pub fn copy_range(s: &[char], start: usize, end: usize) -> (r: Vec<char>)
    requires
        start <= end <= s@.len(),
    ensures
        r@ == s@.subrange(start as int, end as int),
{
    let mut r: Vec<char> = Vec::new();
    let mut i = start;
    while i < end
        invariant
            start <= i <= end <= s@.len(),
            r@ == s@.subrange(start as int, i as int),
        decreases end - i,
    {
        r.push(s[i]);
        proof {
            assert(r@ =~= s@.subrange(start as int, i + 1));
        }
        i = i + 1;
    }
    r
}

/// Append `src[from..to]` to `dst`.
pub fn append_range(dst: &mut Vec<char>, src: &[char], from: usize, to: usize)
    requires
        from <= to <= src@.len(),
    ensures
        final(dst)@ == old(dst)@ + src@.subrange(from as int, to as int),
{
    let mut k = from;
    while k < to
        invariant
            from <= k <= to <= src@.len(),
            dst@ == old(dst)@ + src@.subrange(from as int, k as int),
        decreases to - k,
    {
        dst.push(src[k]);
        proof {
            assert(dst@ =~= old(dst)@ + src@.subrange(from as int, k + 1));
        }
        k = k + 1;
    }
}

/// `str::trim`: remove leading and trailing white space.
pub fn trim_chars(s: &[char]) -> (r: Vec<char>)
    ensures
        r@ == trim(s@),
{
    let n = s.len();
    let mut i: usize = 0;
    assert(s@.subrange(0, n as int) =~= s@);
    while i < n && white_space(s[i])
        invariant
            i <= n == s@.len(),
            trim_start(s@) == trim_start(s@.subrange(i as int, n as int)),
        decreases n - i,
    {
        proof {
            let sub = s@.subrange(i as int, n as int);
            assert(sub.drop_first() =~= s@.subrange(i + 1, n as int));
        }
        i = i + 1;
    }
    proof {
        let sub = s@.subrange(i as int, n as int);
        if i == n {
            assert(sub.len() == 0);
        }
        assert(trim_start(sub) == sub);
    }
    let mut j: usize = n;
    while j > i && white_space(s[j - 1])
        invariant
            i <= j <= n == s@.len(),
            trim(s@) == trim_end(s@.subrange(i as int, j as int)),
        decreases j,
    {
        proof {
            let sub = s@.subrange(i as int, j as int);
            assert(sub.drop_last() =~= s@.subrange(i as int, j - 1));
        }
        j = j - 1;
    }
    proof {
        let sub = s@.subrange(i as int, j as int);
        if j == i {
            assert(sub.len() == 0);
        }
        assert(trim_end(sub) == sub);
    }
    copy_range(s, i, j)
}

/// `str::trim_end_matches(&['\r', '\n'])`: the length of `s` without its
/// trailing line breaks.
pub fn trimmed_line_len(s: &[char]) -> (j: usize)
    ensures
        j <= s@.len(),
        trim_line_breaks(s@) == s@.take(j as int),
{
    let mut j: usize = s.len();
    proof {
        assert(s@.take(j as int) =~= s@);
    }
    while j > 0 && (s[j - 1] == '\r' || s[j - 1] == '\n')
        invariant
            j <= s@.len(),
            trim_line_breaks(s@) == trim_line_breaks(s@.take(j as int)),
        decreases j,
    {
        proof {
            assert(s@.take(j as int).drop_last() =~= s@.take(j - 1));
        }
        j = j - 1;
    }
    j
}

/// Position of the first `c` in `s` (or `s.len()`).
pub fn find_char(s: &[char], c: char) -> (k: usize)
    ensures
        k == index_of_first(s@, c),
{
    let n = s.len();
    let mut i: usize = 0;
    assert(s@.skip(0) =~= s@);
    while i < n && s[i] != c
        invariant
            i <= n == s@.len(),
            index_of_first(s@, c) == i + index_of_first(s@.skip(i as int), c),
        decreases n - i,
    {
        proof {
            assert(s@.skip(i as int).drop_first() =~= s@.skip(i + 1));
        }
        i = i + 1;
    }
    i
}

/// Decode a byte slice as UTF-8 (`std::str::from_utf8`), yielding its characters.
///
/// The contract claims what the standard library documents: the bytes are
/// accepted exactly when they are valid UTF-8, and then the characters are
/// their decoding.
#[verifier::external_body]
pub fn utf8_chars(bytes: &[u8]) -> (r: Option<Vec<char>>)
    ensures
        r is Some <==> valid_utf8(bytes@),
        r matches Some(v) ==> v@ == decode_utf8(bytes@),
{
    match std::str::from_utf8(bytes) {
        Ok(s) => Some(s.chars().collect()),
        Err(_) => None,
    }
}

/// Collect characters into a `String` (`FromIterator<&char> for String`).
///
/// The contract claims what the standard library documents: the string holds
/// exactly those characters, in order.
#[verifier::external_body]
pub fn string_from_chars(chars: &[char]) -> (s: String)
    ensures
        s@ == chars@,
{
    chars.iter().collect()
}

} // verus!
