//! Small operations on text: characters of a string, whitespace, case,
//! and decimal numbers.
use vstd::prelude::*;

verus! {

/// `String::push`: appends one character at the end.
pub assume_specification[ String::push ](string: &mut String, ch: char)
    ensures
        final(string)@ == old(string)@.push(ch),
;

/// The characters of a string, in order.
pub fn chars_of(s: &str) -> (r: Vec<char>)
    ensures
        r@ == s@,
{
    let mut r: Vec<char> = Vec::new();
    for c in it: s.chars()
        invariant
            r@ == it.seq().take(it.index() as int),
    {
        r.push(c);
    }
    r
}


/// A string holding the text `text`.
pub fn string_from_str(text: &str) -> (r: String)
    ensures
        r@ == text@,
{
    let mut r = String::new();
    push_str(&mut r, text);
    r
}

/// The characters of a string.
pub fn chars_of_string(s: &String) -> (r: Vec<char>)
    ensures
        r@ == s@,
{
    chars_of(s.as_str())
}

/// Whether the texts `a` and `b` are the same.
pub fn text_equals(a: &str, b: &str) -> (r: bool)
    ensures
        r == (a@ == b@),
{
    let x = chars_of(a);
    let y = chars_of(b);
    let r = range_equals(x.as_slice(), 0, x.len(), y.as_slice());
    assert(x@.subrange(0, x@.len() as int) =~= x@);
    r
}

/// A string holding `chars[lo..hi]`.
pub fn string_from_range(chars: &[char], lo: usize, hi: usize) -> (r: String)
    requires
        lo <= hi <= chars@.len(),
    ensures
        r@ == chars@.subrange(lo as int, hi as int),
{
    let mut r = String::new();
    let mut i = lo;
    while i < hi
        invariant
            lo <= i <= hi,
            hi <= chars@.len(),
            r@ == chars@.subrange(lo as int, i as int),
        decreases hi - i,
    {
        r.push(chars[i]);
        i = i + 1;
        assert(r@ =~= chars@.subrange(lo as int, i as int));
    }
    r
}

/// A string holding `s`.
pub fn string_from_seq(s: &Vec<char>) -> (r: String)
    ensures
        r@ == s@,
{
    let r = string_from_range(s.as_slice(), 0, s.len());
    assert(s@.subrange(0, s@.len() as int) =~= s@);
    r
}

/// Appends the characters of `chars` to `out`.
pub fn push_chars(out: &mut String, chars: &[char])
    ensures
        final(out)@ == old(out)@ + chars@,
{
    let ghost start = out@;
    let mut i: usize = 0;
    while i < chars.len()
        invariant
            i <= chars@.len(),
            out@ == start + chars@.subrange(0, i as int),
        decreases chars@.len() - i,
    {
        out.push(chars[i]);
        i = i + 1;
        assert(out@ =~= start + chars@.subrange(0, i as int));
    }
    assert(chars@.subrange(0, chars@.len() as int) =~= chars@);
}

/// Appends the text `s` to `out`.
pub fn push_str(out: &mut String, s: &str)
    ensures
        final(out)@ == old(out)@ + s@,
{
    let chars = chars_of(s);
    push_chars(out, chars.as_slice());
}

/// A character of Unicode's White_Space property, the whitespace of
/// `char::is_whitespace` and `str::trim`.
pub open spec fn is_white_space(c: char) -> bool {
    let v = c as u32;
    (0x9 <= v <= 0xD) || v == 0x20 || v == 0x85 || v == 0xA0 || v == 0x1680 || (0x2000 <= v <= 0x200A) || v
        == 0x2028 || v == 0x2029 || v == 0x202F || v == 0x205F || v == 0x3000
}

/// Whether `c` is whitespace in the sense of Unicode's White_Space.
pub fn is_whitespace_char(c: char) -> (r: bool)
    ensures
        r == is_white_space(c),
{
    let v = c as u32;
    (0x9 <= v && v <= 0xD) || v == 0x20 || v == 0x85 || v == 0xA0 || v == 0x1680 || (0x2000 <= v && v <= 0x200A)
        || v == 0x2028 || v == 0x2029 || v == 0x202F || v == 0x205F || v == 0x3000
}

/// ASCII whitespace: space, tab, line feed, form feed and carriage
/// return.
pub open spec fn is_ascii_white_space(c: char) -> bool {
    c == ' ' || c == '\t' || c == '\n' || c == '\x0C' || c == '\r'
}

/// Whether `c` is ASCII whitespace.
pub fn is_ascii_whitespace_char(c: char) -> (r: bool)
    ensures
        r == is_ascii_white_space(c),
{
    c == ' ' || c == '\t' || c == '\n' || c == '\x0C' || c == '\r'
}

/// An ASCII decimal digit.
pub open spec fn is_digit(c: char) -> bool {
    '0' <= c <= '9'
}

/// The value of an ASCII decimal digit.
pub open spec fn digit_value(c: char) -> nat {
    ((c as u32) - ('0' as u32)) as nat
}

/// The position of the first character of `s[lo..hi]` that is not
/// whitespace, or `hi`.
pub open spec fn trim_start_index(s: Seq<char>, lo: int, hi: int) -> int
    decreases hi - lo,
{
    if lo < hi && is_white_space(s[lo]) {
        trim_start_index(s, lo + 1, hi)
    } else {
        lo
    }
}

/// The position after the last character of `s[lo..hi]` that is not
/// whitespace, or `lo`.
pub open spec fn trim_end_index(s: Seq<char>, lo: int, hi: int) -> int
    decreases hi - lo,
{
    if lo < hi && is_white_space(s[hi - 1]) {
        trim_end_index(s, lo, hi - 1)
    } else {
        hi
    }
}

/// `s[lo..hi]` without its leading and trailing whitespace, as the
/// range of positions in `s`.
pub open spec fn trimmed(s: Seq<char>, lo: int, hi: int) -> (int, int) {
    let a = trim_start_index(s, lo, hi);
    (a, trim_end_index(s, a, hi))
}

proof fn lemma_trim_start(s: Seq<char>, lo: int, hi: int)
    requires
        lo <= hi,
    ensures
        lo <= trim_start_index(s, lo, hi) <= hi,
    decreases hi - lo,
{
    if lo < hi && is_white_space(s[lo]) {
        lemma_trim_start(s, lo + 1, hi);
    }
}

proof fn lemma_trim_end(s: Seq<char>, lo: int, hi: int)
    requires
        lo <= hi,
    ensures
        lo <= trim_end_index(s, lo, hi) <= hi,
    decreases hi - lo,
{
    if lo < hi && is_white_space(s[hi - 1]) {
        lemma_trim_end(s, lo, hi - 1);
    }
}

/// The range of `s[lo..hi]` without leading and trailing whitespace.
pub fn trim_range(s: &[char], lo: usize, hi: usize) -> (r: (usize, usize))
    requires
        lo <= hi <= s@.len(),
    ensures
        r.0 == trimmed(s@, lo as int, hi as int).0,
        r.1 == trimmed(s@, lo as int, hi as int).1,
        lo <= r.0 <= r.1 <= hi,
{
    let mut a = lo;
    while a < hi && is_whitespace_char(s[a])
        invariant
            lo <= a <= hi,
            hi <= s@.len(),
            trim_start_index(s@, a as int, hi as int) == trim_start_index(s@, lo as int, hi as int),
        decreases hi - a,
    {
        a = a + 1;
    }
    let mut b = hi;
    while b > a && is_whitespace_char(s[b - 1])
        invariant
            a <= b <= hi,
            hi <= s@.len(),
            trim_end_index(s@, a as int, b as int) == trim_end_index(s@, a as int, hi as int),
        decreases b - a,
    {
        b = b - 1;
    }
    (a, b)
}

/// `c` in lower case, for ASCII letters; other characters unchanged.
pub open spec fn ascii_lower(c: char) -> char {
    if 'A' <= c <= 'Z' {
        ((c as u32) + 32) as char
    } else {
        c
    }
}

/// `s` with its ASCII letters in lower case, as `to_ascii_lowercase`.
pub open spec fn ascii_lowercase(s: Seq<char>) -> Seq<char> {
    Seq::new(s.len(), |i: int| ascii_lower(s[i]))
}

/// `c` in lower case, for ASCII letters.
pub fn to_ascii_lower(c: char) -> (r: char)
    ensures
        r == ascii_lower(c),
{
    if 'A' <= c && c <= 'Z' {
        let v = (c as u32) + 32;
        let r = char_from_ascii(v);
        r
    } else {
        c
    }
}

/// The ASCII character with code `v`.
pub fn char_from_ascii(v: u32) -> (r: char)
    requires
        v < 128,
    ensures
        r == v as char,
{
    let b: u8 = v as u8;
    b as char
}

/// Whether `s[lo..hi]` with ASCII letters in lower case is `word`.
pub fn lower_range_equals(s: &[char], lo: usize, hi: usize, word: &[char]) -> (r: bool)
    requires
        lo <= hi <= s@.len(),
    ensures
        r == (ascii_lowercase(s@.subrange(lo as int, hi as int)) == word@),
{
    if hi - lo != word.len() {
        assert(ascii_lowercase(s@.subrange(lo as int, hi as int)).len() != word@.len());
        return false;
    }
    let mut i: usize = 0;
    while i < word.len()
        invariant
            i <= word@.len(),
            hi - lo == word@.len(),
            lo <= hi <= s@.len(),
            forall|k: int| 0 <= k < i ==> ascii_lower(s@.subrange(lo as int, hi as int)[k]) == #[trigger] word@[k],
        decreases word@.len() - i,
    {
        if to_ascii_lower(s[lo + i]) != word[i] {
            assert(ascii_lowercase(s@.subrange(lo as int, hi as int))[i as int] != word@[i as int]);
            return false;
        }
        i = i + 1;
    }
    assert(ascii_lowercase(s@.subrange(lo as int, hi as int)) =~= word@);
    true
}

/// Whether `s[lo..hi]` is `word`.
pub fn range_equals(s: &[char], lo: usize, hi: usize, word: &[char]) -> (r: bool)
    requires
        lo <= hi <= s@.len(),
    ensures
        r == (s@.subrange(lo as int, hi as int) == word@),
{
    if hi - lo != word.len() {
        assert(s@.subrange(lo as int, hi as int).len() != word@.len());
        return false;
    }
    let mut i: usize = 0;
    while i < word.len()
        invariant
            i <= word@.len(),
            hi - lo == word@.len(),
            lo <= hi <= s@.len(),
            forall|k: int| 0 <= k < i ==> s@.subrange(lo as int, hi as int)[k] == #[trigger] word@[k],
        decreases word@.len() - i,
    {
        if s[lo + i] != word[i] {
            assert(s@.subrange(lo as int, hi as int)[i as int] != word@[i as int]);
            return false;
        }
        i = i + 1;
    }
    assert(s@.subrange(lo as int, hi as int) =~= word@);
    true
}

/// The value of a sequence of decimal digits, most significant first.
pub open spec fn digits_value(s: Seq<char>) -> nat
    decreases s.len(),
{
    if s.len() == 0 {
        0
    } else {
        digits_value(s.drop_last()) * 10 + digit_value(s.last())
    }
}

/// All characters are decimal digits.
pub open spec fn all_digits(s: Seq<char>) -> bool {
    forall|i: int| 0 <= i < s.len() ==> is_digit(#[trigger] s[i])
}

/// Whether all characters of `s[lo..hi]` are decimal digits.
pub fn digits_only(s: &[char], lo: usize, hi: usize) -> (r: bool)
    requires
        lo <= hi <= s@.len(),
    ensures
        r == all_digits(s@.subrange(lo as int, hi as int)),
{
    let mut i = lo;
    while i < hi
        invariant
            lo <= i <= hi,
            hi <= s@.len(),
            forall|k: int| lo <= k < i ==> is_digit(#[trigger] s@[k]),
        decreases hi - i,
    {
        if !('0' <= s[i] && s[i] <= '9') {
            assert(!is_digit(s@.subrange(lo as int, hi as int)[i - lo]));
            return false;
        }
        i = i + 1;
    }
    assert forall|k: int| 0 <= k < hi - lo implies is_digit(#[trigger] s@.subrange(lo as int, hi as int)[k]) by {
        assert(s@.subrange(lo as int, hi as int)[k] == s@[lo + k]);
    }
    true
}

/// The magnitude and sign of a decimal number, as `str::parse` reads it
/// for an integer type: an optional sign (a minus only where `signed`),
/// then one or more decimal digits.
pub open spec fn spec_parse_integer(s: Seq<char>, signed: bool) -> Option<(bool, nat)> {
    if s.len() == 0 {
        None
    } else {
        let negative = signed && s[0] == '-';
        let digits = if s[0] == '+' || negative {
            s.drop_first()
        } else {
            s
        };
        if digits.len() == 0 || !all_digits(digits) {
            None
        } else {
            Some((negative, digits_value(digits)))
        }
    }
}

/// `s.parse::<usize>()`.
pub open spec fn spec_parse_usize(s: Seq<char>) -> Option<usize> {
    match spec_parse_integer(s, false) {
        Some((_, v)) => if v <= usize::MAX {
            Some(v as usize)
        } else {
            None
        },
        None => None,
    }
}

/// `s.parse::<isize>()`.
pub open spec fn spec_parse_isize(s: Seq<char>) -> Option<isize> {
    match spec_parse_integer(s, true) {
        Some((negative, v)) => {
            let value: int = if negative {
                -v
            } else {
                v as int
            };
            if isize::MIN <= value <= isize::MAX {
                Some(value as isize)
            } else {
                None
            }
        },
        None => None,
    }
}

/// Parses `s[lo..hi]` as a decimal magnitude with an optional sign, up to
/// a bound; `None` where it is not a number or its magnitude exceeds
/// `bound`.
#[verifier::rlimit(30)]
fn parse_magnitude(s: &[char], lo: usize, hi: usize, signed: bool, bound: u128) -> (r: Option<(bool, u128)>)
    requires
        lo <= hi <= s@.len(),
        bound >= 9,
    ensures
        match spec_parse_integer(s@.subrange(lo as int, hi as int), signed) {
            Some((negative, v)) => if v <= bound {
                r == Some((negative, v as u128))
            } else {
                r is None
            },
            None => r is None,
        },
{
    let ghost sub = s@.subrange(lo as int, hi as int);
    if lo == hi {
        return None;
    }
    assert(sub[0] == s@[lo as int]);
    let negative = signed && s[lo] == '-';
    let start = if s[lo] == '+' || negative {
        lo + 1
    } else {
        lo
    };
    let ghost digits = s@.subrange(start as int, hi as int);
    assert(digits =~= if sub[0] == '+' || negative {
        sub.drop_first()
    } else {
        sub
    });
    if start == hi {
        return None;
    }
    let mut value: u128 = 0;
    let mut i = start;
    while i < hi
        invariant
            start <= i <= hi,
            hi <= s@.len(),
            bound >= 9,
            digits == s@.subrange(start as int, hi as int),
            sub == s@.subrange(lo as int, hi as int),
            sub.len() > 0,
            negative == (signed && sub[0] == '-'),
            digits == (if sub[0] == '+' || negative {
                sub.drop_first()
            } else {
                sub
            }),
            digits.len() > 0,
            all_digits(s@.subrange(start as int, i as int)),
            value == digits_value(s@.subrange(start as int, i as int)),
            value <= bound,
        decreases hi - i,
    {
        let c = s[i];
        if !('0' <= c && c <= '9') {
            assert(!is_digit(digits[i - start]));
            return None;
        }
        let d = (c as u32 - '0' as u32) as u128;
        let ghost pre = s@.subrange(start as int, i as int);
        let ghost post = s@.subrange(start as int, i + 1);
        proof {
            assert(post.drop_last() =~= pre);
            assert(post.last() == c);
            assert(digits_value(post) == value * 10 + d);
            assert(all_digits(post));
        }
        if value > (bound - d) / 10 {
            proof {
                assert(value * 10 + d > bound) by (nonlinear_arith)
                    requires
                        value > (bound - d) / 10,
                        d <= 9,
                        bound >= 9,
                ;
                if all_digits(digits) {
                    assert(digits.subrange(0, (i + 1 - start) as int) =~= post);
                    lemma_digits_value_monotone(digits, (i + 1 - start) as nat);
                }
            }
            return None;
        }
        proof {
            assert(value * 10 + d <= bound) by (nonlinear_arith)
                requires
                    value <= (bound - d) / 10,
                    d <= 9,
                    bound >= 9,
            ;
        }
        value = value * 10 + d;
        i = i + 1;
    }
    Some((negative, value))
}

/// Longer prefixes of digits have values at least as large.
proof fn lemma_digits_value_monotone(s: Seq<char>, k: nat)
    requires
        k <= s.len(),
        all_digits(s),
    ensures
        digits_value(s.subrange(0, k as int)) <= digits_value(s),
    decreases s.len() - k,
{
    if k < s.len() {
        lemma_digits_value_monotone(s, k + 1);
        assert(s.subrange(0, (k + 1) as int).drop_last() =~= s.subrange(0, k as int));
        assert(digits_value(s.subrange(0, (k + 1) as int)) == digits_value(s.subrange(0, k as int)) * 10
            + digit_value(s[k as int]));
    } else {
        assert(s.subrange(0, s.len() as int) =~= s);
    }
}

/// `s[lo..hi].parse::<usize>()`.
pub fn parse_usize(s: &[char], lo: usize, hi: usize) -> (r: Option<usize>)
    requires
        lo <= hi <= s@.len(),
    ensures
        r == spec_parse_usize(s@.subrange(lo as int, hi as int)),
{
    match parse_magnitude(s, lo, hi, false, usize::MAX as u128) {
        Some((_, v)) => Some(v as usize),
        None => None,
    }
}

/// `s[lo..hi].parse::<isize>()`.
pub fn parse_isize(s: &[char], lo: usize, hi: usize) -> (r: Option<isize>)
    requires
        lo <= hi <= s@.len(),
    ensures
        r == spec_parse_isize(s@.subrange(lo as int, hi as int)),
{
    let bound: u128 = (isize::MAX as u128) + 1;
    match parse_magnitude(s, lo, hi, true, bound) {
        Some((negative, v)) => {
            if negative {
                let m = v as i128;
                Some((-m) as isize)
            } else if v <= isize::MAX as u128 {
                Some(v as isize)
            } else {
                None
            }
        },
        None => None,
    }
}

/// The character of decimal digit `d`.
pub open spec fn digit_char(d: nat) -> char {
    (('0' as u32) + d) as char
}

/// The decimal digits of `n`, most significant first, without leading
/// zeros.
pub open spec fn decimal(n: nat) -> Seq<char>
    decreases n,
{
    if n < 10 {
        seq![digit_char(n)]
    } else {
        decimal(n / 10).push(digit_char(n % 10))
    }
}

/// The decimal text of an integer, as `to_string` writes it.
pub open spec fn signed_decimal(v: int) -> Seq<char> {
    if v < 0 {
        seq!['-'] + decimal((-v) as nat)
    } else {
        decimal(v as nat)
    }
}

/// Appends the decimal digits of `n`.
pub fn push_decimal(out: &mut String, n: u128)
    ensures
        final(out)@ == old(out)@ + decimal(n as nat),
    decreases n,
{
    if n >= 10 {
        push_decimal(out, n / 10);
    }
    let d = (n % 10) as u32;
    let c = char_from_ascii(48 + d);
    out.push(c);
    assert(final(out)@ =~= old(out)@ + decimal(n as nat));
}

/// Appends the decimal text of `v`.
pub fn push_signed_decimal(out: &mut String, v: i128)
    requires
        v > i128::MIN,
    ensures
        final(out)@ == old(out)@ + signed_decimal(v as int),
{
    if v < 0 {
        out.push('-');
        push_decimal(out, (-v) as u128);
        assert(final(out)@ =~= old(out)@ + signed_decimal(v as int));
    } else {
        push_decimal(out, v as u128);
    }
}

} // verus!
