//! Character-level helpers: string equality, conversions between strings and
//! character vectors, Unicode white space, ASCII case, and decimal numbers.

use vstd::prelude::*;
use vstd::slice::slice_to_vec;
use vstd::utf8::{encode_utf8, decode_utf8};

verus! {

broadcast use {vstd::utf8::encode_utf8_decode_utf8, vstd::utf8::encode_utf8_valid_utf8};

/// `str::chars` collected: the characters of `s`.
#[verifier::external_body]
pub(crate) fn str_chars(s: &str) -> (res: Vec<char>)
    ensures
        res@ == s@,
{
    s.chars().collect()
}

/// `String::from_iter` over characters: the string made of `chars`.
#[verifier::external_body]
pub(crate) fn string_from_chars(chars: &[char]) -> (res: String)
    ensures
        res@ == chars@,
{
    chars.iter().collect()
}

/// Equality of two strings, decided on their UTF-8 bytes.
pub fn str_eq(a: &str, b: &str) -> (res: bool)
    ensures
        res == (a@ == b@),
{
    let x = a.as_bytes();
    let y = b.as_bytes();
    if x.len() != y.len() {
        proof {
            if a@ == b@ {
                assert(encode_utf8(a@) == encode_utf8(b@));
            }
        }
        return false;
    }
    let mut i: usize = 0;
    while i < x.len()
        invariant
            i <= x@.len(),
            x@.len() == y@.len(),
            x@ == encode_utf8(a@),
            y@ == encode_utf8(b@),
            forall|j: int| 0 <= j < i ==> x@[j] == y@[j],
        decreases x@.len() - i,
    {
        if x[i] != y[i] {
            proof {
                assert(a@ != b@) by {
                    if a@ == b@ {
                        assert(x@ == y@);
                        assert(x@[i as int] == y@[i as int]);
                    }
                }
            }
            return false;
        }
        i += 1;
    }
    proof {
        assert(x@ =~= y@);
        assert(decode_utf8(encode_utf8(a@)) == a@);
        assert(decode_utf8(encode_utf8(b@)) == b@);
    }
    true
}

/// Equality of two character slices.
pub fn chars_eq(a: &[char], b: &[char]) -> (res: bool)
    ensures
        res == (a@ == b@),
{
    if a.len() != b.len() {
        return false;
    }
    let mut i: usize = 0;
    while i < a.len()
        invariant
            i <= a@.len(),
            a@.len() == b@.len(),
            forall|j: int| 0 <= j < i ==> a@[j] == b@[j],
        decreases a@.len() - i,
    {
        if a[i] != b[i] {
            return false;
        }
        i += 1;
    }
    assert(a@ =~= b@);
    true
}

/// The Unicode `White_Space` property (the characters `char::is_whitespace`
/// accepts).
pub open spec fn white_space(c: char) -> bool {
    let u = c as u32;
    (0x09 <= u <= 0x0D) || u == 0x20 || u == 0x85 || u == 0xA0 || u == 0x1680 || (0x2000 <= u
        <= 0x200A) || u == 0x2028 || u == 0x2029 || u == 0x202F || u == 0x205F || u == 0x3000
}

/// Whether `c` has the Unicode `White_Space` property.
pub fn is_white_space(c: char) -> (res: bool)
    ensures
        res == white_space(c),
{
    let u = c as u32;
    (0x09 <= u && u <= 0x0D) || u == 0x20 || u == 0x85 || u == 0xA0 || u == 0x1680 || (0x2000 <= u
        && u <= 0x200A) || u == 0x2028 || u == 0x2029 || u == 0x202F || u == 0x205F || u == 0x3000
}

/// `c` with ASCII upper-case letters mapped to lower case.
pub open spec fn lower_char(c: char) -> char {
    if 'A' <= c <= 'Z' {
        ((c as u32) + 32) as char
    } else {
        c
    }
}

/// `c` with ASCII lower-case letters mapped to upper case.
pub open spec fn upper_char(c: char) -> char {
    if 'a' <= c <= 'z' {
        ((c as u32) - 32) as char
    } else {
        c
    }
}

/// Every character of `s` ASCII-lower-cased.
pub open spec fn lower_chars(s: Seq<char>) -> Seq<char> {
    Seq::new(s.len(), |i: int| lower_char(s[i]))
}

/// Every character of `s` ASCII-upper-cased.
pub open spec fn upper_chars(s: Seq<char>) -> Seq<char> {
    Seq::new(s.len(), |i: int| upper_char(s[i]))
}

/// ASCII lower case of one character.
pub fn to_lower_char(c: char) -> (res: char)
    ensures
        res == lower_char(c),
{
    if 'A' <= c && c <= 'Z' {
        let u = (c as u32) + 32;
        // The result is an ASCII letter.
        char_from_ascii(u)
    } else {
        c
    }
}

/// ASCII upper case of one character.
pub fn to_upper_char(c: char) -> (res: char)
    ensures
        res == upper_char(c),
{
    if 'a' <= c && c <= 'z' {
        let u = (c as u32) - 32;
        char_from_ascii(u)
    } else {
        c
    }
}

/// The character with ASCII code `u`.
fn char_from_ascii(u: u32) -> (res: char)
    requires
        u < 128,
    ensures
        res == u as char,
{
    let b = u as u8;
    b as char
}

/// The characters of `s`, ASCII-lower-cased.
pub fn lower_vec(s: &[char]) -> (res: Vec<char>)
    ensures
        res@ == lower_chars(s@),
{
    let mut out: Vec<char> = Vec::new();
    let mut i: usize = 0;
    while i < s.len()
        invariant
            i <= s@.len(),
            out@ == lower_chars(s@.subrange(0, i as int)),
        decreases s@.len() - i,
    {
        out.push(to_lower_char(s[i]));
        i += 1;
        assert(out@ =~= lower_chars(s@.subrange(0, i as int)));
    }
    assert(s@.subrange(0, s@.len() as int) =~= s@);
    out
}

/// The characters of `s`, ASCII-upper-cased.
pub fn upper_vec(s: &[char]) -> (res: Vec<char>)
    ensures
        res@ == upper_chars(s@),
{
    let mut out: Vec<char> = Vec::new();
    let mut i: usize = 0;
    while i < s.len()
        invariant
            i <= s@.len(),
            out@ == upper_chars(s@.subrange(0, i as int)),
        decreases s@.len() - i,
    {
        out.push(to_upper_char(s[i]));
        i += 1;
        assert(out@ =~= upper_chars(s@.subrange(0, i as int)));
    }
    assert(s@.subrange(0, s@.len() as int) =~= s@);
    out
}

/// Decimal digits of `n`, most significant first.
pub open spec fn decimal(n: nat) -> Seq<char>
    decreases n,
{
    if n < 10 {
        seq![(n + 48) as char]
    } else {
        decimal(n / 10).push(((n % 10) + 48) as char)
    }
}

/// The decimal representation of `n`.
pub fn decimal_chars(n: usize) -> (res: Vec<char>)
    ensures
        res@ == decimal(n as nat),
    decreases n,
{
    if n < 10 {
        let mut v: Vec<char> = Vec::new();
        v.push(char_from_ascii((n + 48) as u32));
        v
    } else {
        let mut v = decimal_chars(n / 10);
        v.push(char_from_ascii(((n % 10) + 48) as u32));
        v
    }
}

/// Whether `c` is an ASCII decimal digit.
pub open spec fn is_digit(c: char) -> bool {
    '0' <= c <= '9'
}

/// The value of a string of decimal digits.
pub open spec fn digits_value(s: Seq<char>) -> nat
    decreases s.len(),
{
    if s.len() == 0 {
        0
    } else {
        digits_value(s.drop_last()) * 10 + ((s.last() as u32) - 48) as nat
    }
}

/// What `str::parse::<usize>` yields: an optional `+` followed by one or more
/// decimal digits whose value fits in `usize`.
/// The part of `s` after an optional leading `+`.
pub open spec fn digit_part(s: Seq<char>) -> Seq<char> {
    if s.len() > 0 && s[0] == '+' {
        s.drop_first()
    } else {
        s
    }
}

pub open spec fn parsed_usize(s: Seq<char>) -> Option<usize> {
    let digits = digit_part(s);
    if digits.len() > 0 && (forall|i: int| 0 <= i < digits.len() ==> is_digit(#[trigger] digits[i]))
        && digits_value(digits) <= usize::MAX {
        Some(digits_value(digits) as usize)
    } else {
        None
    }
}

proof fn lemma_digits_value_mono(s: Seq<char>, k: int)
    requires
        0 <= k <= s.len(),
        forall|i: int| 0 <= i < s.len() ==> is_digit(#[trigger] s[i]),
    ensures
        digits_value(s.subrange(0, k)) <= digits_value(s),
    decreases s.len() - k,
{
    if k < s.len() {
        lemma_digits_value_mono(s, k + 1);
        assert(s.subrange(0, k + 1).drop_last() =~= s.subrange(0, k));
    } else {
        assert(s.subrange(0, k) =~= s);
    }
}

/// Parse a decimal `usize` the way `str::parse::<usize>` does.
pub fn parse_usize(s: &[char]) -> (res: Option<usize>)
    ensures
        res == parsed_usize(s@),
{
    let start: usize = if s.len() > 0 && s[0] == '+' { 1 } else { 0 };
    let ghost digits = digit_part(s@);
    assert(digits =~= s@.subrange(start as int, s@.len() as int));
    if start >= s.len() {
        return None;
    }
    let mut value: usize = 0;
    let mut i = start;
    while i < s.len()
        invariant
            start <= i <= s@.len(),
            digits == s@.subrange(start as int, s@.len() as int),
            digits == digit_part(s@),
            forall|j: int| 0 <= j < i - start ==> is_digit(#[trigger] digits[j]),
            value == digits_value(digits.subrange(0, i - start)),
        decreases s@.len() - i,
    {
        let c = s[i];
        if !('0' <= c && c <= '9') {
            assert(!is_digit(digits[i - start]));
            assert(parsed_usize(s@) is None);
            return None;
        }
        let d = (c as u32 - 48) as usize;
        proof {
            assert(digits.subrange(0, i + 1 - start).drop_last() =~= digits.subrange(0, i - start));
        }
        if value > (usize::MAX - d) / 10 {
            proof {
                // Overflow: the whole digit string is too large.
                assert(digits_value(digits.subrange(0, i + 1 - start)) > usize::MAX) by (nonlinear_arith)
                    requires
                        digits_value(digits.subrange(0, i + 1 - start)) == value * 10 + d,
                        value > (usize::MAX - d) / 10,
                        d <= 9,
                ;
                // Any extension only grows: either a non-digit follows (None) or
                // the value stays too large.
                if forall|j: int| 0 <= j < digits.len() ==> is_digit(#[trigger] digits[j]) {
                    lemma_digits_value_mono(digits, i + 1 - start);
                    assert(digits_value(digits) > usize::MAX);
                }
                assert(parsed_usize(s@) is None);
            }
            return None;
        }
        value = value * 10 + d;
        i += 1;
    }
    proof {
        assert(digits.subrange(0, digits.len() as int) =~= digits);
    }
    Some(value)
}

/// `s` without its leading white space.
pub open spec fn skip_white_space(s: Seq<char>, i: int) -> int
    decreases s.len() - i,
{
    if i >= s.len() {
        s.len() as int
    } else if white_space(s[i]) {
        skip_white_space(s, i + 1)
    } else {
        i
    }
}

/// Whether every character of `s` is white space.
pub open spec fn all_white_space(s: Seq<char>) -> bool {
    forall|i: int| 0 <= i < s.len() ==> white_space(#[trigger] s[i])
}

/// True when `s` holds only white space (so `str::trim` leaves it empty).
pub fn is_blank(s: &str) -> (res: bool)
    ensures
        res == all_white_space(s@),
{
    let chars = str_chars(s);
    let mut i: usize = 0;
    while i < chars.len()
        invariant
            i <= chars@.len(),
            chars@ == s@,
            forall|j: int| 0 <= j < i ==> white_space(#[trigger] chars@[j]),
        decreases chars@.len() - i,
    {
        if !is_white_space(chars[i]) {
            return false;
        }
        i += 1;
    }
    true
}

/// The end of `s[..j]` once trailing white space is dropped.
pub open spec fn trim_end_at(s: Seq<char>, j: int) -> int
    decreases j,
{
    if j <= 0 {
        0
    } else if white_space(s[j - 1]) {
        trim_end_at(s, j - 1)
    } else {
        j
    }
}

/// `s` without leading and trailing white space (what `str::trim` keeps).
pub open spec fn trimmed(s: Seq<char>) -> Seq<char> {
    let a = skip_white_space(s, 0);
    let b = trim_end_at(s, s.len() as int);
    if a < b {
        s.subrange(a, b)
    } else {
        seq![]
    }
}

/// The characters of `s` without leading and trailing white space.
pub fn trim_chars(s: &[char]) -> (res: Vec<char>)
    ensures
        res@ == trimmed(s@),
{
    let n = s.len();
    let mut a: usize = 0;
    while a < n && is_white_space(s[a])
        invariant
            a <= n,
            n == s@.len(),
            skip_white_space(s@, a as int) == skip_white_space(s@, 0),
        decreases n - a,
    {
        a += 1;
    }
    let mut b: usize = n;
    while b > 0 && is_white_space(s[b - 1])
        invariant
            b <= n,
            n == s@.len(),
            trim_end_at(s@, b as int) == trim_end_at(s@, n as int),
        decreases b,
    {
        b -= 1;
    }
    if a < b {
        slice_to_vec(&s[a..b])
    } else {
        Vec::new()
    }
}

} // verus!
