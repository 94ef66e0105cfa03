//! Characters, decimal numerals, and conversions between strings and
//! character sequences. Everything else in the crate reads and writes text
//! through the functions of this module.

use vstd::prelude::*;
use vstd::slice::slice_subrange;

verus! {

/// `String::push` of the standard library appends one character to the end of
/// the string and leaves the characters before it unchanged.
pub assume_specification[ String::push ](s: &mut String, c: char)
    ensures
        final(s)@ == old(s)@.push(c),
;

/// An ASCII decimal digit.
pub open spec fn digit(c: char) -> bool {
    '0' <= c && c <= '9'
}

/// An ASCII letter of either case.
pub open spec fn letter(c: char) -> bool {
    ('a' <= c && c <= 'z') || ('A' <= c && c <= 'Z')
}

/// A character that may follow the first letter of an identifier.
pub open spec fn identifier_char(c: char) -> bool {
    letter(c) || digit(c) || c == '_'
}

/// An identifier: a letter, then letters, digits and underscores.
pub open spec fn identifier(name: Seq<char>) -> bool {
    &&& name.len() > 0
    &&& letter(name[0])
    &&& forall|i: int| 0 <= i < name.len() ==> identifier_char(#[trigger] name[i])
}

/// A character with the Unicode property `White_Space`.
pub open spec fn whitespace(c: char) -> bool {
    ||| ('\u{9}' <= c && c <= '\u{d}')
    ||| c == ' '
    ||| c == '\u{85}'
    ||| c == '\u{a0}'
    ||| c == '\u{1680}'
    ||| ('\u{2000}' <= c && c <= '\u{200a}')
    ||| c == '\u{2028}'
    ||| c == '\u{2029}'
    ||| c == '\u{202f}'
    ||| c == '\u{205f}'
    ||| c == '\u{3000}'
}

/// Whether `c` is an ASCII decimal digit.
pub fn is_digit(c: char) -> (b: bool)
    ensures
        b == digit(c),
{
    '0' <= c && c <= '9'
}

/// Whether `c` is an ASCII letter.
pub fn is_letter(c: char) -> (b: bool)
    ensures
        b == letter(c),
{
    ('a' <= c && c <= 'z') || ('A' <= c && c <= 'Z')
}

/// Whether `c` may follow the first letter of an identifier.
pub fn is_identifier_char(c: char) -> (b: bool)
    ensures
        b == identifier_char(c),
{
    is_letter(c) || is_digit(c) || c == '_'
}

/// Whether `c` has the Unicode property `White_Space`.
pub fn is_whitespace(c: char) -> (b: bool)
    ensures
        b == whitespace(c),
{
    ('\u{9}' <= c && c <= '\u{d}') || c == ' ' || c == '\u{85}' || c == '\u{a0}' || c
        == '\u{1680}' || ('\u{2000}' <= c && c <= '\u{200a}') || c == '\u{2028}' || c
        == '\u{2029}' || c == '\u{202f}' || c == '\u{205f}' || c == '\u{3000}'
}

/// The digit character that stands for `d`, for `0 <= d < 10`.
pub open spec fn digit_char(d: int) -> char {
    ('0' as int + d) as char
}

/// The number that a digit character stands for.
pub open spec fn digit_value(c: char) -> int {
    c as int - '0' as int
}

/// The decimal numeral of a natural number, without leading zeros.
pub open spec fn decimal(n: nat) -> Seq<char>
    decreases n,
{
    if n < 10 {
        seq![digit_char(n as int)]
    } else {
        decimal(n / 10).push(digit_char((n % 10) as int))
    }
}

/// The decimal numeral of an integer, with a leading `-` when it is negative.
pub open spec fn signed_decimal(n: int) -> Seq<char> {
    if n < 0 {
        seq!['-'] + decimal((-n) as nat)
    } else {
        decimal(n as nat)
    }
}

/// Every character of `s` is a decimal digit.
pub open spec fn all_digits(s: Seq<char>) -> bool {
    forall|i: int| 0 <= i < s.len() ==> digit(#[trigger] s[i])
}

/// The number that a sequence of digits denotes; leading zeros are allowed
/// and the empty sequence denotes zero.
pub open spec fn numeral_value(s: Seq<char>) -> int
    decreases s.len(),
{
    if s.len() == 0 {
        0
    } else {
        numeral_value(s.drop_last()) * 10 + digit_value(s.last())
    }
}

/// The 32-bit integer that `s` spells: an optional sign, then at least one
/// digit and nothing else, with a value in the range of `i32`.
pub open spec fn integer_value(s: Seq<char>) -> Option<int> {
    let signed = s.len() > 0 && (s[0] == '-' || s[0] == '+');
    let digits = if signed {
        s.skip(1)
    } else {
        s
    };
    let magnitude = numeral_value(digits);
    let value = if s.len() > 0 && s[0] == '-' {
        -magnitude
    } else {
        magnitude
    };
    if digits.len() > 0 && all_digits(digits) && i32::MIN <= value <= i32::MAX {
        Some(value)
    } else {
        None
    }
}

/// Appending a digit multiplies the value of a numeral by ten and adds the
/// digit.
pub proof fn lemma_numeral_value_push(s: Seq<char>, c: char)
    ensures
        numeral_value(s.push(c)) == numeral_value(s) * 10 + digit_value(c),
{
    assert(s.push(c).drop_last() =~= s);
    assert(s.push(c).last() == c);
}

/// A run of digits denotes a number that is not negative.
pub proof fn lemma_numeral_value_nonnegative(s: Seq<char>)
    requires
        all_digits(s),
    ensures
        numeral_value(s) >= 0,
    decreases s.len(),
{
    if s.len() > 0 {
        lemma_numeral_value_nonnegative(s.drop_last());
    }
}

/// A decimal numeral is a non-empty run of digits that denotes its number.
pub proof fn lemma_decimal(n: nat)
    ensures
        decimal(n).len() > 0,
        all_digits(decimal(n)),
        numeral_value(decimal(n)) == n,
    decreases n,
{
    if n < 10 {
        let s = decimal(n);
        assert(s.drop_last() =~= Seq::<char>::empty());
        assert(numeral_value(s.drop_last()) == 0);
        assert(digit_value(s.last()) == n);
    } else {
        lemma_decimal(n / 10);
        lemma_numeral_value_push(decimal(n / 10), digit_char((n % 10) as int));
    }
}

/// Distinct numbers have distinct decimal numerals.
pub proof fn lemma_decimal_injective(a: nat, b: nat)
    requires
        decimal(a) == decimal(b),
    ensures
        a == b,
{
    lemma_decimal(a);
    lemma_decimal(b);
}

/// The characters of a string slice, in order.
pub fn to_chars(s: &str) -> (v: Vec<char>)
    ensures
        v@ == s@,
{
    let mut v: Vec<char> = Vec::new();
    for c in it: s.chars()
        invariant
            v@ == it.seq().take(it.index() as int),
            it.seq() == s@,
    {
        v.push(c);
    }
    v
}

/// Appends the characters of `chars` to `out`.
pub fn push_chars(out: &mut String, chars: &[char])
    ensures
        final(out)@ == old(out)@ + chars@,
{
    let mut i: usize = 0;
    while i < chars.len()
        invariant
            i <= chars.len(),
            out@ == old(out)@ + chars@.take(i as int),
        decreases chars.len() - i,
    {
        out.push(chars[i]);
        i += 1;
    }
}

/// A string made of the characters of `chars`.
pub fn from_chars(chars: &[char]) -> (s: String)
    ensures
        s@ == chars@,
{
    let mut s = String::new();
    push_chars(&mut s, chars);
    s
}

/// Whether `word` is exactly the text `text`.
pub fn spells(word: &[char], text: &str) -> (b: bool)
    ensures
        b == (word@ == text@),
{
    let n = text.unicode_len();
    if word.len() != n {
        return false;
    }
    let mut i: usize = 0;
    while i < n
        invariant
            i <= n,
            n == word@.len(),
            n == text@.len(),
            word@.take(i as int) == text@.take(i as int),
        decreases n - i,
    {
        if word[i] != text.get_char(i) {
            assert(word@[i as int] != text@[i as int]);
            return false;
        }
        assert(word@.take(i + 1) =~= word@.take(i as int).push(word@[i as int]));
        assert(text@.take(i + 1) =~= text@.take(i as int).push(text@[i as int]));
        i += 1;
    }
    assert(word@.take(n as int) =~= word@);
    assert(text@.take(n as int) =~= text@);
    true
}

/// Whether `line` begins with the text `prefix`.
pub fn starts_with(line: &[char], prefix: &str) -> (b: bool)
    ensures
        b == (prefix@.len() <= line@.len() && line@.take(prefix@.len() as int) == prefix@),
{
    let n = prefix.unicode_len();
    if line.len() < n {
        return false;
    }
    spells(slice_subrange(line, 0, n), prefix)
}

/// Appends the decimal numeral of `n` to `out`.
pub fn push_decimal(out: &mut String, n: u64)
    ensures
        final(out)@ == old(out)@ + decimal(n as nat),
    decreases n,
{
    if n >= 10 {
        push_decimal(out, n / 10);
    }
    let d: u8 = (n % 10) as u8;
    out.push((48u8 + d) as char);
}

/// Appends the decimal numeral of `n`, with its sign, to `out`.
pub fn push_signed_decimal(out: &mut String, n: i32)
    ensures
        final(out)@ == old(out)@ + signed_decimal(n as int),
{
    if n < 0 {
        out.push('-');
        push_decimal(out, (-(n as i64)) as u64);
    } else {
        push_decimal(out, n as u64);
    }
}

/// The decimal numeral of `n` as a string.
pub fn decimal_string(n: i32) -> (s: String)
    ensures
        s@ == signed_decimal(n as int),
{
    let mut s = String::new();
    push_signed_decimal(&mut s, n);
    s
}

/// Reads `word` as a 32-bit integer in decimal notation.
pub fn parse_integer(word: &[char]) -> (r: Option<i32>)
    ensures
        match integer_value(word@) {
            Some(v) => r == Some(v as i32),
            None => r is None,
        },
{
    let n = word.len();
    if n == 0 {
        return None;
    }
    let negative = word[0] == '-';
    let start: usize = if word[0] == '-' || word[0] == '+' {
        1
    } else {
        0
    };
    if start == n {
        return None;
    }
    let ghost digits = word@.skip(start as int);
    assert(word@.skip(0) =~= word@);
    let mut value: i64 = 0;
    let mut i: usize = start;
    while i < n
        invariant
            start <= i <= n,
            start < n,
            n == word@.len(),
            start == 1 <==> (word@[0] == '-' || word@[0] == '+'),
            start == 0 || start == 1,
            digits == word@.skip(start as int),
            start == 0 ==> digits == word@,
            all_digits(digits.take(i - start)),
            value == numeral_value(digits.take(i - start)),
            0 <= value <= 0x8000_0000,
        decreases n - i,
    {
        let c = word[i];
        proof {
            assert(digits.take(i - start + 1) =~= digits.take(i - start).push(c));
            lemma_numeral_value_push(digits.take(i - start), c);
        }
        if !is_digit(c) {
            assert(!digit(digits[i - start]));
            return None;
        }
        let d: i64 = (c as u32 - 48) as i64;
        value = value * 10 + d;
        if value > 0x8000_0000 {
            proof {
                if all_digits(digits) {
                    lemma_numeral_value_monotonic(digits, i - start + 1);
                }
            }
            return None;
        }
        i += 1;
    }
    assert(digits.take(n - start) =~= digits);
    assert(negative == (word@[0] == '-'));
    if negative {
        Some((-value) as i32)
    } else if value == 0x8000_0000 {
        None
    } else {
        Some(value as i32)
    }
}

/// A numeral denotes at least what any of its prefixes denotes.
pub proof fn lemma_numeral_value_monotonic(s: Seq<char>, k: int)
    requires
        0 <= k <= s.len(),
        all_digits(s),
    ensures
        numeral_value(s.take(k)) <= numeral_value(s),
    decreases s.len() - k,
{
    if k < s.len() {
        assert(s.take(k + 1) =~= s.take(k).push(s[k]));
        lemma_numeral_value_push(s.take(k), s[k]);
        lemma_numeral_value_nonnegative(s.take(k));
        lemma_numeral_value_monotonic(s, k + 1);
    } else {
        assert(s.take(k) =~= s);
    }
}

/// The number of leading characters of `s` that are not whitespace.
pub open spec fn symbol_run(s: Seq<char>) -> nat
    decreases s.len(),
{
    if s.len() > 0 && !whitespace(s[0]) {
        1 + symbol_run(s.skip(1))
    } else {
        0
    }
}

/// The number of leading characters of `s` that are not newlines.
pub open spec fn line_length(s: Seq<char>) -> nat
    decreases s.len(),
{
    if s.len() > 0 && s[0] != '\n' {
        1 + line_length(s.skip(1))
    } else {
        0
    }
}

/// A run is no longer than the text that it begins.
pub proof fn lemma_symbol_run_bound(s: Seq<char>)
    ensures
        symbol_run(s) <= s.len(),
    decreases s.len(),
{
    if s.len() > 0 && !whitespace(s[0]) {
        lemma_symbol_run_bound(s.skip(1));
    }
}

/// A line is no longer than the text that it begins.
pub proof fn lemma_line_length_bound(s: Seq<char>)
    ensures
        line_length(s) <= s.len(),
    decreases s.len(),
{
    if s.len() > 0 && s[0] != '\n' {
        lemma_line_length_bound(s.skip(1));
    }
}

/// A run of `k` characters that are not whitespace, followed by the end of
/// the text or by whitespace, is the whole run at the head of the text.
pub proof fn lemma_symbol_run_is(s: Seq<char>, k: int)
    requires
        0 <= k <= s.len(),
        forall|j: int| 0 <= j < k ==> !whitespace(#[trigger] s[j]),
        k == s.len() || whitespace(s[k]),
    ensures
        symbol_run(s) == k,
    decreases k,
{
    if k > 0 {
        let t = s.skip(1);
        assert forall|j: int| 0 <= j < k - 1 implies !whitespace(#[trigger] t[j]) by {
            assert(t[j] == s[j + 1]);
        }
        lemma_symbol_run_is(t, k - 1);
    }
}

/// A run of `k` characters that are not newlines, followed by the end of
/// the text or by a newline, is the whole first line of the text.
pub proof fn lemma_line_length_is(s: Seq<char>, k: int)
    requires
        0 <= k <= s.len(),
        forall|j: int| 0 <= j < k ==> #[trigger] s[j] != '\n',
        k == s.len() || s[k] == '\n',
    ensures
        line_length(s) == k,
    decreases k,
{
    if k > 0 {
        let t = s.skip(1);
        assert forall|j: int| 0 <= j < k - 1 implies #[trigger] t[j] != '\n' by {
            assert(t[j] == s[j + 1]);
        }
        lemma_line_length_is(t, k - 1);
    }
}

/// The text behind its first line and the newline that ends the line.
pub open spec fn behind_first_line(text: Seq<char>) -> Seq<char> {
    if line_length(text) < text.len() {
        text.skip(line_length(text) as int + 1)
    } else {
        text.skip(line_length(text) as int)
    }
}

} // verus!
