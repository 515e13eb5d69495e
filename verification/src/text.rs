//! Text: white space, decimal numbers, and strings as characters.

use vstd::prelude::*;
use vstd::string::*;

verus! {

/// The Unicode characters that count as white space.
pub open spec fn is_space(c: char) -> bool {
    let n = c as u32;
    ||| 9 <= n <= 13
    ||| n == 32 || n == 0x85 || n == 0xA0 || n == 0x1680
    ||| 0x2000 <= n <= 0x200A
    ||| n == 0x2028 || n == 0x2029 || n == 0x202F || n == 0x205F || n == 0x3000
}

/// Nothing but white space.
pub open spec fn blank(s: Seq<char>) -> bool {
    forall|i: int| 0 <= i < s.len() ==> is_space(#[trigger] s[i])
}

/// `s` without the white space at its start.
pub open spec fn trim_start(s: Seq<char>) -> Seq<char>
    decreases s.len(),
{
    if s.len() > 0 && is_space(s[0]) {
        trim_start(s.skip(1))
    } else {
        s
    }
}

/// `s` without the white space at its end.
pub open spec fn trim_end(s: Seq<char>) -> Seq<char>
    decreases s.len(),
{
    if s.len() > 0 && is_space(s.last()) {
        trim_end(s.drop_last())
    } else {
        s
    }
}

/// A decimal digit.
pub open spec fn is_digit(c: char) -> bool {
    48 <= c as u32 <= 57
}

/// The number that a run of decimal digits denotes.
pub open spec fn digits_value(s: Seq<char>) -> nat
    decreases s.len(),
{
    if s.len() == 0 {
        0
    } else {
        digits_value(s.drop_last()) * 10 + ((s.last() as u32) - 48) as nat
    }
}

/// `s` without a plus sign at its start.
pub open spec fn unsigned_part(s: Seq<char>) -> Seq<char> {
    if s.len() > 0 && s[0] == '+' {
        s.skip(1)
    } else {
        s
    }
}

/// Nothing but decimal digits.
pub open spec fn all_digits(s: Seq<char>) -> bool {
    forall|i: int| 0 <= i < s.len() ==> is_digit(#[trigger] s[i])
}

/// The unsigned number that `s` denotes: decimal digits, of which there is at
/// least one, behind an optional plus sign.
pub open spec fn number_in(s: Seq<char>) -> Option<nat> {
    let digits = unsigned_part(s);
    if digits.len() > 0 && all_digits(digits) {
        Some(digits_value(digits))
    } else {
        None
    }
}

/// The number that a reply line denotes, white space round it left out.
pub open spec fn reply_number(line: Seq<char>) -> Option<nat> {
    number_in(trim_end(trim_start(line)))
}

/// The decimal digits of `n`, as bytes.
pub open spec fn decimal(n: nat) -> Seq<u8>
    decreases n,
{
    if n < 10 {
        seq![(48 + n) as u8]
    } else {
        decimal(n / 10).push((48 + n % 10) as u8)
    }
}

/// The decimal digits of `n` as bytes, behind a minus sign where it is negative.
pub open spec fn signed_decimal(n: int) -> Seq<u8> {
    if n < 0 {
        seq![45u8] + decimal((-n) as nat)
    } else {
        decimal(n as nat)
    }
}

/// Whether `c` is white space.
pub fn is_space_char(c: char) -> (r: bool)
    ensures
        r == is_space(c),
{
    let n: u32 = c as u32;
    (9 <= n && n <= 13) || n == 32 || n == 0x85 || n == 0xA0 || n == 0x1680 || (0x2000 <= n && n
        <= 0x200A) || n == 0x2028 || n == 0x2029 || n == 0x202F || n == 0x205F || n == 0x3000
}

/// The characters of `s`.
pub fn characters(s: &str) -> (r: Vec<char>)
    ensures
        r@ == s@,
{
    let mut out: Vec<char> = Vec::new();
    for c in it: s.chars()
        invariant
            out@ == it.seq().take(it.index() as int),
            it.seq() == s@,
    {
        out.push(c);
    }
    assert(s@.take(s@.len() as int) == s@);
    out
}

/// Whether `s` holds nothing but white space.
pub fn is_blank(s: &str) -> (r: bool)
    ensures
        r == blank(s@),
{
    let chars = characters(s);
    let mut i: usize = 0;
    while i < chars.len()
        invariant
            i <= chars@.len(),
            chars@ == s@,
            forall|j: int| 0 <= j < i ==> is_space(#[trigger] chars@[j]),
        decreases chars@.len() - i,
    {
        if !is_space_char(chars[i]) {
            return false;
        }
        i = i + 1;
    }
    true
}

proof fn lemma_digits_value_step(s: Seq<char>, i: int)
    requires
        0 <= i < s.len(),
    ensures
        digits_value(s.take(i + 1)) == digits_value(s.take(i)) * 10 + ((s[i] as u32) - 48) as nat,
{
    assert(s.take(i + 1).drop_last() == s.take(i));
}

proof fn lemma_digits_value_grows(s: Seq<char>, i: int, j: int)
    requires
        0 <= i <= j <= s.len(),
    ensures
        digits_value(s.take(i)) <= digits_value(s.take(j)),
    decreases j - i,
{
    if i < j {
        lemma_digits_value_grows(s, i, j - 1);
        lemma_digits_value_step(s, j - 1);
    }
}

/// The number that a reply line denotes, if it denotes one that is at most
/// `limit`.
pub fn parse_number(line: &str, limit: u64) -> (r: Option<u64>)
    ensures
        r == match reply_number(line@) {
            Some(n) => if n <= limit {
                Some(n as u64)
            } else {
                None
            },
            None => None,
        },
{
    let chars = characters(line);
    let mut start: usize = 0;
    proof {
        assert(chars@.skip(0) == chars@);
    }
    while start < chars.len() && is_space_char(chars[start])
        invariant
            start <= chars@.len(),
            chars@ == line@,
            trim_start(line@) == trim_start(chars@.skip(start as int)),
        decreases chars@.len() - start,
    {
        assert(chars@.skip(start as int).skip(1) == chars@.skip(start + 1));
        start = start + 1;
    }
    let mut end: usize = chars.len();
    let ghost body = trim_start(line@);
    assert(body == chars@.subrange(start as int, end as int));
    while end > start && is_space_char(chars[end - 1])
        invariant
            start <= end <= chars@.len(),
            trim_end(body) == trim_end(chars@.subrange(start as int, end as int)),
        decreases end,
    {
        assert(chars@.subrange(start as int, end as int).drop_last() == chars@.subrange(
            start as int,
            end - 1,
        ));
        end = end - 1;
    }
    let ghost trimmed = chars@.subrange(start as int, end as int);
    assert(trim_end(body) == trimmed);
    let mut i: usize = start;
    if i < end && chars[i] == '+' {
        i = i + 1;
    }
    let first: usize = i;
    let ghost digits = chars@.subrange(first as int, end as int);
    assert(digits == unsigned_part(trimmed));
    if first == end {
        return None;
    }
    let mut value: u64 = 0;
    assert(digits.take(0) == Seq::<char>::empty());
    while i < end
        invariant
            first <= i <= end <= chars@.len(),
            digits == chars@.subrange(first as int, end as int),
            digits.len() > 0,
            reply_number(line@) == number_in(trimmed),
            digits == unsigned_part(trimmed),
            forall|j: int| 0 <= j < i - first ==> is_digit(#[trigger] digits[j]),
            value == digits_value(digits.take(i - first)),
            value <= limit,
        decreases end - i,
    {
        let n: u32 = chars[i] as u32;
        assert(digits[i - first] == chars@[i as int]);
        if n < 48 || n > 57 {
            assert(!is_digit(digits[i - first]));
            return None;
        }
        let d: u64 = (n - 48) as u64;
        proof {
            lemma_digits_value_step(digits, i - first);
            lemma_digits_value_grows(digits, i - first + 1, digits.len() as int);
            assert(digits.take(digits.len() as int) == digits);
        }
        if d > limit || value > (limit - d) / 10 {
            assert(digits_value(digits.take(i - first + 1)) > limit);
            return None;
        }
        value = value * 10 + d;
        i = i + 1;
    }
    assert(digits.take(digits.len() as int) == digits);
    Some(value)
}

/// Appends the decimal digits of `n`.
pub fn push_decimal(buf: &mut Vec<u8>, n: u64)
    ensures
        final(buf)@ == old(buf)@ + decimal(n as nat),
    decreases n,
{
    if n < 10 {
        buf.push((48 + n) as u8);
        assert(buf@ == old(buf)@ + decimal(n as nat));
    } else {
        push_decimal(buf, n / 10);
        buf.push((48 + n % 10) as u8);
        assert(buf@ == old(buf)@ + decimal(n as nat));
    }
}

/// Appends the decimal digits of `n`, behind a minus sign where it is negative.
pub fn push_signed_decimal(buf: &mut Vec<u8>, n: i64)
    ensures
        final(buf)@ == old(buf)@ + signed_decimal(n as int),
{
    if n >= 0 {
        push_decimal(buf, n as u64);
    } else {
        buf.push(45u8);
        let magnitude: u64 = ((-(n + 1)) as u64) + 1;
        push_decimal(buf, magnitude);
        assert(buf@ == old(buf)@ + signed_decimal(n as int));
    }
}

/// Appends the UTF-8 bytes of `s`.
pub fn push_text(buf: &mut Vec<u8>, s: &str)
    ensures
        final(buf)@ == old(buf)@ + vstd::utf8::encode_utf8(s@),
{
    let bytes = s.as_bytes();
    let mut i: usize = 0;
    while i < bytes.len()
        invariant
            i <= bytes@.len(),
            bytes@ == vstd::utf8::encode_utf8(s@),
            buf@ == old(buf)@ + bytes@.take(i as int),
        decreases bytes@.len() - i,
    {
        buf.push(bytes[i]);
        assert(bytes@.take(i + 1) == bytes@.take(i as int).push(bytes@[i as int]));
        i = i + 1;
    }
    assert(bytes@.take(i as int) == bytes@);
}

/// Whether two strings are the same text.
pub fn same_text(a: &str, b: &str) -> (r: bool)
    ensures
        r == (a@ == b@),
{
    let x = a.as_bytes();
    let y = b.as_bytes();
    proof {
        vstd::utf8::encode_utf8_decode_utf8(a@);
        vstd::utf8::encode_utf8_decode_utf8(b@);
    }
    if x.len() != y.len() {
        return false;
    }
    let mut i: usize = 0;
    while i < x.len()
        invariant
            i <= x@.len(),
            x@.len() == y@.len(),
            x@ == vstd::utf8::encode_utf8(a@),
            y@ == vstd::utf8::encode_utf8(b@),
            forall|j: int| 0 <= j < i ==> x@[j] == y@[j],
        decreases x@.len() - i,
    {
        if x[i] != y[i] {
            return false;
        }
        i = i + 1;
    }
    assert(x@ == y@);
    true
}

} // verus!
