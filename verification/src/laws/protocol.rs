//! What is said to the monitor and to the device, and what they are understood to
//! say.

use vstd::prelude::*;

use crate::data::DataValue;
use crate::io;
use crate::monitor_client;
use crate::storage::disk_client;
use crate::text;

verus! {

/// Nothing but the bytes of decimal digits, of which there is at least one.
pub open spec fn digit_bytes(s: Seq<u8>) -> bool {
    s.len() > 0 && forall|i: int| 0 <= i < s.len() ==> 48 <= #[trigger] s[i] <= 57
}

/// Decimal digits read from left to right.
pub open spec fn read_digits(s: Seq<u8>) -> int
    decreases s.len(),
{
    if s.len() == 0 {
        0
    } else {
        read_digits(s.drop_last()) * 10 + (s.last() - 48)
    }
}

/// The bytes are decimal digits, with a minus sign before them where the number is
/// negative, which denote the number.
pub open spec fn denote(s: Seq<u8>, n: int) -> bool {
    if s.len() > 0 && s[0] == 45 {
        digit_bytes(s.skip(1)) && n == -read_digits(s.skip(1))
    } else {
        digit_bytes(s) && n == read_digits(s)
    }
}

/// The integer that a value is, whatever its width.
pub open spec fn integer_of(v: DataValue) -> Option<int> {
    match v {
        DataValue::Int32(x) => Some(x as int),
        DataValue::Int64(x) => Some(x as int),
        _ => None,
    }
}

proof fn lemma_decimal(n: nat)
    ensures
        digit_bytes(text::decimal(n)),
        read_digits(text::decimal(n)) == n,
        n > 0 ==> text::decimal(n)[0] != 48,
    decreases n,
{
    let s = text::decimal(n);
    if n < 10 {
        assert(s.drop_last() =~= Seq::<u8>::empty());
        assert(read_digits(s.drop_last()) == 0);
    } else {
        lemma_decimal(n / 10);
        assert(s.drop_last() =~= text::decimal(n / 10));
    }
}

/// A number is written so that it can be read back, without zeros that could be
/// left out, and a minus sign stands before the negative ones alone.
pub proof fn law_numbers_are_written(n: int)
    ensures
        denote(text::signed_decimal(n), n),
        n < 0 <==> text::signed_decimal(n)[0] == 45,
        n > 0 ==> text::signed_decimal(n)[0] != 48,
        n < 0 ==> text::signed_decimal(n)[1] != 48,
        n == 0 ==> text::signed_decimal(n) == seq![48u8],
        n >= 0 ==> text::signed_decimal(n) == text::decimal(n as nat),
{
    if n < 0 {
        lemma_decimal((-n) as nat);
        assert(text::signed_decimal(n).skip(1) =~= text::decimal((-n) as nat));
    } else {
        lemma_decimal(n as nat);
    }
}

/// Bytes denote one number at most.
pub proof fn law_one_number(s: Seq<u8>, n: int, m: int)
    requires
        denote(s, n),
        denote(s, m),
    ensures
        n == m,
{
}

/// A row is sent value by value, each with a bar behind it: an integer in decimal,
/// with its sign, a text in UTF-8, and a floating-point number as the next of the
/// texts that are given for them.
pub proof fn law_row_is_sent(row: Seq<DataValue>, v: DataValue, floats: Seq<Seq<char>>)
    ensures
        ({
            let before = monitor_client::formatted(row, floats);
            let line = monitor_client::formatted(row.push(v), floats);
            let sent = line.subrange(before.len() as int, line.len() - 1);
            &&& before.len() < line.len()
            &&& line.take(before.len() as int) == before
            &&& line.last() == 124
            &&& integer_of(v) matches Some(n) ==> denote(sent, n)
            &&& v matches DataValue::Text(s) ==> sent == vstd::utf8::encode_utf8(s)
            &&& v is Float32 || v is Float64 ==> sent == vstd::utf8::encode_utf8(
                floats[monitor_client::float_count(row) as int],
            )
            &&& monitor_client::float_count(row.push(v)) == monitor_client::float_count(row) + (
            if v is Float32 || v is Float64 {
                1nat
            } else {
                0
            })
        }),
        monitor_client::formatted(Seq::empty(), floats) == Seq::<u8>::empty(),
        monitor_client::float_count(Seq::empty()) == 0,
{
    let all = row.push(v);
    assert(all.drop_last() =~= row);
    let before = monitor_client::formatted(row, floats);
    let line = monitor_client::formatted(all, floats);
    let sent = line.subrange(before.len() as int, line.len() - 1);
    assert(line.take(before.len() as int) =~= before);
    match v {
        DataValue::Int32(x) => {
            law_numbers_are_written(x as int);
            assert(sent =~= text::signed_decimal(x as int));
        },
        DataValue::Int64(x) => {
            law_numbers_are_written(x as int);
            assert(sent =~= text::signed_decimal(x as int));
        },
        DataValue::Text(s) => {
            assert(sent =~= vstd::utf8::encode_utf8(s));
        },
        _ => {
            assert(sent =~= vstd::utf8::encode_utf8(
                floats[monitor_client::float_count(row) as int],
            ));
        },
    }
}

/// The bytes of a row's first values stand at the start of those of the row.
proof fn lemma_sent_start(row: Seq<DataValue>, floats: Seq<Seq<char>>, k: int)
    requires
        0 <= k <= row.len(),
    ensures
        ({
            let start = monitor_client::formatted(row.take(k), floats);
            let line = monitor_client::formatted(row, floats);
            &&& start.len() <= line.len()
            &&& line.take(start.len() as int) == start
        }),
    decreases row.len(),
{
    let line = monitor_client::formatted(row, floats);
    if k == row.len() {
        assert(row.take(k) =~= row);
        assert(line.take(line.len() as int) =~= line);
    } else {
        lemma_sent_start(row.drop_last(), floats, k);
        assert(row.drop_last().take(k) =~= row.take(k));
        law_row_is_sent(row.drop_last(), row.last(), floats);
        assert(row.drop_last().push(row.last()) =~= row);
        let less = monitor_client::formatted(row.drop_last(), floats);
        let start = monitor_client::formatted(row.take(k), floats);
        assert(line.take(start.len() as int) =~= less.take(start.len() as int)) by {
            assert(line.take(less.len() as int) =~= less);
        }
    }
}

/// Two rows that are alike up to a column, in which they hold different integers,
/// are sent as different lines.
pub proof fn law_different_rows_are_told_apart(
    a: Seq<DataValue>,
    b: Seq<DataValue>,
    floats: Seq<Seq<char>>,
    k: int,
    x: int,
    y: int,
)
    requires
        0 <= k < a.len(),
        k < b.len(),
        a.take(k) == b.take(k),
        integer_of(a[k]) == Some(x),
        integer_of(b[k]) == Some(y),
        x != y,
    ensures
        monitor_client::formatted(a, floats) != monitor_client::formatted(b, floats),
{
    let start = monitor_client::formatted(a.take(k), floats);
    let s = monitor_client::formatted(a.take(k + 1), floats);
    let t = monitor_client::formatted(b.take(k + 1), floats);
    assert(a.take(k + 1) =~= a.take(k).push(a[k]));
    assert(b.take(k + 1) =~= b.take(k).push(b[k]));
    law_row_is_sent(a.take(k), a[k], floats);
    law_row_is_sent(b.take(k), b[k], floats);
    lemma_sent_start(a, floats, k + 1);
    lemma_sent_start(b, floats, k + 1);
    let p = s.subrange(start.len() as int, s.len() - 1);
    let q = t.subrange(start.len() as int, t.len() - 1);
    let line = monitor_client::formatted(a, floats);
    if line == monitor_client::formatted(b, floats) {
        assert(line.take(s.len() as int) =~= s);
        assert(line.take(t.len() as int) =~= t);
        lemma_no_bar(p, x);
        lemma_no_bar(q, y);
        if s.len() < t.len() {
            assert(q[s.len() - 1 - start.len()] == t[s.len() - 1]);
            assert(t[s.len() - 1] == line[s.len() - 1]);
            assert(s[s.len() - 1] == line[s.len() - 1]);
        }
        if t.len() < s.len() {
            assert(p[t.len() - 1 - start.len()] == s[t.len() - 1]);
            assert(s[t.len() - 1] == line[t.len() - 1]);
            assert(t[t.len() - 1] == line[t.len() - 1]);
        }
        assert(s.len() == t.len());
        assert(s =~= t);
        law_one_number(p, x, y);
    }
}

proof fn lemma_no_bar(s: Seq<u8>, n: int)
    requires
        denote(s, n),
    ensures
        forall|i: int| 0 <= i < s.len() ==> #[trigger] s[i] != 124,
{
    if s[0] == 45 {
        assert forall|i: int| 0 <= i < s.len() implies #[trigger] s[i] != 124 by {
            if i > 0 {
                assert(s.skip(1)[i - 1] == s[i]);
            }
        }
    }
}

/// White space: the characters that Unicode lists as such.
pub open spec fn white(c: char) -> bool {
    ||| c == ' ' || c == '\t' || c == '\n' || c == '\r' || c as u32 == 0x0B || c as u32 == 0x0C
    ||| c as u32 == 0x85 || c as u32 == 0xA0 || c as u32 == 0x1680 || c as u32 == 0x2028
    ||| c as u32 == 0x2029 || c as u32 == 0x202F || c as u32 == 0x205F || c as u32 == 0x3000
    ||| 0x2000 <= c as u32 <= 0x200A
}

/// Nothing but white space.
pub open spec fn all_white(s: Seq<char>) -> bool {
    forall|i: int| 0 <= i < s.len() ==> white(#[trigger] s[i])
}

/// Nothing but decimal digits, of which there is at least one.
pub open spec fn digit_chars(s: Seq<char>) -> bool {
    s.len() > 0 && forall|i: int| 0 <= i < s.len() ==> '0' <= #[trigger] s[i] <= '9'
}

/// The line is a number in decimal, with white space round it that does not count
/// and a plus sign before it or none.
pub open spec fn says(
    line: Seq<char>,
    left: Seq<char>,
    plus: bool,
    digits: Seq<char>,
    right: Seq<char>,
    n: nat,
) -> bool {
    &&& line == left + (if plus {
        seq!['+']
    } else {
        Seq::empty()
    }) + digits + right
    &&& all_white(left)
    &&& all_white(right)
    &&& digit_chars(digits)
    &&& n == read_digits(Seq::new(digits.len(), |i: int| digits[i] as u8))
}

proof fn lemma_read_digits(s: Seq<char>)
    requires
        forall|i: int| 0 <= i < s.len() ==> '0' <= #[trigger] s[i] <= '9',
    ensures
        text::digits_value(s) == read_digits(Seq::new(s.len(), |i: int| s[i] as u8)),
    decreases s.len(),
{
    if s.len() > 0 {
        lemma_read_digits(s.drop_last());
        let bytes = Seq::new(s.len(), |i: int| s[i] as u8);
        assert(bytes.drop_last() =~= Seq::new(
            s.drop_last().len(),
            |i: int| s.drop_last()[i] as u8,
        ));
        assert('0' <= s[s.len() - 1] <= '9');
    }
}

proof fn lemma_digit(c: char)
    ensures
        text::is_digit(c) <==> '0' <= c <= '9',
{
}

proof fn lemma_white(c: char)
    ensures
        text::is_space(c) <==> white(c),
{
}

proof fn lemma_trim_start(s: Seq<char>) -> (left: Seq<char>)
    ensures
        all_white(left),
        s == left + text::trim_start(s),
        text::trim_start(s).len() > 0 ==> !white(text::trim_start(s)[0]),
    decreases s.len(),
{
    if s.len() > 0 && text::is_space(s[0]) {
        let rest = lemma_trim_start(s.skip(1));
        lemma_white(s[0]);
        let left = seq![s[0]] + rest;
        assert(s =~= seq![s[0]] + s.skip(1));
        assert(seq![s[0]] + (rest + text::trim_start(s)) =~= left + text::trim_start(s));
        assert forall|i: int| 0 <= i < left.len() implies white(#[trigger] left[i]) by {
            if i > 0 {
                assert(left[i] == rest[i - 1]);
            }
        }
        left
    } else {
        assert(s =~= Seq::<char>::empty() + s);
        if s.len() > 0 {
            lemma_white(s[0]);
        }
        Seq::empty()
    }
}

proof fn lemma_trim_end(s: Seq<char>) -> (right: Seq<char>)
    ensures
        all_white(right),
        s == text::trim_end(s) + right,
        text::trim_end(s).len() > 0 ==> !white(text::trim_end(s).last()),
    decreases s.len(),
{
    if s.len() > 0 && text::is_space(s.last()) {
        let rest = lemma_trim_end(s.drop_last());
        lemma_white(s.last());
        let right = rest.push(s.last());
        assert(s =~= s.drop_last().push(s.last()));
        assert((text::trim_end(s) + rest).push(s.last()) =~= text::trim_end(s) + right);
        right
    } else {
        assert(s =~= s + Seq::<char>::empty());
        if s.len() > 0 {
            lemma_white(s.last());
        }
        Seq::empty()
    }
}

proof fn lemma_trim_start_is(left: Seq<char>, s: Seq<char>)
    requires
        all_white(left),
        s.len() > 0,
        !white(s[0]),
    ensures
        text::trim_start(left + s) == s,
    decreases left.len(),
{
    if left.len() == 0 {
        assert(left + s =~= s);
        lemma_white(s[0]);
    } else {
        lemma_white(left[0]);
        assert((left + s).skip(1) =~= left.skip(1) + s);
        assert((left + s)[0] == left[0]);
        lemma_trim_start_is(left.skip(1), s);
    }
}

proof fn lemma_trim_end_is(s: Seq<char>, right: Seq<char>)
    requires
        all_white(right),
        s.len() > 0,
        !white(s.last()),
    ensures
        text::trim_end(s + right) == s,
    decreases right.len(),
{
    if right.len() == 0 {
        assert(s + right =~= s);
        lemma_white(s.last());
    } else {
        lemma_white(right.last());
        assert((s + right).drop_last() =~= s + right.drop_last());
        assert((s + right).last() == right.last());
        lemma_trim_end_is(s, right.drop_last());
    }
}

/// A reply is understood as the number that it says.
pub proof fn law_reply_is_understood(
    line: Seq<char>,
    left: Seq<char>,
    plus: bool,
    digits: Seq<char>,
    right: Seq<char>,
    n: nat,
)
    requires
        says(line, left, plus, digits, right, n),
    ensures
        text::reply_number(line) == Some(n),
{
    let sign: Seq<char> = if plus {
        seq!['+']
    } else {
        Seq::empty()
    };
    let middle = sign + digits;
    assert('0' <= digits[digits.len() - 1] <= '9');
    assert('0' <= digits[0] <= '9');
    assert(line =~= left + (middle + right));
    lemma_trim_start_is(left, middle + right);
    lemma_trim_end_is(middle, right);
    assert(text::unsigned_part(middle) =~= digits);
    lemma_read_digits(digits);
}

/// What is understood as a number says it.
pub proof fn law_only_numbers_are_understood(line: Seq<char>, n: nat)
    requires
        text::reply_number(line) == Some(n),
    ensures
        exists|left: Seq<char>, plus: bool, digits: Seq<char>, right: Seq<char>|
            says(line, left, plus, digits, right, n),
{
    let start = text::trim_start(line);
    let middle = text::trim_end(start);
    let left = lemma_trim_start(line);
    let right = lemma_trim_end(start);
    let digits = text::unsigned_part(middle);
    let plus = middle.len() > 0 && middle[0] == '+';
    let sign: Seq<char> = if plus {
        seq!['+']
    } else {
        Seq::empty()
    };
    assert(middle =~= sign + digits);
    assert(line =~= left + sign + digits + right);
    assert(text::all_digits(digits));
    assert forall|i: int| 0 <= i < digits.len() implies '0' <= #[trigger] digits[i] <= '9' by {
        lemma_digit(digits[i]);
    }
    lemma_read_digits(digits);
    assert(says(line, left, plus, digits, right, n));
}

/// A text is blank where it is nothing but white space.
pub proof fn law_blank_texts(s: Seq<char>)
    ensures
        text::blank(s) <==> all_white(s),
{
    assert forall|i: int| 0 <= i < s.len() implies (text::is_space(#[trigger] s[i]) <==> white(
        s[i],
    )) by {
        lemma_white(s[i]);
    }
}

/// A line goes on to the first line feed, which belongs to it, or to the end.
pub proof fn law_lines_end(line: Seq<u8>, rest: Seq<u8>)
    requires
        !line.contains(10u8),
    ensures
        io::first_line(line + seq![10u8] + rest) == line + seq![10u8],
        io::first_line(line) == line,
    decreases line.len(),
{
    let s = line + seq![10u8] + rest;
    if line.len() == 0 {
        assert(s[0] == 10);
        assert(s.take(1) =~= line + seq![10u8]);
    } else {
        assert(line.contains(line[0]));
        let next = line.skip(1);
        assert(!next.contains(10u8)) by {
            if next.contains(10u8) {
                let i = choose|i: int| 0 <= i < next.len() && next[i] == 10u8;
                assert(line[i + 1] == 10u8);
                assert(line.contains(10u8));
            }
        }
        law_lines_end(next, rest);
        assert(s.skip(1) =~= next + seq![10u8] + rest);
        assert(s[0] == line[0]);
        assert(seq![s[0]] + (next + seq![10u8]) =~= line + seq![10u8]);
        assert(seq![line[0]] + next =~= line);
    }
}

/// A command on blocks is its words, the first block in decimal, a space, the
/// number of blocks in decimal and a line feed.
pub proof fn law_block_commands(words: Seq<char>, start: u64, count: u64) -> (space: int)
    ensures
        ({
            let bytes = disk_client::block_command(words, start, count);
            let said = vstd::utf8::encode_utf8(words);
            &&& said.len() < space < bytes.len() - 1
            &&& bytes.take(said.len() as int) == said
            &&& denote(bytes.subrange(said.len() as int, space), start as int)
            &&& bytes[space] == 32
            &&& denote(bytes.subrange(space + 1, bytes.len() - 1), count as int)
            &&& bytes.last() == 10
        }),
{
    let bytes = disk_client::block_command(words, start, count);
    let said = vstd::utf8::encode_utf8(words);
    let first = text::decimal(start as nat);
    let second = text::decimal(count as nat);
    lemma_decimal(start as nat);
    lemma_decimal(count as nat);
    let space = (said.len() + first.len()) as int;
    assert(bytes.take(said.len() as int) =~= said);
    assert(bytes.subrange(said.len() as int, space) =~= first);
    assert(bytes.subrange(space + 1, bytes.len() - 1) =~= second);
    space
}

/// A command on a file is its words, the id of the file and a line feed.
pub proof fn law_file_commands(words: Seq<char>, file_id: Seq<char>)
    ensures
        disk_client::file_command(words, file_id) == vstd::utf8::encode_utf8(words)
            + vstd::utf8::encode_utf8(file_id) + seq![10u8],
{
    assert(disk_client::file_command(words, file_id) =~= vstd::utf8::encode_utf8(words)
        + vstd::utf8::encode_utf8(file_id) + seq![10u8]);
}

/// Blocks that come in one run stand one behind the other.
pub proof fn law_blocks_of_a_run(before: Seq<u8>, block: Seq<u8>, after: Seq<u8>, i: int)
    requires
        0 <= i,
        before.len() == i * block.len(),
    ensures
        disk_client::chunk(before + block + after, block.len() as int, i) == block,
{
    let size = block.len() as int;
    assert((i + 1) * size == i * size + size) by (nonlinear_arith);
    assert(disk_client::chunk(before + block + after, size, i) =~= block);
}

/// The texts that are given for floating-point values are taken in their order.
pub proof fn law_given_texts(texts: Seq<String>, i: int)
    ensures
        monitor_client::text_views(texts).len() == texts.len(),
        0 <= i < texts.len() ==> monitor_client::text_views(texts)[i] == texts[i]@,
{
}

} // verus!
