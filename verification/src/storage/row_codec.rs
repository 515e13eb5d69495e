//! Reading stored rows.
//!
//! A block holds rows one behind the other from its start, and in its last two
//! bytes their number.

use vstd::prelude::*;

use crate::bytes;
use crate::data;
use crate::data::{Data, DataType, DataValue};
use crate::error::DbError;
use crate::row;
use crate::row::{Row, Schema};

verus! {

/// The position of the first zero byte.
pub open spec fn first_zero(buf: Seq<u8>) -> Option<int>
    decreases buf.len(),
{
    if buf.len() == 0 {
        None
    } else if buf[0] == 0 {
        Some(0)
    } else {
        match first_zero(buf.skip(1)) {
            Some(i) => Some(i + 1),
            None => None,
        }
    }
}

/// The first zero byte is zero and none before it is.
pub proof fn lemma_first_zero(buf: Seq<u8>)
    ensures
        match first_zero(buf) {
            Some(i) => 0 <= i < buf.len() && buf[i] == 0 && forall|j: int|
                0 <= j < i ==> #[trigger] buf[j] != 0,
            None => forall|j: int| 0 <= j < buf.len() ==> #[trigger] buf[j] != 0,
        },
    decreases buf.len(),
{
    if buf.len() > 0 && buf[0] != 0 {
        lemma_first_zero(buf.skip(1));
        assert forall|j: int| 0 < j < buf.len() implies buf[j] == buf.skip(1)[j - 1] by {};
    }
}

/// What the bytes from the start of `buf` hold for a column of a type: the
/// value and the number of bytes that it takes.
pub open spec fn decoded(buf: Seq<u8>, t: DataType) -> Result<(DataValue, int), DbError> {
    match t {
        DataType::Int32 => if buf.len() < 4 {
            Err(DbError::ShortValue)
        } else {
            Ok((DataValue::Int32(bytes::signed_32(bytes::le_value(buf.take(4)))), 4))
        },
        DataType::Int64 => if buf.len() < 8 {
            Err(DbError::ShortValue)
        } else {
            Ok((DataValue::Int64(bytes::signed_64(bytes::le_value(buf.take(8)))), 8))
        },
        DataType::Float32 => if buf.len() < 4 {
            Err(DbError::ShortValue)
        } else {
            Ok((DataValue::Float32(bytes::le_value(buf.take(4)) as u32), 4))
        },
        DataType::Float64 => if buf.len() < 8 {
            Err(DbError::ShortValue)
        } else {
            Ok((DataValue::Float64(bytes::le_value(buf.take(8)) as u64), 8))
        },
        DataType::String => match first_zero(buf) {
            None => Err(DbError::MissingTerminator),
            Some(i) => if vstd::utf8::valid_utf8(buf.take(i)) {
                Ok((DataValue::Text(vstd::utf8::decode_utf8(buf.take(i))), i + 1))
            } else {
                Err(DbError::InvalidUtf8)
            },
        },
    }
}

/// The number of bytes of the value at the start of `buf`, for a column of a
/// type. Whether a text is UTF-8 is not looked at.
pub open spec fn skipped(buf: Seq<u8>, t: DataType) -> Result<int, DbError> {
    match t {
        DataType::Int32 | DataType::Float32 => if buf.len() < 4 {
            Err(DbError::ShortValue)
        } else {
            Ok(4)
        },
        DataType::Int64 | DataType::Float64 => if buf.len() < 8 {
            Err(DbError::ShortValue)
        } else {
            Ok(8)
        },
        DataType::String => match first_zero(buf) {
            None => Err(DbError::MissingTerminator),
            Some(i) => Ok(i + 1),
        },
    }
}

/// The values of the first `n` columns, from the start of `buf`, and the
/// number of bytes that they take.
pub open spec fn decoded_values(buf: Seq<u8>, types: Seq<DataType>, n: int) -> Result<
    (Seq<DataValue>, int),
    DbError,
>
    decreases n,
{
    if n <= 0 {
        Ok((Seq::empty(), 0))
    } else {
        match decoded_values(buf, types, n - 1) {
            Err(e) => Err(e),
            Ok((values, used)) => match decoded(buf.skip(used), types[n - 1]) {
                Err(e) => Err(e),
                Ok((v, c)) => Ok((values.push(v), used + c)),
            },
        }
    }
}

/// The row at the start of `buf`, and the number of bytes that it takes.
pub open spec fn decoded_row(buf: Seq<u8>, types: Seq<DataType>) -> Result<
    (Seq<DataValue>, int),
    DbError,
> {
    decoded_values(buf, types, types.len() as int)
}

/// The first `n` rows of `buf`, and the number of bytes that they take.
pub open spec fn decoded_rows(buf: Seq<u8>, types: Seq<DataType>, n: int) -> Result<
    (Seq<Seq<DataValue>>, int),
    DbError,
>
    decreases n,
{
    if n <= 0 {
        Ok((Seq::empty(), 0))
    } else {
        match decoded_rows(buf, types, n - 1) {
            Err(e) => Err(e),
            Ok((rows, used)) => match decoded_row(buf.skip(used), types) {
                Err(e) => Err(e),
                Ok((v, c)) => Ok((rows.push(v), used + c)),
            },
        }
    }
}

/// The part of a block that holds rows.
pub open spec fn payload(block: Seq<u8>) -> Seq<u8> {
    block.take(block.len() - 2)
}

/// The number of rows of a block.
pub open spec fn row_count(block: Seq<u8>) -> nat {
    bytes::le_value(block.skip(block.len() - 2))
}

/// The rows of a block.
pub open spec fn block_rows(block: Seq<u8>, types: Seq<DataType>) -> Result<
    Seq<Seq<DataValue>>,
    DbError,
> {
    if block.len() < 2 {
        Err(DbError::BlockTooShort)
    } else {
        match decoded_rows(payload(block), types, row_count(block) as int) {
            Err(e) => Err(e),
            Ok((rows, _)) => Ok(rows),
        }
    }
}

/// What std's `str::from_utf8` answers, as an owned text: the text whose UTF-8
/// bytes these are, if they are UTF-8.
#[verifier::external_body]
pub(crate) fn text_of(buf: &[u8]) -> (r: Option<String>)
    ensures
        match r {
            Some(s) => vstd::utf8::valid_utf8(buf@) && s@ == vstd::utf8::decode_utf8(buf@),
            None => !vstd::utf8::valid_utf8(buf@),
        },
{
    match std::str::from_utf8(buf) {
        Ok(s) => Some(s.to_owned()),
        Err(_) => None,
    }
}

/// The position of the first zero byte.
pub fn zero_position(buf: &[u8]) -> (r: Option<usize>)
    ensures
        match first_zero(buf@) {
            Some(i) => r == Some(i as usize) && 0 <= i < buf@.len() <= usize::MAX,
            None => r is None,
        },
{
    proof {
        lemma_first_zero(buf@);
    }
    let mut i: usize = 0;
    while i < buf.len()
        invariant
            i <= buf@.len(),
            forall|j: int| 0 <= j < i ==> #[trigger] buf@[j] != 0,
            match first_zero(buf@) {
                Some(i) => 0 <= i < buf@.len() && buf@[i] == 0 && forall|j: int|
                    0 <= j < i ==> #[trigger] buf@[j] != 0,
                None => forall|j: int| 0 <= j < buf@.len() ==> #[trigger] buf@[j] != 0,
            },
        decreases buf@.len() - i,
    {
        if buf[i] == 0 {
            return Some(i);
        }
        i = i + 1;
    }
    None
}

/// The bytes from position `from` up to position `to`.
pub fn part(buf: &[u8], from: usize, to: usize) -> (r: &[u8])
    requires
        from <= to <= buf@.len(),
    ensures
        r@ == buf@.subrange(from as int, to as int),
{
    vstd::slice::slice_subrange(buf, from, to)
}

/// The value at the start of `buf` for a column of type `dt`, and the number of
/// bytes that it takes.
pub fn decode_value_from_bytes(buf: &[u8], dt: DataType) -> (r: Result<(Data, usize), DbError>)
    ensures
        match decoded(buf@, dt) {
            Ok((v, used)) => r matches Ok((d, n)) && d@ == v && n == used && 0 < used
                <= buf@.len(),
            Err(e) => r matches Err(f) && f == e,
        },
{
    proof {
        bytes::lemma_le_bounds();
    }
    match dt {
        DataType::Int32 => {
            if buf.len() < 4 {
                return Err(DbError::ShortValue);
            }
            let n: u64 = bytes::get_le(buf, 4);
            Ok((Data::Int32(bytes::to_signed_32(n as u32)), 4))
        },
        DataType::Int64 => {
            if buf.len() < 8 {
                return Err(DbError::ShortValue);
            }
            let n: u64 = bytes::get_le(buf, 8);
            Ok((Data::Int64(bytes::to_signed_64(n)), 8))
        },
        DataType::Float32 => {
            if buf.len() < 4 {
                return Err(DbError::ShortValue);
            }
            let n: u64 = bytes::get_le(buf, 4);
            Ok((Data::Float32(n as u32), 4))
        },
        DataType::Float64 => {
            if buf.len() < 8 {
                return Err(DbError::ShortValue);
            }
            Ok((Data::Float64(bytes::get_le(buf, 8)), 8))
        },
        DataType::String => {
            match zero_position(buf) {
                None => Err(DbError::MissingTerminator),
                Some(zero) => {
                    assert(buf@.subrange(0, zero as int) == buf@.take(zero as int));
                    match text_of(part(buf, 0, zero)) {
                        Some(s) => Ok((Data::String(s), zero + 1)),
                        None => Err(DbError::InvalidUtf8),
                    }
                },
            }
        },
    }
}

/// The number of bytes of the value at the start of `buf` for a column of type
/// `dt`.
pub fn skip_value_from_bytes(buf: &[u8], dt: DataType) -> (r: Result<usize, DbError>)
    ensures
        match skipped(buf@, dt) {
            Ok(used) => r matches Ok(n) && n == used && 0 < used <= buf@.len(),
            Err(e) => r matches Err(f) && f == e,
        },
{
    match dt {
        DataType::Int32 | DataType::Float32 => {
            if buf.len() < 4 {
                return Err(DbError::ShortValue);
            }
            Ok(4)
        },
        DataType::Int64 | DataType::Float64 => {
            if buf.len() < 8 {
                return Err(DbError::ShortValue);
            }
            Ok(8)
        },
        DataType::String => match zero_position(buf) {
            None => Err(DbError::MissingTerminator),
            Some(zero) => Ok(zero + 1),
        },
    }
}

/// A value takes some of the bytes, and only its own.
pub proof fn lemma_decoded(buf: Seq<u8>, t: DataType)
    ensures
        decoded(buf, t) matches Ok((v, used)) ==> {
            &&& 0 < used <= buf.len()
            &&& v.data_type() == t
            &&& v.storable()
            &&& skipped(buf, t) == Ok::<int, DbError>(used)
        },
        decoded(buf, t) is Err ==> skipped(buf, t) is Err || decoded(buf, t) == Err::<
            (DataValue, int),
            DbError,
        >(DbError::InvalidUtf8),
        skipped(buf, t) is Err ==> decoded(buf, t) is Err,
{
    lemma_first_zero(buf);
    if t is String {
        match first_zero(buf) {
            Some(i) => {
                if vstd::utf8::valid_utf8(buf.take(i)) {
                    vstd::utf8::decode_utf8_encode_utf8(buf.take(i));
                    lemma_text_without_nul(vstd::utf8::decode_utf8(buf.take(i)));
                    assert forall|j: int| 0 <= j < i implies #[trigger] buf.take(i)[j] != 0 by {
                        assert(buf[j] != 0);
                    }
                }
            },
            None => {},
        }
    }
}

/// A text holds a NUL character only where its bytes hold a zero.
pub proof fn lemma_text_without_nul(s: Seq<char>)
    ensures
        s.contains('\0') <==> vstd::utf8::encode_utf8(s).contains(0u8),
    decreases s.len(),
{
    let e = vstd::utf8::encode_utf8(s);
    if s.len() == 0 {
        assert(!s.contains('\0'));
        assert(!e.contains(0u8));
    } else {
        let c = s[0] as u32;
        let head = vstd::utf8::encode_scalar(c);
        let rest = s.drop_first();
        let tail = vstd::utf8::encode_utf8(rest);
        lemma_text_without_nul(rest);
        vstd::utf8::char_is_scalar(s[0]);
        assert(c <= 0x7f ==> ((c & 0x7f) as u8) as u32 == c) by (bit_vector);
        let x2 = ((c >> 6) & 0x1F) as u8;
        let x3 = ((c >> 12) & 0x0F) as u8;
        let x4 = ((c >> 18) & 0x7) as u8;
        let y1 = (c & 0x3F) as u8;
        let y2 = ((c >> 6) & 0x3F) as u8;
        let y3 = ((c >> 12) & 0x3F) as u8;
        assert((0xC0u8 | x2) != 0 && (0xE0u8 | x3) != 0 && (0xF0u8 | x4) != 0 && (0x80u8 | y1) != 0
            && (0x80u8 | y2) != 0 && (0x80u8 | y3) != 0) by (bit_vector);
        assert(head.contains(0u8) <==> c == 0) by {
            if c == 0 {
                assert(head[0] == 0u8);
            }
        }
        assert(e == head + tail);
        assert(e.contains(0u8) <==> head.contains(0u8) || tail.contains(0u8)) by {
            if e.contains(0u8) {
                let i = choose|i: int| 0 <= i < e.len() && e[i] == 0u8;
                if i < head.len() {
                    assert(head[i] == 0u8);
                } else {
                    assert(tail[i - head.len()] == 0u8);
                }
            }
            if head.contains(0u8) {
                let i = choose|i: int| 0 <= i < head.len() && head[i] == 0u8;
                assert(e[i] == 0u8);
            }
            if tail.contains(0u8) {
                let i = choose|i: int| 0 <= i < tail.len() && tail[i] == 0u8;
                assert(e[i + head.len()] == 0u8);
            }
        }
        assert(s.contains('\0') <==> c == 0 || rest.contains('\0')) by {
            if s.contains('\0') {
                let i = choose|i: int| 0 <= i < s.len() && s[i] == '\0';
                if i > 0 {
                    assert(rest[i - 1] == '\0');
                }
            }
            if c == 0 {
                vstd::utf8::char_u32_cast(s[0], 0u32);
                vstd::utf8::char_u32_cast('\0', 0u32);
                assert(s[0] == '\0');
            }
            if rest.contains('\0') {
                let i = choose|i: int| 0 <= i < rest.len() && rest[i] == '\0';
                assert(s[i + 1] == '\0');
            }
        }
    }
}

/// A stored value is read back, whatever stands behind it.
pub proof fn lemma_value_round_trip(v: DataValue, rest: Seq<u8>)
    requires
        v.storable(),
    ensures
        decoded(row::encoded(v) + rest, v.data_type()) == Ok::<(DataValue, int), DbError>(
            (v, row::encoded(v).len() as int),
        ),
        row::encoded(v).len() > 0,
{
    let e = row::encoded(v);
    let buf = e + rest;
    bytes::lemma_le_bounds();
    match v {
        DataValue::Int32(x) => {
            bytes::lemma_le_round_trip(bytes::unsigned_32(x), 4);
            assert(buf.take(4) == e);
        },
        DataValue::Int64(x) => {
            bytes::lemma_le_round_trip(bytes::unsigned_64(x), 8);
            assert(buf.take(8) == e);
        },
        DataValue::Float32(x) => {
            bytes::lemma_le_round_trip(x as nat, 4);
            assert(buf.take(4) == e);
        },
        DataValue::Float64(x) => {
            bytes::lemma_le_round_trip(x as nat, 8);
            assert(buf.take(8) == e);
        },
        DataValue::Text(s) => {
            let text = vstd::utf8::encode_utf8(s);
            lemma_text_without_nul(s);
            lemma_first_zero(buf);
            assert(buf[text.len() as int] == 0u8);
            assert forall|j: int| 0 <= j < text.len() implies #[trigger] buf[j] != 0 by {
                assert(text[j] == buf[j]);
            }
            assert(first_zero(buf) == Some(text.len() as int));
            assert(buf.take(text.len() as int) == text);
            vstd::utf8::encode_utf8_valid_utf8(s);
            vstd::utf8::encode_utf8_decode_utf8(s);
        },
    }
}

/// Values that are read lie within the bytes, have the types of their columns,
/// and can be stored.
pub proof fn lemma_decoded_values(buf: Seq<u8>, types: Seq<DataType>, n: int)
    requires
        0 <= n <= types.len(),
    ensures
        decoded_values(buf, types, n) matches Ok((values, used)) ==> {
            &&& 0 <= used <= buf.len()
            &&& data::conforms(values, types.take(n))
        },
    decreases n,
{
    if n > 0 {
        lemma_decoded_values(buf, types, n - 1);
        match decoded_values(buf, types, n - 1) {
            Ok((values, used)) => {
                lemma_decoded(buf.skip(used), types[n - 1]);
                match decoded(buf.skip(used), types[n - 1]) {
                    Ok((v, c)) => {
                        let all = values.push(v);
                        assert forall|i: int| 0 <= i < all.len() implies (
                        #[trigger] all[i]).data_type() == types.take(n)[i] && all[i].storable() by {
                            if i < n - 1 {
                                assert(values[i].data_type() == types.take(n - 1)[i]);
                            }
                        }
                    },
                    Err(_) => {},
                }
            },
            Err(_) => {},
        }
    }
}

/// Every row that is read has the types of the columns and can be stored.
pub proof fn lemma_decoded_rows(buf: Seq<u8>, types: Seq<DataType>, n: int)
    ensures
        decoded_rows(buf, types, n) matches Ok((rows, used)) ==> {
            &&& 0 <= used <= buf.len()
            &&& rows.len() == if n > 0 {
                n
            } else {
                0
            }
            &&& forall|i: int| 0 <= i < rows.len() ==> data::conforms(#[trigger] rows[i], types)
        },
    decreases n,
{
    if n > 0 {
        lemma_decoded_rows(buf, types, n - 1);
        assert(types.take(types.len() as int) == types);
        match decoded_rows(buf, types, n - 1) {
            Ok((rows, used)) => {
                lemma_decoded_values(buf.skip(used), types, types.len() as int);
            },
            Err(_) => {},
        }
    }
}

/// Reading goes on as far as it is asked to only where all before it was read.
pub proof fn lemma_decoded_rows_prefix(buf: Seq<u8>, types: Seq<DataType>, i: int, n: int)
    requires
        0 <= i <= n,
    ensures
        decoded_rows(buf, types, n) is Ok ==> decoded_rows(buf, types, i) is Ok,
        decoded_rows(buf, types, i) matches Err(e) ==> decoded_rows(buf, types, n) == Err::<
            (Seq<Seq<DataValue>>, int),
            DbError,
        >(e),
        decoded_rows(buf, types, n) matches Ok((rows, used)) ==> decoded_rows(buf, types, i) == Ok::<
            (Seq<Seq<DataValue>>, int),
            DbError,
        >((rows.take(i), decoded_rows(buf, types, i)->Ok_0.1)),
    decreases n - i,
{
    lemma_decoded_rows(buf, types, n);
    lemma_decoded_rows(buf, types, i);
    if i < n {
        lemma_decoded_rows_prefix(buf, types, i, n - 1);
        lemma_decoded_rows(buf, types, n - 1);
        match decoded_rows(buf, types, n) {
            Ok((rows, used)) => {
                match decoded_rows(buf, types, n - 1) {
                    Ok((before, _)) => {
                        assert(rows.take(i) == before.take(i));
                    },
                    Err(_) => {},
                }
            },
            Err(_) => {},
        }
    } else {
        match decoded_rows(buf, types, n) {
            Ok((rows, used)) => {
                assert(rows.take(i) == rows);
            },
            Err(_) => {},
        }
    }
}

/// The same for the values of a row.
pub proof fn lemma_decoded_values_prefix(buf: Seq<u8>, types: Seq<DataType>, i: int, n: int)
    requires
        0 <= i <= n,
    ensures
        decoded_values(buf, types, i) matches Err(e) ==> decoded_values(buf, types, n) == Err::<
            (Seq<DataValue>, int),
            DbError,
        >(e),
    decreases n - i,
{
    if i < n {
        lemma_decoded_values_prefix(buf, types, i, n - 1);
    }
}

/// The first values of a stored row are read back, whatever stands behind.
proof fn lemma_values_round_trip(
    values: Seq<DataValue>,
    types: Seq<DataType>,
    n: int,
    rest: Seq<u8>,
)
    requires
        data::conforms(values, types),
        0 <= n <= values.len(),
    ensures
        decoded_values(row::encoded_row(values) + rest, types, n) == Ok::<
            (Seq<DataValue>, int),
            DbError,
        >((values.take(n), row::encoded_row(values.take(n)).len() as int)),
    decreases n,
{
    let e = row::encoded_row(values);
    let buf = e + rest;
    if n == 0 {
        assert(values.take(0) == Seq::<DataValue>::empty());
        assert(row::encoded_row(values.take(0)) == Seq::<u8>::empty());
    } else {
        lemma_values_round_trip(values, types, n - 1, rest);
        let v = values[n - 1];
        let done = row::encoded_row(values.take(n - 1));
        lemma_encoded_prefix(values, n - 1);
        lemma_encoded_prefix(values, n);
        row::lemma_encoded_row_grows(values, n - 1, n);
        let behind = e.skip(row::encoded_row(values.take(n)).len() as int) + rest;
        assert(row::encoded_row(values.take(n)) == done + row::encoded(v));
        assert(buf.skip(done.len() as int) == row::encoded(v) + behind) by {
            assert(e == row::encoded_row(values.take(n)) + e.skip(
                row::encoded_row(values.take(n)).len() as int,
            ));
        }
        lemma_value_round_trip(v, behind);
        assert(values.take(n) == values.take(n - 1).push(v));
    }
}

/// The stored form of a row starts with that of its first values.
proof fn lemma_encoded_prefix(values: Seq<DataValue>, n: int)
    requires
        0 <= n <= values.len(),
    ensures
        row::encoded_row(values.take(n)).len() <= row::encoded_row(values).len(),
        row::encoded_row(values).take(row::encoded_row(values.take(n)).len() as int)
            == row::encoded_row(values.take(n)),
    decreases values.len() - n,
{
    if n == values.len() {
        assert(values.take(n) == values);
    } else {
        lemma_encoded_prefix(values, n + 1);
        row::lemma_encoded_row_grows(values, n, n + 1);
        let a = row::encoded_row(values.take(n));
        let b = row::encoded_row(values.take(n + 1));
        assert(b.take(a.len() as int) == a);
        assert(row::encoded_row(values).take(b.len() as int).take(a.len() as int)
            == row::encoded_row(values).take(a.len() as int));
    }
}

/// A stored row is read back, whatever stands behind it.
pub proof fn lemma_row_round_trip(values: Seq<DataValue>, types: Seq<DataType>, rest: Seq<u8>)
    requires
        data::conforms(values, types),
    ensures
        decoded_row(row::encoded_row(values) + rest, types) == Ok::<(Seq<DataValue>, int), DbError>(
            (values, row::encoded_row(values).len() as int),
        ),
{
    lemma_values_round_trip(values, types, values.len() as int, rest);
    assert(values.take(values.len() as int) == values);
}

/// Rows one behind the other.
pub open spec fn encoded_rows(rows: Seq<Seq<DataValue>>) -> Seq<u8>
    decreases rows.len(),
{
    if rows.len() == 0 {
        Seq::empty()
    } else {
        encoded_rows(rows.drop_last()) + row::encoded_row(rows.last())
    }
}

/// Every row has the types.
pub open spec fn all_conform(rows: Seq<Seq<DataValue>>, types: Seq<DataType>) -> bool {
    forall|i: int| 0 <= i < rows.len() ==> data::conforms(#[trigger] rows[i], types)
}

/// Stored rows are read back, whatever stands behind them.
pub proof fn lemma_rows_round_trip(
    rows: Seq<Seq<DataValue>>,
    types: Seq<DataType>,
    rest: Seq<u8>,
)
    requires
        all_conform(rows, types),
    ensures
        decoded_rows(encoded_rows(rows) + rest, types, rows.len() as int) == Ok::<
            (Seq<Seq<DataValue>>, int),
            DbError,
        >((rows, encoded_rows(rows).len() as int)),
    decreases rows.len(),
{
    if rows.len() == 0 {
        assert(rows == Seq::<Seq<DataValue>>::empty());
    } else {
        let front = rows.drop_last();
        let last = rows.last();
        let tail = row::encoded_row(last) + rest;
        assert(all_conform(front, types)) by {
            assert forall|i: int| 0 <= i < front.len() implies data::conforms(
                #[trigger] front[i],
                types,
            ) by {
                assert(front[i] == rows[i]);
            }
        }
        lemma_rows_round_trip(front, types, tail);
        assert(encoded_rows(rows) + rest == encoded_rows(front) + tail);
        assert((encoded_rows(front) + tail).skip(encoded_rows(front).len() as int) == tail);
        assert(data::conforms(rows[rows.len() - 1], types));
        lemma_row_round_trip(last, types, rest);
        assert(front.push(last) == rows);
    }
}

/// What can be wrong with a block.
pub open spec fn is_format_error(e: DbError) -> bool {
    e == DbError::BlockTooShort || e == DbError::ShortValue || e == DbError::MissingTerminator || e
        == DbError::InvalidUtf8
}

proof fn lemma_decoded_values_error(buf: Seq<u8>, types: Seq<DataType>, n: int)
    ensures
        decoded_values(buf, types, n) matches Err(e) ==> is_format_error(e),
    decreases n,
{
    if n > 0 {
        lemma_decoded_values_error(buf, types, n - 1);
    }
}

proof fn lemma_decoded_rows_error(buf: Seq<u8>, types: Seq<DataType>, n: int)
    ensures
        decoded_rows(buf, types, n) matches Err(e) ==> is_format_error(e),
    decreases n,
{
    if n > 0 {
        lemma_decoded_rows_error(buf, types, n - 1);
        match decoded_rows(buf, types, n - 1) {
            Ok((rows, used)) => {
                lemma_decoded_values_error(buf.skip(used), types, types.len() as int);
            },
            Err(_) => {},
        }
    }
}

/// A block that cannot be read is one whose bytes are not those of rows.
pub proof fn lemma_block_rows_error(block: Seq<u8>, types: Seq<DataType>)
    ensures
        block_rows(block, types) matches Err(e) ==> is_format_error(e),
{
    lemma_decoded_rows_error(payload(block), types, row_count(block) as int);
}

/// The rows of a block.
pub fn decode_rows_from_block(block: &[u8], schema: &Schema) -> (r: Result<Vec<Row>, DbError>)
    ensures
        match block_rows(block@, schema.types()) {
            Ok(rows) => r matches Ok(v) && row::row_views(v@) == rows && all_conform(
                rows,
                schema.types(),
            ),
            Err(e) => r matches Err(f) && f == e,
        },
{
    if block.len() < 2 {
        return Err(DbError::BlockTooShort);
    }
    let data_limit: usize = block.len() - 2;
    let count: usize = stored_row_count(block);
    let ghost types = schema.types();
    let ghost data = payload(block@);
    let mut offset: usize = 0;
    let mut rows: Vec<Row> = Vec::with_capacity(count);
    let mut i: usize = 0;
    assert(row::row_views(rows@) == Seq::<Seq<DataValue>>::empty());
    while i < count
        invariant
            i <= count,
            count == row_count(block@),
            data_limit == block@.len() - 2,
            data == payload(block@),
            types == schema.types(),
            block@.len() >= 2,
            offset <= data_limit,
            rows@.len() == i,
            decoded_rows(data, types, i as int) == Ok::<(Seq<Seq<DataValue>>, int), DbError>(
                (row::row_views(rows@), offset as int),
            ),
        decreases count - i,
    {
        assert(block@.subrange(offset as int, data_limit as int) == data.skip(offset as int));
        proof {
            lemma_decoded_rows_prefix(data, types, i + 1, count as int);
        }
        match decode_row_at(part(block, offset, data_limit), schema) {
            Ok((row, used)) => {
                let ghost before = rows@;
                rows.push(row);
                assert(row::row_views(rows@) == row::row_views(before).push(row@));
                offset = offset + used;
            },
            Err(e) => {
                return Err(e);
            },
        }
        i = i + 1;
    }
    proof {
        lemma_decoded_rows(data, types, count as int);
    }
    Ok(rows)
}

/// The number of rows of a block.
pub fn stored_row_count(block: &[u8]) -> (r: usize)
    requires
        block@.len() >= 2,
    ensures
        r == row_count(block@),
        r < 0x1_0000,
{
    let at: usize = block.len() - 2;
    let tail = part(block, at, block.len());
    let n: u64 = bytes::get_le(tail, 2);
    proof {
        assert(tail@.take(2) == block@.skip(block@.len() - 2));
        bytes::lemma_le_bounds();
    }
    n as usize
}

/// The row at the start of `buf`, and the number of bytes that it takes.
pub fn decode_row_at(buf: &[u8], schema: &Schema) -> (r: Result<(Row, usize), DbError>)
    ensures
        match decoded_row(buf@, schema.types()) {
            Ok((values, used)) => r matches Ok((row, n)) && row@ == values && n == used && 0 <= used
                <= buf@.len() && data::conforms(values, schema.types()),
            Err(e) => r matches Err(f) && f == e,
        },
{
    let ghost types = schema.types();
    let mut offset: usize = 0;
    let mut values: Vec<Data> = Vec::with_capacity(schema.len());
    let mut i: usize = 0;
    let count: usize = schema.len();
    assert(data::views(values@) == Seq::<DataValue>::empty());
    while i < count
        invariant
            i <= count,
            count == schema@.len(),
            types == schema.types(),
            offset <= buf@.len(),
            decoded_values(buf@, types, i as int) == Ok::<(Seq<DataValue>, int), DbError>(
                (data::views(values@), offset as int),
            ),
        decreases count - i,
    {
        assert(buf@.subrange(offset as int, buf@.len() as int) == buf@.skip(offset as int));
        proof {
            lemma_decoded_values_prefix(buf@, types, i + 1, types.len() as int);
        }
        match decode_value_from_bytes(part(buf, offset, buf.len()), schema.type_at(i)) {
            Ok((value, used)) => {
                let ghost before = values@;
                values.push(value);
                assert(data::views(values@) == data::views(before).push(value@));
                offset = offset + used;
            },
            Err(e) => {
                return Err(e);
            },
        }
        i = i + 1;
    }
    proof {
        lemma_decoded_values(buf@, types, count as int);
        assert(types.take(types.len() as int) == types);
    }
    Ok((Row::new(values), offset))
}

/// The row at the start of `buf`.
pub fn decode_row_from_bytes(buf: &[u8], schema: &Schema) -> (r: Result<Row, DbError>)
    ensures
        match decoded_row(buf@, schema.types()) {
            Ok((values, _)) => r matches Ok(row) && row@ == values && data::conforms(
                values,
                schema.types(),
            ),
            Err(e) => r matches Err(f) && f == e,
        },
{
    match decode_row_at(buf, schema) {
        Ok((row, _)) => Ok(row),
        Err(e) => Err(e),
    }
}

/// Whether a column is among those that are picked.
pub open spec fn is_picked(indexes: Seq<int>, column: int) -> bool {
    exists|p: int| 0 <= p < indexes.len() && #[trigger] indexes[p] == column
}

/// The first `n` values of the row at the start of `buf`, only those of picked
/// columns read, and the number of bytes that they take.
pub open spec fn picked_values(
    buf: Seq<u8>,
    types: Seq<DataType>,
    indexes: Seq<int>,
    n: int,
) -> Result<(Seq<Option<DataValue>>, int), DbError>
    decreases n,
{
    if n <= 0 {
        Ok((Seq::empty(), 0))
    } else {
        match picked_values(buf, types, indexes, n - 1) {
            Err(e) => Err(e),
            Ok((values, used)) => if is_picked(indexes, n - 1) {
                match decoded(buf.skip(used), types[n - 1]) {
                    Err(e) => Err(e),
                    Ok((v, c)) => Ok((values.push(Some(v)), used + c)),
                }
            } else {
                match skipped(buf.skip(used), types[n - 1]) {
                    Err(e) => Err(e),
                    Ok(c) => Ok((values.push(None), used + c)),
                }
            },
        }
    }
}

/// The picked values in the order in which they are picked.
pub open spec fn in_picked_order(values: Seq<Option<DataValue>>, indexes: Seq<int>) -> Seq<DataValue> {
    Seq::new(indexes.len(), |p: int| values[indexes[p]]->0)
}

/// The picked columns of the first `n` rows of `buf`, and the number of bytes
/// that the rows take.
pub open spec fn picked_rows(buf: Seq<u8>, types: Seq<DataType>, indexes: Seq<int>, n: int) -> Result<
    (Seq<Seq<DataValue>>, int),
    DbError,
>
    decreases n,
{
    if n <= 0 {
        Ok((Seq::empty(), 0))
    } else {
        match picked_rows(buf, types, indexes, n - 1) {
            Err(e) => Err(e),
            Ok((rows, used)) => match picked_values(
                buf.skip(used),
                types,
                indexes,
                types.len() as int,
            ) {
                Err(e) => Err(e),
                Ok((v, c)) => Ok((rows.push(in_picked_order(v, indexes)), used + c)),
            },
        }
    }
}

/// The picked columns of the rows of a block. What stands in other columns is
/// not looked at, but for where it ends.
pub open spec fn picked_block_rows(
    block: Seq<u8>,
    types: Seq<DataType>,
    indexes: Seq<int>,
) -> Result<Seq<Seq<DataValue>>, DbError> {
    if block.len() < 2 {
        Err(DbError::BlockTooShort)
    } else if exists|p: int|
        0 <= p < indexes.len() && !(0 <= #[trigger] indexes[p] < types.len()) {
        Err(DbError::BadIndex)
    } else {
        match picked_rows(payload(block), types, indexes, row_count(block) as int) {
            Err(e) => Err(e),
            Ok((rows, _)) => Ok(rows),
        }
    }
}

/// Values that are picked while reading are those that are read.
proof fn lemma_picked_values(buf: Seq<u8>, types: Seq<DataType>, indexes: Seq<int>, n: int)
    requires
        0 <= n <= types.len(),
        decoded_values(buf, types, n) is Ok,
    ensures
        picked_values(buf, types, indexes, n) matches Ok((values, used)) && {
            &&& used == decoded_values(buf, types, n)->Ok_0.1
            &&& values.len() == n
            &&& decoded_values(buf, types, n)->Ok_0.0.len() == n
            &&& forall|c: int|
                0 <= c < n && is_picked(indexes, c) ==> #[trigger] values[c] == Some(
                    decoded_values(buf, types, n)->Ok_0.0[c],
                )
        },
    decreases n,
{
    if n > 0 {
        lemma_picked_values(buf, types, indexes, n - 1);
        let (_, used) = decoded_values(buf, types, n - 1)->Ok_0;
        lemma_decoded(buf.skip(used), types[n - 1]);
    }
}

/// Where a block can be read, picking columns of its rows while reading is
/// picking them of the rows that are read.
pub proof fn law_picked_block_rows(block: Seq<u8>, types: Seq<DataType>, indexes: Seq<int>)
    requires
        block_rows(block, types) is Ok,
        forall|p: int| 0 <= p < indexes.len() ==> 0 <= #[trigger] indexes[p] < types.len(),
    ensures
        picked_block_rows(block, types, indexes) matches Ok(rows) && {
            let all = block_rows(block, types)->Ok_0;
            &&& rows.len() == all.len()
            &&& forall|i: int|
                0 <= i < rows.len() ==> #[trigger] rows[i] == row::project_row(all[i], indexes)
        },
{
    lemma_picked_rows(payload(block), types, indexes, row_count(block) as int);
}

proof fn lemma_picked_rows(buf: Seq<u8>, types: Seq<DataType>, indexes: Seq<int>, n: int)
    requires
        n >= 0,
        decoded_rows(buf, types, n) is Ok,
        forall|p: int| 0 <= p < indexes.len() ==> 0 <= #[trigger] indexes[p] < types.len(),
    ensures
        picked_rows(buf, types, indexes, n) matches Ok((rows, used)) && {
            let all = decoded_rows(buf, types, n)->Ok_0;
            &&& used == all.1
            &&& rows.len() == n
            &&& all.0.len() == n
            &&& forall|i: int|
                0 <= i < rows.len() ==> #[trigger] rows[i] == row::project_row(all.0[i], indexes)
        },
    decreases n,
{
    if n > 0 {
        lemma_picked_rows(buf, types, indexes, n - 1);
        let (_, used) = decoded_rows(buf, types, n - 1)->Ok_0;
        let rest = buf.skip(used);
        lemma_picked_values(rest, types, indexes, types.len() as int);
        let full = decoded_row(rest, types)->Ok_0.0;
        let picked = picked_values(rest, types, indexes, types.len() as int)->Ok_0.0;
        assert forall|p: int| 0 <= p < indexes.len() implies picked[#[trigger] indexes[p]]
            == Some(full[indexes[p]]) by {
            assert(is_picked(indexes, indexes[p]));
        }
        assert(in_picked_order(picked, indexes) =~= row::project_row(full, indexes));
    }
}

/// For each column whether it is picked, or [`DbError::BadIndex`] where an index
/// is that of no column.
fn picked_columns(column_count: usize, indexes: &Vec<usize>) -> (r: Result<Vec<bool>, DbError>)
    ensures
        match r {
            Ok(flags) => {
                &&& flags@.len() == column_count
                &&& forall|p: int| 0 <= p < indexes@.len() ==> (#[trigger] indexes@[p])
                    < column_count
                &&& forall|c: int|
                    0 <= c < column_count ==> #[trigger] flags@[c] == is_picked(
                        row::as_ints(indexes@),
                        c,
                    )
            },
            Err(e) => e == DbError::BadIndex && exists|p: int|
                0 <= p < indexes@.len() && (#[trigger] indexes@[p]) >= column_count,
        },
{
    let ghost ints = row::as_ints(indexes@);
    let mut flags: Vec<bool> = Vec::with_capacity(column_count);
    let mut i: usize = 0;
    while i < column_count
        invariant
            i <= column_count,
            flags@.len() == i,
            forall|c: int| 0 <= c < i ==> !(#[trigger] flags@[c]),
        decreases column_count - i,
    {
        flags.push(false);
        i = i + 1;
    }
    let mut p: usize = 0;
    while p < indexes.len()
        invariant
            p <= indexes@.len(),
            ints == row::as_ints(indexes@),
            flags@.len() == column_count,
            forall|q: int| 0 <= q < p ==> (#[trigger] indexes@[q]) < column_count,
            forall|c: int|
                0 <= c < column_count ==> #[trigger] flags@[c] == is_picked(ints.take(p as int), c),
        decreases indexes@.len() - p,
    {
        let index: usize = indexes[p];
        if index >= column_count {
            assert(indexes@[p as int] >= column_count);
            return Err(DbError::BadIndex);
        }
        let ghost before = flags@;
        flags.set(index, true);
        proof {
            let (a, b) = (ints.take(p as int), ints.take(p + 1));
            assert forall|c: int| 0 <= c < column_count implies #[trigger] flags@[c] == is_picked(
                b,
                c,
            ) by {
                assert(before[c] == is_picked(a, c));
                if is_picked(a, c) {
                    let q = choose|q: int| 0 <= q < a.len() && #[trigger] a[q] == c;
                    assert(b[q] == c);
                }
                if c == index {
                    assert(b[p as int] == c);
                }
                if is_picked(b, c) && c != index {
                    let q = choose|q: int| 0 <= q < b.len() && #[trigger] b[q] == c;
                    assert(a[q] == c);
                }
            }
        }
        p = p + 1;
    }
    assert(ints.take(p as int) =~= ints);
    Ok(flags)
}

/// The picked columns of the row at the start of `buf`, and the number of bytes
/// that the row takes.
fn decode_picked_row(buf: &[u8], schema: &Schema, indexes: &Vec<usize>, flags: &Vec<bool>) -> (r:
    Result<(Row, usize), DbError>)
    requires
        flags@.len() == schema@.len(),
        forall|p: int| 0 <= p < indexes@.len() ==> (#[trigger] indexes@[p]) < schema@.len(),
        forall|c: int|
            0 <= c < flags@.len() ==> #[trigger] flags@[c] == is_picked(row::as_ints(indexes@), c),
    ensures
        match picked_values(
            buf@,
            schema.types(),
            row::as_ints(indexes@),
            schema.types().len() as int,
        ) {
            Ok((values, used)) => r matches Ok((row, n)) && n == used && 0 <= used <= buf@.len()
                && row@ == in_picked_order(values, row::as_ints(indexes@)),
            Err(e) => r matches Err(f) && f == e,
        },
{
    let ghost types = schema.types();
    let ghost ints = row::as_ints(indexes@);
    let mut offset: usize = 0;
    let mut values: Vec<Option<Data>> = Vec::with_capacity(schema.len());
    let ghost mut views: Seq<Option<DataValue>> = Seq::empty();
    let mut i: usize = 0;
    let count: usize = schema.len();
    while i < count
        invariant
            i <= count,
            count == schema@.len(),
            flags@.len() == count,
            types == schema.types(),
            ints == row::as_ints(indexes@),
            forall|c: int| 0 <= c < flags@.len() ==> #[trigger] flags@[c] == is_picked(ints, c),
            offset <= buf@.len(),
            values@.len() == i,
            views.len() == i,
            forall|c: int|
                0 <= c < i ==> match #[trigger] values@[c] {
                    Some(d) => views[c] == Some(d@),
                    None => views[c] is None,
                },
            forall|c: int| 0 <= c < i && is_picked(ints, c) ==> (#[trigger] views[c]) is Some,
            picked_values(buf@, types, ints, i as int) == Ok::<
                (Seq<Option<DataValue>>, int),
                DbError,
            >((views, offset as int)),
        decreases count - i,
    {
        assert(buf@.subrange(offset as int, buf@.len() as int) == buf@.skip(offset as int));
        assert(flags@[i as int] == is_picked(ints, i as int));
        let slice = part(buf, offset, buf.len());
        if flags[i] {
            match decode_value_from_bytes(slice, schema.type_at(i)) {
                Ok((value, used)) => {
                    proof {
                        views = views.push(Some(value@));
                    }
                    values.push(Some(value));
                    offset = offset + used;
                },
                Err(e) => {
                    proof {
                        lemma_picked_values_error(buf@, types, ints, i + 1, types.len() as int);
                    }
                    return Err(e);
                },
            }
        } else {
            match skip_value_from_bytes(slice, schema.type_at(i)) {
                Ok(used) => {
                    proof {
                        views = views.push(None);
                    }
                    values.push(None);
                    offset = offset + used;
                },
                Err(e) => {
                    proof {
                        lemma_picked_values_error(buf@, types, ints, i + 1, types.len() as int);
                    }
                    return Err(e);
                },
            }
        }
        i = i + 1;
    }
    let mut picked: Vec<Data> = Vec::with_capacity(indexes.len());
    let mut p: usize = 0;
    while p < indexes.len()
        invariant
            p <= indexes@.len(),
            ints == row::as_ints(indexes@),
            values@.len() == count,
            views.len() == count,
            forall|q: int| 0 <= q < indexes@.len() ==> (#[trigger] indexes@[q]) < count,
            forall|c: int|
                0 <= c < count ==> match #[trigger] values@[c] {
                    Some(d) => views[c] == Some(d@),
                    None => views[c] is None,
                },
            forall|c: int| 0 <= c < count && is_picked(ints, c) ==> (#[trigger] views[c]) is Some,
            picked@.len() == p,
            forall|q: int| 0 <= q < p ==> (#[trigger] picked@[q])@ == views[ints[q]]->0,
        decreases indexes@.len() - p,
    {
        let index: usize = indexes[p];
        proof {
            assert(ints[p as int] == index);
            assert(is_picked(ints, index as int));
            assert(views[index as int] is Some);
        }
        match &values[index] {
            Some(value) => {
                picked.push(value.clone());
            },
            None => {
                vstd::pervasive::unreached::<()>();
            },
        }
        p = p + 1;
    }
    assert(data::views(picked@) =~= in_picked_order(views, ints));
    Ok((Row::new(picked), offset))
}

/// An error in the first values is one of the row.
pub proof fn lemma_picked_values_error(
    buf: Seq<u8>,
    types: Seq<DataType>,
    indexes: Seq<int>,
    i: int,
    n: int,
)
    requires
        0 <= i <= n,
        picked_values(buf, types, indexes, i) is Err,
    ensures
        picked_values(buf, types, indexes, n) == picked_values(buf, types, indexes, i),
    decreases n - i,
{
    if i < n {
        lemma_picked_values_error(buf, types, indexes, i, n - 1);
    }
}

/// Values that are read are read where fewer are picked.
proof fn lemma_fewer_values(
    buf: Seq<u8>,
    types: Seq<DataType>,
    fewer: Seq<int>,
    indexes: Seq<int>,
    n: int,
)
    requires
        forall|c: int| is_picked(fewer, c) ==> #[trigger] is_picked(indexes, c),
        picked_values(buf, types, indexes, n) is Ok,
    ensures
        picked_values(buf, types, fewer, n) is Ok,
        picked_values(buf, types, fewer, n)->Ok_0.1 == picked_values(
            buf,
            types,
            indexes,
            n,
        )->Ok_0.1,
    decreases n,
{
    if n > 0 {
        lemma_fewer_values(buf, types, fewer, indexes, n - 1);
        let used = picked_values(buf, types, indexes, n - 1)->Ok_0.1;
        lemma_decoded(buf.skip(used), types[n - 1]);
    }
}

proof fn lemma_fewer_rows(
    buf: Seq<u8>,
    types: Seq<DataType>,
    fewer: Seq<int>,
    indexes: Seq<int>,
    n: int,
)
    requires
        forall|c: int| is_picked(fewer, c) ==> #[trigger] is_picked(indexes, c),
        picked_rows(buf, types, indexes, n) is Ok,
    ensures
        picked_rows(buf, types, fewer, n) is Ok,
        picked_rows(buf, types, fewer, n)->Ok_0.1 == picked_rows(buf, types, indexes, n)->Ok_0.1,
    decreases n,
{
    if n > 0 {
        lemma_fewer_rows(buf, types, fewer, indexes, n - 1);
        let used = picked_rows(buf, types, indexes, n - 1)->Ok_0.1;
        lemma_fewer_values(buf.skip(used), types, fewer, indexes, types.len() as int);
    }
}

/// A block that is read is read where fewer columns are picked.
pub proof fn lemma_fewer_picked(
    block: Seq<u8>,
    types: Seq<DataType>,
    fewer: Seq<int>,
    indexes: Seq<int>,
)
    requires
        forall|c: int| is_picked(fewer, c) ==> #[trigger] is_picked(indexes, c),
        picked_block_rows(block, types, indexes) is Ok,
    ensures
        picked_block_rows(block, types, fewer) is Ok,
{
    lemma_fewer_rows(payload(block), types, fewer, indexes, row_count(block) as int);
    assert forall|p: int| 0 <= p < fewer.len() implies 0 <= #[trigger] fewer[p] < types.len() by {
        assert(is_picked(fewer, fewer[p]));
        assert(is_picked(indexes, fewer[p]));
    }
}

/// An error in the first rows is one of all.
proof fn lemma_picked_rows_error(
    buf: Seq<u8>,
    types: Seq<DataType>,
    indexes: Seq<int>,
    i: int,
    n: int,
)
    requires
        0 <= i <= n,
        picked_rows(buf, types, indexes, i) is Err,
    ensures
        picked_rows(buf, types, indexes, n) == picked_rows(buf, types, indexes, i),
    decreases n - i,
{
    if i < n {
        lemma_picked_rows_error(buf, types, indexes, i, n - 1);
    }
}

/// The picked columns of the rows of a block.
pub fn decode_projected_rows_from_block(block: &[u8], schema: &Schema, indexes: &Vec<usize>) -> (r:
    Result<Vec<Row>, DbError>)
    ensures
        match picked_block_rows(block@, schema.types(), row::as_ints(indexes@)) {
            Ok(rows) => r matches Ok(v) && row::row_views(v@) == rows,
            Err(e) => r matches Err(f) && f == e,
        },
{
    if block.len() < 2 {
        return Err(DbError::BlockTooShort);
    }
    let ghost types = schema.types();
    let ghost ints = row::as_ints(indexes@);
    let flags = match picked_columns(schema.len(), indexes) {
        Ok(flags) => flags,
        Err(e) => {
            proof {
                let p = choose|p: int|
                    0 <= p < indexes@.len() && (#[trigger] indexes@[p]) >= schema@.len();
                assert(ints[p] == indexes@[p]);
            }
            return Err(e);
        },
    };
    let data_limit: usize = block.len() - 2;
    let count: usize = stored_row_count(block);
    let ghost data = payload(block@);
    let mut offset: usize = 0;
    let mut rows: Vec<Row> = Vec::with_capacity(count);
    let mut i: usize = 0;
    assert(row::row_views(rows@) == Seq::<Seq<DataValue>>::empty());
    assert forall|p: int| 0 <= p < ints.len() implies 0 <= #[trigger] ints[p] < types.len() by {
        assert(indexes@[p] < schema@.len());
    }
    while i < count
        invariant
            i <= count,
            count == row_count(block@),
            data_limit == block@.len() - 2,
            data == payload(block@),
            types == schema.types(),
            ints == row::as_ints(indexes@),
            block@.len() >= 2,
            offset <= data_limit,
            flags@.len() == schema@.len(),
            forall|p: int| 0 <= p < ints.len() ==> 0 <= #[trigger] ints[p] < types.len(),
            forall|p: int| 0 <= p < indexes@.len() ==> (#[trigger] indexes@[p]) < schema@.len(),
            forall|c: int| 0 <= c < flags@.len() ==> #[trigger] flags@[c] == is_picked(ints, c),
            picked_rows(data, types, ints, i as int) == Ok::<(Seq<Seq<DataValue>>, int), DbError>(
                (row::row_views(rows@), offset as int),
            ),
        decreases count - i,
    {
        assert(block@.subrange(offset as int, data_limit as int) == data.skip(offset as int));
        match decode_picked_row(part(block, offset, data_limit), schema, indexes, &flags) {
            Ok((row, used)) => {
                let ghost before = rows@;
                rows.push(row);
                assert(row::row_views(rows@) == row::row_views(before).push(row@));
                offset = offset + used;
            },
            Err(e) => {
                proof {
                    lemma_picked_rows_error(data, types, ints, i + 1, count as int);
                }
                return Err(e);
            },
        }
        i = i + 1;
    }
    Ok(rows)
}

} // verus!
