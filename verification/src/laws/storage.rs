//! What the bytes of blocks stand for.

use vstd::arithmetic::div_mod::*;
use vstd::arithmetic::power::*;
use vstd::prelude::*;

use crate::bytes;
use crate::data;
use crate::data::{DataType, DataValue};
use crate::error::DbError;
use crate::row;
use crate::semantics;
use crate::storage::disk_client::DiskLayout;
use crate::storage::row_codec;

verus! {

/// Two bytes of a number, the lower one first.
pub open spec fn two(n: int) -> Seq<u8> {
    seq![(n % 0x100) as u8, (n / 0x100 % 0x100) as u8]
}

/// Four bytes of a number, the lower ones first.
pub open spec fn four(n: int) -> Seq<u8> {
    seq![
        (n % 0x100) as u8,
        (n / 0x100 % 0x100) as u8,
        (n / 0x1_0000 % 0x100) as u8,
        (n / 0x100_0000 % 0x100) as u8,
    ]
}

/// Eight bytes of a number, the lower ones first.
pub open spec fn eight(n: int) -> Seq<u8> {
    seq![
        (n % 0x100) as u8,
        (n / 0x100 % 0x100) as u8,
        (n / 0x1_0000 % 0x100) as u8,
        (n / 0x100_0000 % 0x100) as u8,
        (n / 0x1_0000_0000 % 0x100) as u8,
        (n / 0x100_0000_0000 % 0x100) as u8,
        (n / 0x1_0000_0000_0000 % 0x100) as u8,
        (n / 0x100_0000_0000_0000 % 0x100) as u8,
    ]
}

/// The bytes of a value: integers modulo 2^32 or 2^64 and the bits of floats, the
/// lower bytes first, and texts in UTF-8 with a zero byte behind them.
pub open spec fn stored(v: DataValue) -> Seq<u8> {
    match v {
        DataValue::Int32(x) => four(x as int % 0x1_0000_0000),
        DataValue::Int64(x) => eight(x as int % 0x1_0000_0000_0000_0000),
        DataValue::Float32(bits) => four(bits as int),
        DataValue::Float64(bits) => eight(bits as int),
        DataValue::Text(s) => vstd::utf8::encode_utf8(s) + seq![0u8],
    }
}

/// The value is one for a column of the type, and its text, if it is one, has no
/// zero character.
pub open spec fn belongs(v: DataValue, t: DataType) -> bool {
    match v {
        DataValue::Int32(_) => t is Int32,
        DataValue::Int64(_) => t is Int64,
        DataValue::Float32(_) => t is Float32,
        DataValue::Float64(_) => t is Float64,
        DataValue::Text(s) => t is String && forall|i: int|
            0 <= i < s.len() ==> #[trigger] s[i] != '\0',
    }
}

/// The values are ones for columns of the types.
pub open spec fn row_belongs(values: Seq<DataValue>, types: Seq<DataType>) -> bool {
    &&& values.len() == types.len()
    &&& forall|i: int| 0 <= i < values.len() ==> belongs(#[trigger] values[i], types[i])
}

/// The bytes of a row: those of its first value, and behind them the others.
pub open spec fn stored_row(values: Seq<DataValue>) -> Seq<u8>
    decreases values.len(),
{
    if values.len() == 0 {
        Seq::empty()
    } else {
        stored(values[0]) + stored_row(values.skip(1))
    }
}

/// The bytes of rows: those of the first row, and behind them the others.
pub open spec fn stored_rows(rows: Seq<Seq<DataValue>>) -> Seq<u8>
    decreases rows.len(),
{
    if rows.len() == 0 {
        Seq::empty()
    } else {
        stored_row(rows[0]) + stored_rows(rows.skip(1))
    }
}

proof fn lemma_two(n: nat)
    requires
        n < 0x1_0000,
    ensures
        bytes::le_bytes(n, 2) == two(n as int),
{
    reveal_with_fuel(bytes::le_bytes, 3);
    assert(bytes::le_bytes(n, 2) =~= two(n as int));
}

proof fn lemma_four(n: nat)
    requires
        n < 0x1_0000_0000,
    ensures
        bytes::le_bytes(n, 4) == four(n as int),
{
    reveal_with_fuel(bytes::le_bytes, 5);
    assert(n / 0x100 / 0x100 == n / 0x1_0000);
    assert(n / 0x1_0000 / 0x100 == n / 0x100_0000);
    assert(bytes::le_bytes(n, 4) =~= four(n as int));
}

proof fn lemma_eight(n: nat)
    requires
        n < 0x1_0000_0000_0000_0000,
    ensures
        bytes::le_bytes(n, 8) == eight(n as int),
{
    reveal_with_fuel(bytes::le_bytes, 9);
    assert(n / 0x100 / 0x100 == n / 0x1_0000);
    assert(n / 0x1_0000 / 0x100 == n / 0x100_0000);
    assert(n / 0x100_0000 / 0x100 == n / 0x1_0000_0000);
    assert(n / 0x1_0000_0000 / 0x100 == n / 0x100_0000_0000);
    assert(n / 0x100_0000_0000 / 0x100 == n / 0x1_0000_0000_0000);
    assert(n / 0x1_0000_0000_0000 / 0x100 == n / 0x100_0000_0000_0000);
    assert(bytes::le_bytes(n, 8) =~= eight(n as int));
}

/// Byte `i` of a number is what is left of it by 256, once that many lower bytes
/// are gone, and a byte more at the end adds itself as often as its place says.
pub proof fn law_bytes_of_numbers(n: nat, len: nat, i: int, s: Seq<u8>, b: u8)
    ensures
        bytes::le_bytes(n, len).len() == len,
        0 <= i < len ==> bytes::le_bytes(n, len)[i] == (n as int / pow(256, i as nat)) % 256,
        bytes::le_value(Seq::empty()) == 0,
        bytes::le_value(s.push(b)) == bytes::le_value(s) + b * pow(256, s.len()),
{
    lemma_byte_at(n, len, i);
    lemma_value_push(s, b);
}

proof fn lemma_byte_at(n: nat, len: nat, i: int)
    ensures
        bytes::le_bytes(n, len).len() == len,
        0 <= i < len ==> bytes::le_bytes(n, len)[i] == (n as int / pow(256, i as nat)) % 256,
    decreases len,
{
    if len > 0 {
        lemma_byte_at(n / 256, (len - 1) as nat, i - 1);
        lemma_pow0(256);
        if 0 < i < len {
            let k = (i - 1) as nat;
            lemma_pow_adds(256, 1, k);
            lemma_pow1(256);
            lemma_pow_positive(256, k);
            lemma_div_denominator(n as int, 256, pow(256, k));
        }
    }
}

proof fn lemma_value_push(s: Seq<u8>, b: u8)
    ensures
        bytes::le_value(s.push(b)) == bytes::le_value(s) + b * pow(256, s.len()),
    decreases s.len(),
{
    lemma_pow0(256);
    if s.len() == 0 {
        assert(s.push(b).skip(1) =~= Seq::<u8>::empty());
        assert(s =~= Seq::<u8>::empty());
        assert(bytes::le_value(s.push(b).skip(1)) == 0);
        assert(b * 1 == b);
    } else {
        let rest = s.skip(1);
        assert(s.push(b).skip(1) =~= rest.push(b));
        lemma_value_push(rest, b);
        lemma_pow_adds(256, 1, rest.len());
        lemma_pow1(256);
        let p = pow(256, rest.len());
        assert(256 * (b * p) == b * (256 * p)) by (nonlinear_arith);
        let r = bytes::le_value(rest);
        assert(256 * (r + b * p) == 256 * r + 256 * (b * p)) by (nonlinear_arith);
        assert(pow(256, s.len()) == 256 * p);
        assert(s.push(b)[0] == s[0]);
        assert(bytes::le_value(s.push(b)) == s[0] + 256 * (r + b * p));
    }
}

/// Little-endian bytes stand for their sum, each times 256 as often as bytes stand
/// before it.
pub proof fn law_bytes_are_summed(a: Seq<u8>)
    ensures
        a.len() == 2 ==> bytes::le_value(a) == a[0] + a[1] * 0x100,
        a.len() == 4 ==> bytes::le_value(a) == a[0] + a[1] * 0x100 + a[2] * 0x1_0000 + a[3]
            * 0x100_0000,
        a.len() == 8 ==> bytes::le_value(a) == a[0] + a[1] * 0x100 + a[2] * 0x1_0000 + a[3]
            * 0x100_0000 + a[4] * 0x1_0000_0000 + a[5] * 0x100_0000_0000 + a[6]
            * 0x1_0000_0000_0000 + a[7] * 0x100_0000_0000_0000,
{
    reveal_with_fuel(bytes::le_value, 9);
    let b = a.skip(1);
    let c = b.skip(1);
    let d = c.skip(1);
    let e = d.skip(1);
    let f = e.skip(1);
    let g = f.skip(1);
    let h = g.skip(1);
    if a.len() >= 2 {
        assert(b[0] == a[1]);
    }
    if a.len() >= 4 {
        assert(c[0] == a[2] && d[0] == a[3]);
    }
    if a.len() >= 8 {
        assert(e[0] == a[4] && f[0] == a[5] && g[0] == a[6] && h[0] == a[7]);
    }
}

/// The signed reading of a pattern is the integer with the same remainder modulo
/// 2^32 or 2^64: the pattern itself below half of that, and otherwise the pattern
/// less all of it. Signed integers are written as those patterns.
pub proof fn law_twos_complement(n: nat, v: i32, w: i64)
    ensures
        n < 0x1_0000_0000 ==> (bytes::signed_32(n) - n) % 0x1_0000_0000 == 0,
        n < 0x8000_0000 ==> bytes::signed_32(n) == n,
        0x8000_0000 <= n < 0x1_0000_0000 ==> bytes::signed_32(n) == n - 0x1_0000_0000,
        n < 0x1_0000_0000_0000_0000 ==> (bytes::signed_64(n) - n) % 0x1_0000_0000_0000_0000 == 0,
        n < 0x8000_0000_0000_0000 ==> bytes::signed_64(n) == n,
        0x8000_0000_0000_0000 <= n < 0x1_0000_0000_0000_0000 ==> bytes::signed_64(n) == n
            - 0x1_0000_0000_0000_0000,
        bytes::unsigned_32(v) == v as int % 0x1_0000_0000,
        bytes::unsigned_64(w) == w as int % 0x1_0000_0000_0000_0000,
{
}

proof fn lemma_stored(v: DataValue)
    ensures
        row::encoded(v) == stored(v),
{
    match v {
        DataValue::Int32(x) => {
            law_twos_complement(0, x, 0);
            lemma_four(bytes::unsigned_32(x));
        },
        DataValue::Int64(x) => {
            law_twos_complement(0, 0, x);
            lemma_eight(bytes::unsigned_64(x));
        },
        DataValue::Float32(bits) => lemma_four(bits as nat),
        DataValue::Float64(bits) => lemma_eight(bits as nat),
        DataValue::Text(s) => {
            assert(row::encoded(v) =~= stored(v));
        },
    }
}

proof fn lemma_belongs(v: DataValue, t: DataType)
    ensures
        belongs(v, t) <==> v.data_type() == t && v.storable(),
{
    if let DataValue::Text(s) = v {
        if s.contains('\0') {
            let i = choose|i: int| 0 <= i < s.len() && s[i] == '\0';
            assert(s[i] == '\0');
        }
        if !belongs(v, t) && t is String {
            let i = choose|i: int| 0 <= i < s.len() && s[i] == '\0';
            assert(s.contains(s[i]));
        }
    }
}

/// A value is read from its bytes, whatever stands behind them, and is written as
/// them.
pub proof fn law_value_is_read(v: DataValue, t: DataType, rest: Seq<u8>)
    requires
        belongs(v, t),
    ensures
        row_codec::decoded(stored(v) + rest, t) == Ok::<(DataValue, int), DbError>(
            (v, stored(v).len() as int),
        ),
        row_codec::skipped(stored(v) + rest, t) == Ok::<int, DbError>(stored(v).len() as int),
        row::encoded(v) == stored(v),
{
    lemma_belongs(v, t);
    lemma_stored(v);
    row_codec::lemma_value_round_trip(v, rest);
    row_codec::lemma_decoded(stored(v) + rest, t);
}

/// Bytes that hold no value are refused: numbers of which bytes are missing, texts
/// without a zero byte, and texts that are not UTF-8.
pub proof fn law_faulty_bytes(buf: Seq<u8>, t: DataType, zero: int)
    ensures
        buf.len() < 4 && (t is Int32 || t is Float32) ==> row_codec::decoded(buf, t) == Err::<
            (DataValue, int),
            DbError,
        >(DbError::ShortValue) && row_codec::skipped(buf, t) == Err::<int, DbError>(
            DbError::ShortValue,
        ),
        buf.len() < 8 && (t is Int64 || t is Float64) ==> row_codec::decoded(buf, t) == Err::<
            (DataValue, int),
            DbError,
        >(DbError::ShortValue) && row_codec::skipped(buf, t) == Err::<int, DbError>(
            DbError::ShortValue,
        ),
        t is String && !buf.contains(0u8) ==> row_codec::decoded(buf, t) == Err::<
            (DataValue, int),
            DbError,
        >(DbError::MissingTerminator) && row_codec::skipped(buf, t) == Err::<int, DbError>(
            DbError::MissingTerminator,
        ),
        t is String && 0 <= zero < buf.len() && buf[zero] == 0 && !buf.take(zero).contains(0u8) ==> {
            &&& row_codec::skipped(buf, t) == Ok::<int, DbError>(zero + 1)
            &&& !vstd::utf8::valid_utf8(buf.take(zero)) ==> row_codec::decoded(buf, t) == Err::<
                (DataValue, int),
                DbError,
            >(DbError::InvalidUtf8)
        },
{
    row_codec::lemma_first_zero(buf);
    if let Some(i) = row_codec::first_zero(buf) {
        assert(buf.contains(buf[i]));
        if 0 <= zero < buf.len() && buf[zero] == 0 && !buf.take(zero).contains(0u8) {
            if i < zero {
                assert(buf.take(zero)[i] == 0);
                assert(buf.take(zero).contains(0u8));
            }
            assert(i == zero);
        }
    }
}

proof fn lemma_stored_row(values: Seq<DataValue>)
    ensures
        row::encoded_row(values) == stored_row(values),
    decreases values.len(),
{
    if values.len() > 0 {
        let rest = values.skip(1);
        lemma_stored_row(rest);
        lemma_stored(values[0]);
        lemma_row_front(values);
    }
}

proof fn lemma_row_front(values: Seq<DataValue>)
    requires
        values.len() > 0,
    ensures
        row::encoded_row(values) == row::encoded(values[0]) + row::encoded_row(values.skip(1)),
    decreases values.len(),
{
    let rest = values.skip(1);
    if values.len() == 1 {
        assert(values.drop_last() =~= Seq::<DataValue>::empty());
        assert(rest =~= Seq::<DataValue>::empty());
        assert(row::encoded_row(values) =~= row::encoded(values[0]) + row::encoded_row(rest));
    } else {
        let front = values.drop_last();
        lemma_row_front(front);
        assert(front.skip(1) =~= rest.drop_last());
        assert(rest.last() == values.last());
        assert(row::encoded_row(values) =~= row::encoded(values[0]) + row::encoded_row(rest));
    }
}

proof fn lemma_stored_rows(rows: Seq<Seq<DataValue>>)
    ensures
        row_codec::encoded_rows(rows) == stored_rows(rows),
    decreases rows.len(),
{
    if rows.len() > 0 {
        lemma_stored_rows(rows.skip(1));
        lemma_stored_row(rows[0]);
        lemma_rows_front(rows);
    }
}

proof fn lemma_rows_front(rows: Seq<Seq<DataValue>>)
    requires
        rows.len() > 0,
    ensures
        row_codec::encoded_rows(rows) == row::encoded_row(rows[0]) + row_codec::encoded_rows(
            rows.skip(1),
        ),
    decreases rows.len(),
{
    let rest = rows.skip(1);
    if rows.len() == 1 {
        assert(rows.drop_last() =~= Seq::<Seq<DataValue>>::empty());
        assert(rest =~= Seq::<Seq<DataValue>>::empty());
        assert(row_codec::encoded_rows(rows) =~= row::encoded_row(rows[0])
            + row_codec::encoded_rows(rest));
    } else {
        let front = rows.drop_last();
        lemma_rows_front(front);
        assert(front.skip(1) =~= rest.drop_last());
        assert(rest.last() == rows.last());
        assert(row_codec::encoded_rows(rows) =~= row::encoded_row(rows[0])
            + row_codec::encoded_rows(rest));
    }
}

/// A row is read from the bytes of its values, one behind the other in the order
/// of its columns, and is written as them.
pub proof fn law_row_is_read(values: Seq<DataValue>, types: Seq<DataType>, rest: Seq<u8>)
    requires
        row_belongs(values, types),
    ensures
        row_codec::decoded_row(stored_row(values) + rest, types) == Ok::<
            (Seq<DataValue>, int),
            DbError,
        >((values, stored_row(values).len() as int)),
        row::encoded_row(values) == stored_row(values),
{
    lemma_row_belongs(values, types);
    lemma_stored_row(values);
    row_codec::lemma_row_round_trip(values, types, rest);
}

/// A row is written as the bytes of its values, one behind the other.
pub proof fn law_rows_are_written(values: Seq<DataValue>)
    ensures
        row::encoded_row(values) == stored_row(values),
{
    lemma_stored_row(values);
}

proof fn lemma_row_belongs(values: Seq<DataValue>, types: Seq<DataType>)
    requires
        row_belongs(values, types),
    ensures
        data::conforms(values, types),
{
    assert forall|i: int| 0 <= i < values.len() implies (#[trigger] values[i]).data_type()
        == types[i] && values[i].storable() by {
        lemma_belongs(values[i], types[i]);
    }
}

/// The rows of a block stand one behind the other from its start, and their number
/// in its last two bytes. What stands between is not looked at.
pub proof fn law_block_is_read(
    rows: Seq<Seq<DataValue>>,
    types: Seq<DataType>,
    between: Seq<u8>,
)
    requires
        rows.len() < 0x1_0000,
        forall|i: int| 0 <= i < rows.len() ==> row_belongs(#[trigger] rows[i], types),
    ensures
        row_codec::block_rows(stored_rows(rows) + between + two(rows.len() as int), types) == Ok::<
            Seq<Seq<DataValue>>,
            DbError,
        >(rows),
{
    let block = stored_rows(rows) + between + two(rows.len() as int);
    assert forall|i: int| 0 <= i < rows.len() implies data::conforms(#[trigger] rows[i], types) by {
        lemma_row_belongs(rows[i], types);
    }
    lemma_stored_rows(rows);
    row_codec::lemma_rows_round_trip(rows, types, between);
    assert(row_codec::payload(block) =~= stored_rows(rows) + between);
    assert(block.skip(block.len() - 2) =~= two(rows.len() as int));
    lemma_two(rows.len());
    bytes::lemma_le_bounds();
    bytes::lemma_le_round_trip(rows.len(), 2);
}

/// A block of fewer than two bytes holds no rows.
pub proof fn law_short_block(block: Seq<u8>, types: Seq<DataType>)
    requires
        block.len() < 2,
    ensures
        row_codec::block_rows(block, types) == Err::<Seq<Seq<DataValue>>, DbError>(
            DbError::BlockTooShort,
        ),
{
}

/// The rows of a file are those of its blocks, in the order of the blocks.
pub proof fn law_file_is_read(
    blocks: Seq<Seq<u8>>,
    more: Seq<Seq<u8>>,
    block: Seq<u8>,
    types: Seq<DataType>,
)
    ensures
        semantics::file_rows(Seq::<Seq<u8>>::empty(), types) == Ok::<
            Seq<Seq<DataValue>>,
            DbError,
        >(Seq::empty()),
        semantics::file_rows(seq![block], types) == row_codec::block_rows(block, types),
        semantics::file_rows(blocks, types) matches Ok(a) ==> (semantics::file_rows(more, types)
            matches Ok(b) ==> semantics::file_rows(blocks + more, types) == Ok::<
            Seq<Seq<DataValue>>,
            DbError,
        >(a + b)),
        semantics::file_rows(blocks + more, types) is Ok ==> semantics::file_rows(blocks, types)
            is Ok,
    decreases more.len(),
{
    assert(seq![block].drop_last() =~= Seq::<Seq<u8>>::empty());
    match row_codec::block_rows(block, types) {
        Ok(rows) => {
            assert(Seq::<Seq<DataValue>>::empty() + rows =~= rows);
        },
        Err(_) => {},
    }
    if more.len() == 0 {
        assert(blocks + more =~= blocks);
        match semantics::file_rows(blocks, types) {
            Ok(a) => {
                assert(a + Seq::<Seq<DataValue>>::empty() =~= a);
            },
            Err(_) => {},
        }
    } else {
        let less = more.drop_last();
        law_file_is_read(blocks, less, block, types);
        assert((blocks + more).drop_last() =~= blocks + less);
        assert((blocks + more).last() == more.last());
        match (semantics::file_rows(blocks, types), semantics::file_rows(more, types)) {
            (Ok(a), Ok(b)) => {
                let c = semantics::file_rows(less, types)->Ok_0;
                let d = row_codec::block_rows(more.last(), types)->Ok_0;
                assert(a + (c + d) =~= a + c + d);
            },
            _ => {},
        }
    }
}

/// The blocks of a file are as many as it says, from its first block on.
pub proof fn law_file_blocks(layout: DiskLayout, file: Seq<char>, start: u64, count: u64, i: int)
    requires
        layout.files[file] == (start, count),
        0 <= i < count,
    ensures
        layout.file_blocks(file).len() == count,
        layout.file_blocks(file)[i] == layout.base[start + i],
{
}

/// Where all columns are picked, the rows are read as they are, and what is wrong
/// with one is said as if nothing was picked. A block that is too short and a column
/// that is not there are refused.
pub proof fn law_picked_columns(block: Seq<u8>, types: Seq<DataType>, indexes: Seq<int>)
    ensures
        block.len() < 2 ==> row_codec::picked_block_rows(block, types, indexes) == Err::<
            Seq<Seq<DataValue>>,
            DbError,
        >(DbError::BlockTooShort),
        block.len() >= 2 && (exists|p: int|
            0 <= p < indexes.len() && !(0 <= #[trigger] indexes[p] < types.len()))
            ==> row_codec::picked_block_rows(block, types, indexes) == Err::<
            Seq<Seq<DataValue>>,
            DbError,
        >(DbError::BadIndex),
        (forall|p: int| 0 <= p < indexes.len() ==> 0 <= #[trigger] indexes[p] < types.len()) && (
        forall|c: int| 0 <= c < types.len() ==> #[trigger] row_codec::is_picked(indexes, c)) ==> {
            &&& row_codec::block_rows(block, types) matches Err(e)
                ==> row_codec::picked_block_rows(block, types, indexes) == Err::<
                Seq<Seq<DataValue>>,
                DbError,
            >(e)
            &&& row_codec::block_rows(block, types) matches Ok(all) ==> (
            row_codec::picked_block_rows(block, types, indexes) matches Ok(rows) && {
                &&& rows.len() == all.len()
                &&& forall|i: int, p: int|
                    0 <= i < rows.len() && 0 <= p < indexes.len() ==> (#[trigger] rows[i][p])
                        == all[i][indexes[p]]
            })
        },
{
    if (forall|p: int| 0 <= p < indexes.len() ==> 0 <= #[trigger] indexes[p] < types.len()) && (
    forall|c: int| 0 <= c < types.len() ==> #[trigger] row_codec::is_picked(indexes, c)) {
        if row_codec::block_rows(block, types) is Ok {
            row_codec::law_picked_block_rows(block, types, indexes);
        } else if block.len() >= 2 {
            lemma_picked_rows_fail(
                row_codec::payload(block),
                types,
                indexes,
                row_codec::row_count(block) as int,
            );
        }
    }
}

proof fn lemma_picked_row_fails(buf: Seq<u8>, types: Seq<DataType>, indexes: Seq<int>, n: int)
    requires
        0 <= n <= types.len(),
        forall|c: int| 0 <= c < types.len() ==> #[trigger] row_codec::is_picked(indexes, c),
    ensures
        match row_codec::decoded_values(buf, types, n) {
            Ok((_, used)) => row_codec::picked_values(buf, types, indexes, n) matches Ok((_, u))
                && u == used,
            Err(e) => row_codec::picked_values(buf, types, indexes, n) == Err::<
                (Seq<Option<DataValue>>, int),
                DbError,
            >(e),
        },
    decreases n,
{
    if n > 0 {
        lemma_picked_row_fails(buf, types, indexes, n - 1);
        assert(row_codec::is_picked(indexes, n - 1));
    }
}

proof fn lemma_picked_rows_fail(buf: Seq<u8>, types: Seq<DataType>, indexes: Seq<int>, n: int)
    requires
        forall|c: int| 0 <= c < types.len() ==> #[trigger] row_codec::is_picked(indexes, c),
    ensures
        match row_codec::decoded_rows(buf, types, n) {
            Ok((_, used)) => row_codec::picked_rows(buf, types, indexes, n) matches Ok((_, u)) && u
                == used,
            Err(e) => row_codec::picked_rows(buf, types, indexes, n) == Err::<
                (Seq<Seq<DataValue>>, int),
                DbError,
            >(e),
        },
    decreases n,
{
    if n > 0 {
        lemma_picked_rows_fail(buf, types, indexes, n - 1);
        if let Ok((_, used)) = row_codec::decoded_rows(buf, types, n - 1) {
            lemma_picked_row_fails(buf.skip(used), types, indexes, types.len() as int);
        }
    }
}

/// Rows are read one behind the other, and values are, each where the one before it
/// ends, until one cannot be read.
pub proof fn law_rows_in_turn(buf: Seq<u8>, types: Seq<DataType>, n: int)
    requires
        n >= 0,
    ensures
        row_codec::decoded_rows(buf, types, 0) == Ok::<(Seq<Seq<DataValue>>, int), DbError>(
            (Seq::empty(), 0),
        ),
        row_codec::decoded_rows(buf, types, n) matches Err(e) ==> row_codec::decoded_rows(
            buf,
            types,
            n + 1,
        ) == Err::<(Seq<Seq<DataValue>>, int), DbError>(e),
        row_codec::decoded_rows(buf, types, n) matches Ok((rows, used)) ==> match row_codec::decoded_row(
            buf.skip(used),
            types,
        ) {
            Err(e) => row_codec::decoded_rows(buf, types, n + 1) == Err::<
                (Seq<Seq<DataValue>>, int),
                DbError,
            >(e),
            Ok((row, more)) => row_codec::decoded_rows(buf, types, n + 1) == Ok::<
                (Seq<Seq<DataValue>>, int),
                DbError,
            >((rows.push(row), used + more)),
        },
{
}

/// The last two bytes of a block, the lower one first, say how many rows stand
/// before them, and what is wrong with one of these is wrong with the block.
pub proof fn law_rows_of_a_block(block: Seq<u8>, types: Seq<DataType>)
    requires
        block.len() >= 2,
    ensures
        ({
            let n = block[block.len() - 2] + block[block.len() - 1] * 0x100;
            match row_codec::decoded_rows(block.take(block.len() - 2), types, n) {
                Ok((rows, _)) => row_codec::block_rows(block, types) == Ok::<
                    Seq<Seq<DataValue>>,
                    DbError,
                >(rows),
                Err(e) => row_codec::block_rows(block, types) == Err::<
                    Seq<Seq<DataValue>>,
                    DbError,
                >(e),
            }
        }),
{
    law_bytes_are_summed(block.skip(block.len() - 2));
}

} // verus!
