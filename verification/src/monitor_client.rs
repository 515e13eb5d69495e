//! The client of the monitor, which hands out a query and takes its rows.

use vstd::prelude::*;

use crate::data::{Data, DataValue};
use crate::error::DbError;
use crate::io;
use crate::io::{Input, Output};
use crate::row::Row;
use crate::text;
use crate::text::{is_blank, parse_number, push_signed_decimal, push_text};

verus! {

/// A connection to the monitor.
#[derive(Debug)]
pub struct MonitorClient<R: Input, W: Output> {
    reader: R,
    writer: W,
    row_buffer: Vec<u8>,
}

/// The number of floating-point values of a row.
pub open spec fn float_count(row: Seq<DataValue>) -> nat
    decreases row.len(),
{
    if row.len() == 0 {
        0
    } else {
        float_count(row.drop_last()) + match row.last() {
            DataValue::Float32(_) | DataValue::Float64(_) => 1nat,
            _ => 0,
        }
    }
}

/// The bytes of a row as the monitor takes it, without the line feed: each
/// value with a bar behind it. The texts of floating-point values are given.
pub open spec fn formatted(row: Seq<DataValue>, floats: Seq<Seq<char>>) -> Seq<u8>
    decreases row.len(),
{
    if row.len() == 0 {
        Seq::empty()
    } else {
        (formatted(row.drop_last(), floats) + match row.last() {
            DataValue::Int32(v) => text::signed_decimal(v as int),
            DataValue::Int64(v) => text::signed_decimal(v as int),
            DataValue::Float32(_) | DataValue::Float64(_) => vstd::utf8::encode_utf8(
                floats[float_count(row.drop_last()) as int],
            ),
            DataValue::Text(s) => vstd::utf8::encode_utf8(s),
        }).push(124u8)
    }
}

/// The contents of texts.
pub open spec fn text_views(texts: Seq<String>) -> Seq<Seq<char>> {
    Seq::new(texts.len(), |i: int| texts[i]@)
}

/// The number of floating-point values grows with the row.
proof fn lemma_float_count(row: Seq<DataValue>, i: int)
    requires
        0 <= i <= row.len(),
    ensures
        float_count(row.take(i)) <= float_count(row),
    decreases row.len() - i,
{
    if i == row.len() {
        assert(row.take(i) == row);
    } else {
        lemma_float_count(row, i + 1);
        assert(row.take(i + 1).drop_last() == row.take(i));
    }
}

impl<R: Input, W: Output> MonitorClient<R, W> {
    /// The bytes that the monitor is still to be heard with.
    pub closed spec fn pending(self) -> Seq<u8> {
        self.reader.pending()
    }

    /// The bytes that were sent to the monitor.
    pub closed spec fn written(self) -> Seq<u8> {
        self.writer.written()
    }

    /// Those of the bytes that are not held back.
    pub closed spec fn passed_on(self) -> Seq<u8> {
        self.writer.passed_on()
    }

    /// The streams take whatever comes and read whatever is there.
    pub closed spec fn obliging(self) -> bool {
        self.reader.obliging() && self.writer.obliging()
    }

    /// A connection over the two streams.
    pub fn new(reader: R, writer: W) -> (r: MonitorClient<R, W>)
        ensures
            r.pending() == reader.pending(),
            r.written() == writer.written(),
            r.obliging() == (reader.obliging() && writer.obliging()),
    {
        MonitorClient { reader, writer, row_buffer: Vec::with_capacity(256) }
    }

    /// The stream that was written to.
    pub fn into_writer(self) -> (r: W)
        ensures
            r.written() == self.written(),
            r.passed_on() == self.passed_on(),
    {
        self.writer
    }

    /// The text of the query, which is a line, or [`DbError::EmptyQuery`] where
    /// the line is blank.
    pub fn read_query(&mut self) -> (r: Result<String, DbError>)
        ensures
            final(self).written() == old(self).written(),
            match r {
                Ok(line) => {
                    &&& vstd::utf8::valid_utf8(io::first_line(old(self).pending()))
                    &&& line@ == vstd::utf8::decode_utf8(io::first_line(old(self).pending()))
                    &&& !text::blank(line@)
                    &&& final(self).pending() == old(self).pending().skip(
                        io::first_line(old(self).pending()).len() as int,
                    )
                },
                Err(e) => e == DbError::Io || (e == DbError::EmptyQuery && text::blank(
                    vstd::utf8::decode_utf8(io::first_line(old(self).pending())),
                ) && final(self).pending() == old(self).pending().skip(
                    io::first_line(old(self).pending()).len() as int,
                )),
            },
            old(self).obliging() ==> {
                &&& final(self).obliging()
                &&& r == Err::<String, DbError>(DbError::Io) <==> !vstd::utf8::valid_utf8(
                    io::first_line(old(self).pending()),
                )
            },
    {
        let line = self.reader.read_line()?;
        if is_blank(line.as_str()) {
            return Err(DbError::EmptyQuery);
        }
        Ok(line)
    }

    /// Asks for the memory limit in mebibytes.
    pub fn get_memory_limit_mb(&mut self) -> (r: Result<u32, DbError>)
        ensures
            match r {
                Ok(n) => {
                    &&& final(self).written() == old(self).written() + vstd::utf8::encode_utf8(
                        "get_memory_limit\n"@,
                    )
                    &&& final(self).passed_on() == final(self).written()
                    &&& vstd::utf8::valid_utf8(io::first_line(old(self).pending()))
                    &&& text::reply_number(
                        vstd::utf8::decode_utf8(io::first_line(old(self).pending())),
                    ) == Some(n as nat)
                    &&& final(self).pending() == old(self).pending().skip(
                        io::first_line(old(self).pending()).len() as int,
                    )
                },
                Err(e) => e == DbError::Io || {
                    &&& e == DbError::MalformedNumber
                    &&& final(self).written() == old(self).written() + vstd::utf8::encode_utf8(
                        "get_memory_limit\n"@,
                    )
                    &&& final(self).passed_on() == final(self).written()
                    &&& vstd::utf8::valid_utf8(io::first_line(old(self).pending()))
                    &&& !(text::reply_number(
                        vstd::utf8::decode_utf8(io::first_line(old(self).pending())),
                    ) matches Some(n) && n <= u32::MAX)
                    &&& final(self).pending() == old(self).pending().skip(
                        io::first_line(old(self).pending()).len() as int,
                    )
                },
            },
            old(self).obliging() ==> {
                &&& final(self).obliging()
                &&& final(self).written() == old(self).written() + vstd::utf8::encode_utf8(
                    "get_memory_limit\n"@,
                )
                &&& final(self).passed_on() == final(self).written()
                &&& r == Err::<u32, DbError>(DbError::Io) <==> !vstd::utf8::valid_utf8(
                    io::first_line(old(self).pending()),
                )
            },
    {
        self.writer.write_all("get_memory_limit\n".as_bytes())?;
        self.writer.flush()?;
        let line = self.reader.read_line()?;
        match parse_number(line.as_str(), u32::MAX as u64) {
            Some(n) => Ok(n as u32),
            None => Err(DbError::MalformedNumber),
        }
    }

    /// Announces rows.
    pub fn begin_validation(&mut self) -> (r: Result<(), DbError>)
        ensures
            final(self).pending() == old(self).pending(),
            match r {
                Ok(_) => {
                    &&& final(self).written() == old(self).written() + vstd::utf8::encode_utf8(
                        "validate\n"@,
                    )
                    &&& final(self).passed_on() == final(self).written()
                },
                Err(e) => e == DbError::Io,
            },
            old(self).obliging() ==> r is Ok && final(self).obliging(),
    {
        self.writer.write_all("validate\n".as_bytes())?;
        self.writer.flush()?;
        Ok(())
    }

    /// Sends a row. The texts of its floating-point values, in their order,
    /// are `floats`.
    pub fn send_row(&mut self, row: &Row, floats: &Vec<String>) -> (r: Result<(), DbError>)
        requires
            floats@.len() == float_count(row@),
        ensures
            final(self).pending() == old(self).pending(),
            match r {
                Ok(_) => final(self).written() == old(self).written() + formatted(
                    row@,
                    text_views(floats@),
                ).push(10u8),
                Err(e) => e == DbError::Io,
            },
            old(self).obliging() ==> r is Ok && final(self).obliging(),
    {
        let mut buffer: Vec<u8> = Vec::new();
        core::mem::swap(&mut buffer, &mut self.row_buffer);
        buffer.clear();
        let values = row.values();
        let ghost texts = text_views(floats@);
        let total: usize = floats.len();
        let mut used: usize = 0;
        let mut i: usize = 0;
        while i < values.len()
            invariant
                i <= values@.len(),
                values@.len() == row@.len(),
                forall|k: int| 0 <= k < values@.len() ==> (#[trigger] values@[k])@ == row@[k],
                floats@.len() == float_count(row@),
                total == floats@.len(),
                texts == text_views(floats@),
                used == float_count(row@.take(i as int)),
                buffer@ == formatted(row@.take(i as int), texts),
            decreases values@.len() - i,
        {
            proof {
                lemma_float_count(row@, i + 1);
                assert(row@.take(i + 1).drop_last() == row@.take(i as int));
                assert(row@.take(i + 1).last() == values@[i as int]@);
            }
            match &values[i] {
                Data::Int32(v) => push_signed_decimal(&mut buffer, *v as i64),
                Data::Int64(v) => push_signed_decimal(&mut buffer, *v),
                Data::Float32(_) | Data::Float64(_) => {
                    push_text(&mut buffer, floats[used].as_str());
                    used = used + 1;
                },
                Data::String(v) => push_text(&mut buffer, v.as_str()),
            }
            buffer.push(124u8);
            i = i + 1;
        }
        assert(row@.take(i as int) == row@);
        buffer.push(10u8);
        core::mem::swap(&mut buffer, &mut self.row_buffer);
        self.writer.write_all(self.row_buffer.as_slice())?;
        Ok(())
    }

    /// Announces that there are no more rows.
    pub fn finish_validation(&mut self) -> (r: Result<(), DbError>)
        ensures
            final(self).pending() == old(self).pending(),
            match r {
                Ok(_) => {
                    &&& final(self).written() == old(self).written() + vstd::utf8::encode_utf8(
                        "!\n"@,
                    )
                    &&& final(self).passed_on() == final(self).written()
                },
                Err(e) => e == DbError::Io,
            },
            old(self).obliging() ==> r is Ok && final(self).obliging(),
    {
        self.writer.write_all("!\n".as_bytes())?;
        self.writer.flush()?;
        Ok(())
    }
}

} // verus!
