//! The client of the block device.

use vstd::prelude::*;

use crate::error::DbError;
use crate::io;
use crate::io::{Input, Output};
use crate::text;
use crate::text::{parse_number, push_decimal, push_text};

verus! {

/// What a device is made of, for as long as it is used: the size of a block,
/// the first block of the scratch area, the files with their first block and
/// their number of blocks, and the contents of the blocks below the scratch
/// area, which nobody changes.
pub struct DiskLayout {
    pub block_size: u64,
    pub anon_start: u64,
    pub files: Map<Seq<char>, (u64, u64)>,
    pub base: Map<int, Seq<u8>>,
}

impl DiskLayout {
    /// The blocks of a file.
    pub open spec fn file_blocks(self, file_id: Seq<char>) -> Seq<Seq<u8>> {
        let (start, count) = self.files[file_id];
        Seq::new(count as nat, |i: int| self.base[start + i])
    }
}

/// Block `i` of a run of blocks.
pub open spec fn chunk(bytes: Seq<u8>, block_size: int, i: int) -> Seq<u8> {
    bytes.subrange(i * block_size, (i + 1) * block_size)
}

/// A block lies within a run that is long enough.
pub proof fn lemma_chunk(bytes: Seq<u8>, block_size: int, count: int, i: int)
    requires
        0 <= i < count,
        0 <= block_size,
        bytes.len() == block_size * count,
    ensures
        0 <= i * block_size <= (i + 1) * block_size <= bytes.len(),
        (i + 1) * block_size == i * block_size + block_size,
        chunk(bytes, block_size, i).len() == block_size,
{
    assert((i + 1) * block_size == i * block_size + block_size) by (nonlinear_arith);
    assert(0 <= i * block_size) by (nonlinear_arith)
        requires
            0 <= i,
            0 <= block_size,
    ;
    assert((i + 1) * block_size <= block_size * count) by (nonlinear_arith)
        requires
            i + 1 <= count,
            0 <= block_size,
    ;
}

/// A connection to the block device.
///
/// Beside the connection stands what the device is taken to hold: its layout,
/// and the contents of the scratch blocks as they were written. Whether every
/// command so far was answered in agreement with that is known as well.
pub struct DiskClient<R: Input, W: Output> {
    reader: R,
    writer: W,
    block_size: Option<u64>,
    layout: Ghost<DiskLayout>,
    scratch: Ghost<Map<int, Seq<u8>>>,
    agreed: Ghost<bool>,
}

/// The bytes of a command that ends in a file id.
pub open spec fn file_command(words: Seq<char>, file_id: Seq<char>) -> Seq<u8> {
    (vstd::utf8::encode_utf8(words) + vstd::utf8::encode_utf8(file_id)).push(10u8)
}

/// The bytes of a command on `count` blocks from `start` on.
pub open spec fn block_command(words: Seq<char>, start: u64, count: u64) -> Seq<u8> {
    ((vstd::utf8::encode_utf8(words) + text::decimal(start as nat)).push(32u8) + text::decimal(
        count as nat,
    )).push(10u8)
}

impl<R: Input, W: Output> DiskClient<R, W> {
    /// The bytes that the device is still to be heard with.
    pub closed spec fn pending(self) -> Seq<u8> {
        self.reader.pending()
    }

    /// The bytes that were sent to the device.
    pub closed spec fn written(self) -> Seq<u8> {
        self.writer.written()
    }

    /// Those of the bytes that are not held back.
    pub closed spec fn passed_on(self) -> Seq<u8> {
        self.writer.passed_on()
    }

    /// The streams take whatever comes and read whatever is there.
    pub closed spec fn obliging(self) -> bool {
        self.reader.obliging() && self.writer.obliging()
    }

    /// What is sent to learn the block size.
    pub open spec fn size_sent(self) -> Seq<u8> {
        if self.known_block_size() is Some {
            Seq::empty()
        } else {
            vstd::utf8::encode_utf8("get block-size\n"@)
        }
    }

    /// What is heard to learn the block size.
    pub open spec fn size_heard(self) -> Seq<u8> {
        if self.known_block_size() is Some {
            Seq::empty()
        } else {
            io::first_line(self.pending())
        }
    }

    /// The block size as the device has told it or is about to, if it does.
    pub open spec fn told_size(self) -> Option<u64> {
        let line = io::first_line(self.pending());
        match self.known_block_size() {
            Some(n) => Some(n),
            None => if vstd::utf8::valid_utf8(line) && (text::reply_number(
                vstd::utf8::decode_utf8(line),
            ) matches Some(n) && n <= u64::MAX) {
                Some(text::reply_number(vstd::utf8::decode_utf8(line))->0 as u64)
            } else {
                None
            },
        }
    }

    /// The block size, once the device has told it.
    pub closed spec fn known_block_size(self) -> Option<u64> {
        self.block_size
    }

    /// What the device is made of.
    pub closed spec fn layout(self) -> DiskLayout {
        self.layout@
    }

    /// What the blocks of the scratch area hold.
    pub closed spec fn scratch(self) -> Map<int, Seq<u8>> {
        self.scratch@
    }

    /// What a block holds.
    pub open spec fn content(self, block: int) -> Seq<u8> {
        if block < self.layout().anon_start {
            self.layout().base[block]
        } else {
            self.scratch()[block]
        }
    }

    /// Whether every command so far was answered, and as a device with this
    /// layout does which keeps what is written to it.
    pub closed spec fn honest(self) -> bool {
        self.agreed@ && (self.block_size matches Some(n) ==> n == self.layout@.block_size)
    }

    /// Of two states of one connection: nothing was written to a block between
    /// them.
    pub open spec fn unwritten_since(self, before: Self) -> bool {
        &&& self.layout() == before.layout()
        &&& self.scratch() == before.scratch()
        &&& self.honest() ==> before.honest()
        &&& before.known_block_size() is Some ==> self.known_block_size()
            == before.known_block_size()
    }

    /// What became of a command that is answered with a number.
    pub open spec fn answered(self, before: Self, command: Seq<u8>, r: Result<u64, DbError>) -> bool {
        let line = io::first_line(before.pending());
        let heard = {
            &&& self.written() == before.written() + command
            &&& self.passed_on() == self.written()
            &&& vstd::utf8::valid_utf8(line)
            &&& self.pending() == before.pending().skip(line.len() as int)
        };
        &&& match r {
            Ok(n) => heard && text::reply_number(vstd::utf8::decode_utf8(line)) == Some(n as nat),
            Err(e) => e == DbError::Io || (e == DbError::MalformedNumber && heard && !(
            text::reply_number(vstd::utf8::decode_utf8(line)) matches Some(n) && n <= u64::MAX)),
        }
        &&& before.obliging() ==> {
            &&& self.obliging()
            &&& self.written() == before.written() + command
            &&& self.passed_on() == self.written()
            &&& r == Err::<u64, DbError>(DbError::Io) <==> !vstd::utf8::valid_utf8(line)
        }
    }

    /// A connection over the two streams.
    pub fn new(reader: R, writer: W) -> (r: DiskClient<R, W>)
        ensures
            r.pending() == reader.pending(),
            r.written() == writer.written(),
            r.known_block_size() is None,
            r.honest(),
            r.obliging() == (reader.obliging() && writer.obliging()),
    {
        DiskClient::with_layout(reader, writer, Ghost(arbitrary()))
    }

    /// A connection over the two streams to a device with the given layout.
    pub fn with_layout(reader: R, writer: W, layout: Ghost<DiskLayout>) -> (r: DiskClient<R, W>)
        ensures
            r.pending() == reader.pending(),
            r.written() == writer.written(),
            r.known_block_size() is None,
            r.honest(),
            r.layout() == layout@,
            r.obliging() == (reader.obliging() && writer.obliging()),
    {
        DiskClient {
            reader,
            writer,
            block_size: None,
            layout,
            scratch: Ghost(Map::empty()),
            agreed: Ghost(true),
        }
    }

    /// The streams.
    pub fn into_parts(self) -> (r: (R, W))
        ensures
            r.0.pending() == self.pending(),
            r.1.written() == self.written(),
            r.1.passed_on() == self.passed_on(),
    {
        (self.reader, self.writer)
    }

    /// The size of a block, which the device is asked for once.
    pub fn get_block_size(&mut self) -> (r: Result<u64, DbError>)
        ensures
            final(self).unwritten_since(*old(self)),
            match old(self).known_block_size() {
                Some(n) => r == Ok::<u64, DbError>(n) && *final(self) == *old(self),
                None => final(self).answered(
                    *old(self),
                    vstd::utf8::encode_utf8("get block-size\n"@),
                    r,
                ),
            },
            r matches Ok(n) ==> final(self).known_block_size() == Some(n),
            r is Err ==> final(self).known_block_size() is None,
            final(self).honest() == (old(self).honest() && (r matches Ok(n) && n == old(
                self).layout().block_size)),
    {
        if let Some(bs) = self.block_size {
            return Ok(bs);
        }
        let bs = self.cmd_u64("get block-size\n".as_bytes())?;
        self.block_size = Some(bs);
        Ok(bs)
    }

    /// The first block of a file.
    pub fn get_file_start_block(&mut self, file_id: &str) -> (r: Result<u64, DbError>)
        ensures
            final(self).unwritten_since(*old(self)),
            final(self).known_block_size() == old(self).known_block_size(),
            final(self).answered(
                *old(self),
                file_command("get file start-block "@, file_id@),
                r,
            ),
            final(self).honest() == (old(self).honest() && (r matches Ok(n) && n == old(
                self).layout().files[file_id@].0)),
    {
        let mut cmd: Vec<u8> = Vec::new();
        push_text(&mut cmd, "get file start-block ");
        push_text(&mut cmd, file_id);
        cmd.push(10u8);
        assert(cmd@ == file_command("get file start-block "@, file_id@));
        let n = self.cmd_u64(cmd.as_slice())?;
        proof {
            self.agreed@ = self.agreed@ && n == self.layout@.files[file_id@].0;
        }
        Ok(n)
    }

    /// The number of blocks of a file.
    pub fn get_file_num_blocks(&mut self, file_id: &str) -> (r: Result<u64, DbError>)
        ensures
            final(self).unwritten_since(*old(self)),
            final(self).known_block_size() == old(self).known_block_size(),
            final(self).answered(
                *old(self),
                file_command("get file num-blocks "@, file_id@),
                r,
            ),
            final(self).honest() == (old(self).honest() && (r matches Ok(n) && n == old(
                self).layout().files[file_id@].1)),
    {
        let mut cmd: Vec<u8> = Vec::new();
        push_text(&mut cmd, "get file num-blocks ");
        push_text(&mut cmd, file_id);
        cmd.push(10u8);
        assert(cmd@ == file_command("get file num-blocks "@, file_id@));
        let n = self.cmd_u64(cmd.as_slice())?;
        proof {
            self.agreed@ = self.agreed@ && n == self.layout@.files[file_id@].1;
        }
        Ok(n)
    }

    /// The first block of the scratch area.
    pub fn get_anon_start_block(&mut self) -> (r: Result<u64, DbError>)
        ensures
            final(self).unwritten_since(*old(self)),
            final(self).known_block_size() == old(self).known_block_size(),
            final(self).answered(
                *old(self),
                vstd::utf8::encode_utf8("get anon-start-block\n"@),
                r,
            ),
            final(self).honest() == (old(self).honest() && (r matches Ok(n) && n == old(
                self).layout().anon_start)),
    {
        let n = self.cmd_u64("get anon-start-block\n".as_bytes())?;
        proof {
            self.agreed@ = self.agreed@ && n == self.layout@.anon_start;
        }
        Ok(n)
    }

    /// The contents of `count` blocks from `start` on, one behind the other, or
    /// [`DbError::TransferSize`] where memory cannot hold them.
    pub fn read_blocks(&mut self, start: u64, count: u64) -> (r: Result<Vec<u8>, DbError>)
        ensures
            final(self).unwritten_since(*old(self)),
            r matches Ok(bytes) ==> {
                &&& final(self).known_block_size() matches Some(bs)
                &&& bytes@.len() == bs * count
                &&& final(self).written() == old(self).written() + old(self).size_sent()
                    + block_command("get block "@, start, count)
                &&& final(self).passed_on() == final(self).written()
                &&& bytes@ == old(self).pending().skip(old(self).size_heard().len() as int).take(
                    bs * count,
                )
                &&& final(self).pending() == old(self).pending().skip(
                    old(self).size_heard().len() as int,
                ).skip(bs * count)
                &&& final(self).honest() == (old(self).honest() && bs == old(
                    self).layout().block_size && forall|i: int|
                    0 <= i < count ==> #[trigger] chunk(bytes@, bs as int, i) == final(
                        self).content(start + i))
            },
            r == Err::<Vec<u8>, DbError>(DbError::TransferSize) ==> {
                &&& final(self).known_block_size() matches Some(bs)
                &&& bs * count > usize::MAX
                &&& final(self).written() == old(self).written() + old(self).size_sent()
                &&& final(self).pending() == old(self).pending().skip(
                    old(self).size_heard().len() as int,
                )
                &&& final(self).honest() == (old(self).honest() && bs == old(
                    self).layout().block_size)
            },
            r matches Err(e) ==> e == DbError::TransferSize || ((e == DbError::Io || (e
                == DbError::MalformedNumber && old(self).known_block_size() is None)) && !final(
                self).honest()),
            old(self).known_block_size() matches Some(bs) ==> {
                &&& bs * count > usize::MAX <==> r == Err::<Vec<u8>, DbError>(
                    DbError::TransferSize,
                )
                &&& bs * count > usize::MAX ==> *final(self) == *old(self)
            },
            old(self).obliging() ==> {
                &&& final(self).obliging()
                &&& final(self).known_block_size() == old(self).told_size()
                &&& match old(self).told_size() {
                    Some(bs) => {
                        let rest = old(self).pending().skip(old(self).size_heard().len() as int);
                        &&& bs * count > usize::MAX <==> r == Err::<Vec<u8>, DbError>(
                            DbError::TransferSize,
                        )
                        &&& bs * count <= usize::MAX ==> {
                            &&& r is Ok <==> bs * count <= rest.len()
                            &&& final(self).written() == old(self).written() + old(
                                self).size_sent() + block_command("get block "@, start, count)
                            &&& final(self).passed_on() == final(self).written()
                        }
                    },
                    None => {
                        &&& r is Err
                        &&& r == Err::<Vec<u8>, DbError>(DbError::MalformedNumber)
                            <==> vstd::utf8::valid_utf8(io::first_line(old(self).pending()))
                        &&& final(self).written() == old(self).written() + old(self).size_sent()
                        &&& final(self).passed_on() == final(self).written()
                    },
                }
            },
    {
        let bs = self.get_block_size()?;
        let ghost before = *self;
        proof {
            lemma_sizes(old(self).written(), old(self).pending());
        }
        let size: usize = match transfer_size(bs, count) {
            Some(n) => n,
            None => {
                return Err(DbError::TransferSize);
            },
        };
        let mut cmd: Vec<u8> = Vec::new();
        push_text(&mut cmd, "get block ");
        push_decimal(&mut cmd, start);
        cmd.push(32u8);
        push_decimal(&mut cmd, count);
        cmd.push(10u8);
        assert(cmd@ == block_command("get block "@, start, count));
        let answer = self.bytes_for(cmd.as_slice(), size);
        proof {
            self.agreed@ = self.agreed@ && answer is Ok;
        }
        let bytes = answer?;
        proof {
            self.agreed@ = self.agreed@ && forall|i: int|
                0 <= i < count ==> #[trigger] chunk(bytes@, bs as int, i) == before.content(
                    start + i,
                );
        }
        Ok(bytes)
    }

    /// Writes `count` blocks from `start_block_id` on, or answers
    /// [`DbError::TransferSize`] where `data` is not as long as they are.
    pub fn write_blocks(&mut self, start_block_id: u64, count: u64, data: &[u8]) -> (r: Result<
        (),
        DbError,
    >)
        ensures
            final(self).layout() == old(self).layout(),
            r is Err ==> final(self).scratch() == old(self).scratch(),
            old(self).known_block_size() is Some ==> final(self).known_block_size() == old(self).known_block_size(),
            forall|b: int|
                !(start_block_id <= b < start_block_id + count) ==> #[trigger] final(self).scratch()[b]
                    == old(self).scratch()[b],
            r is Ok ==> {
                &&& final(self).known_block_size() matches Some(bs)
                &&& data@.len() == bs * count
                &&& final(self).written() == old(self).written() + old(self).size_sent()
                    + block_command("put block "@, start_block_id, count) + data@
                &&& final(self).passed_on() == final(self).written()
                &&& final(self).pending() == old(self).pending().skip(
                    old(self).size_heard().len() as int,
                )
                &&& final(self).honest() == (old(self).honest() && bs == old(
                    self).layout().block_size)
                &&& forall|i: int|
                    0 <= i < count ==> #[trigger] chunk(data@, bs as int, i) == final(
                        self).scratch()[start_block_id + i]
            },
            r == Err::<(), DbError>(DbError::TransferSize) ==> {
                &&& final(self).known_block_size() matches Some(bs)
                &&& data@.len() != bs * count
                &&& final(self).written() == old(self).written() + old(self).size_sent()
                &&& final(self).pending() == old(self).pending().skip(
                    old(self).size_heard().len() as int,
                )
                &&& final(self).honest() == (old(self).honest() && bs == old(
                    self).layout().block_size)
            },
            r matches Err(e) ==> e == DbError::TransferSize || ((e == DbError::Io || (e
                == DbError::MalformedNumber && old(self).known_block_size() is None)) && !final(
                self).honest()),
            old(self).known_block_size() matches Some(bs) ==> {
                &&& data@.len() != bs * count <==> r == Err::<(), DbError>(DbError::TransferSize)
                &&& data@.len() != bs * count ==> *final(self) == *old(self)
            },
            old(self).obliging() ==> {
                &&& final(self).obliging()
                &&& final(self).known_block_size() == old(self).told_size()
                &&& match old(self).told_size() {
                    Some(bs) => if data@.len() == bs * count {
                        r is Ok
                    } else {
                        r == Err::<(), DbError>(DbError::TransferSize)
                    },
                    None => {
                        &&& r is Err
                        &&& r == Err::<(), DbError>(DbError::MalformedNumber)
                            <==> vstd::utf8::valid_utf8(io::first_line(old(self).pending()))
                        &&& final(self).written() == old(self).written() + old(self).size_sent()
                        &&& final(self).passed_on() == final(self).written()
                    },
                }
            },
    {
        let bs = self.get_block_size()?;
        let ghost before = *self;
        proof {
            lemma_sizes(old(self).written(), old(self).pending());
        }
        let expected: usize = match transfer_size(bs, count) {
            Some(n) => n,
            None => {
                assert(data.len() <= usize::MAX);
                return Err(DbError::TransferSize);
            },
        };
        if data.len() != expected {
            return Err(DbError::TransferSize);
        }
        let mut cmd: Vec<u8> = Vec::new();
        push_text(&mut cmd, "put block ");
        push_decimal(&mut cmd, start_block_id);
        cmd.push(32u8);
        push_decimal(&mut cmd, count);
        cmd.push(10u8);
        assert(cmd@ == block_command("put block "@, start_block_id, count));
        let sent = self.send(cmd.as_slice(), data);
        proof {
            self.agreed@ = self.agreed@ && sent is Ok;
        }
        sent?;
        proof {
            let old_scratch = self.scratch@;
            self.scratch@ = Map::new(
                |b: int| true,
                |b: int|
                    if start_block_id <= b < start_block_id + count {
                        chunk(data@, bs as int, b - start_block_id)
                    } else {
                        old_scratch[b]
                    },
            );
        }
        Ok(())
    }

    fn cmd_u64(&mut self, cmd: &[u8]) -> (r: Result<u64, DbError>)
        ensures
            final(self).block_size == old(self).block_size,
            final(self).layout == old(self).layout,
            final(self).scratch == old(self).scratch,
            final(self).answered(*old(self), cmd@, r),
            final(self).agreed@ == (old(self).agreed@ && r is Ok),
    {
        let r = self.number_for(cmd);
        proof {
            self.agreed@ = self.agreed@ && r is Ok;
        }
        r
    }

    /// Sends a command and reads the number that answers it.
    fn number_for(&mut self, cmd: &[u8]) -> (r: Result<u64, DbError>)
        ensures
            final(self).block_size == old(self).block_size,
            final(self).layout == old(self).layout,
            final(self).scratch == old(self).scratch,
            final(self).answered(*old(self), cmd@, r),
            final(self).agreed == old(self).agreed,
    {
        self.writer.write_all(cmd)?;
        self.writer.flush()?;
        let line = self.reader.read_line()?;
        match parse_number(line.as_str(), u64::MAX) {
            Some(n) => Ok(n),
            None => Err(DbError::MalformedNumber),
        }
    }

    /// Sends a command and reads the bytes that answer it.
    fn bytes_for(&mut self, cmd: &[u8], size: usize) -> (r: Result<Vec<u8>, DbError>)
        ensures
            final(self).block_size == old(self).block_size,
            final(self).layout == old(self).layout,
            final(self).scratch == old(self).scratch,
            final(self).agreed == old(self).agreed,
            match r {
                Ok(bytes) => {
                    &&& size <= old(self).pending().len()
                    &&& bytes@ == old(self).pending().take(size as int)
                    &&& final(self).pending() == old(self).pending().skip(size as int)
                    &&& final(self).written() == old(self).written() + cmd@
                    &&& final(self).passed_on() == final(self).written()
                },
                Err(e) => e == DbError::Io,
            },
            old(self).obliging() ==> {
                &&& final(self).obliging()
                &&& r is Ok <==> size <= old(self).pending().len()
                &&& final(self).written() == old(self).written() + cmd@
                &&& final(self).passed_on() == final(self).written()
            },
    {
        self.writer.write_all(cmd)?;
        self.writer.flush()?;
        self.reader.read_exact(size)
    }

    /// Sends a command and the bytes that it is about.
    fn send(&mut self, cmd: &[u8], data: &[u8]) -> (r: Result<(), DbError>)
        ensures
            final(self).block_size == old(self).block_size,
            final(self).layout == old(self).layout,
            final(self).scratch == old(self).scratch,
            final(self).agreed == old(self).agreed,
            match r {
                Ok(_) => {
                    &&& final(self).pending() == old(self).pending()
                    &&& final(self).written() == old(self).written() + cmd@ + data@
                    &&& final(self).passed_on() == final(self).written()
                },
                Err(e) => e == DbError::Io,
            },
            old(self).obliging() ==> r is Ok && final(self).obliging(),
    {
        self.writer.write_all(cmd)?;
        self.writer.write_all(data)?;
        self.writer.flush()
    }
}

/// Nothing more that was sent, and nothing that was heard, is what there was.
proof fn lemma_sizes(written: Seq<u8>, pending: Seq<u8>)
    ensures
        written + Seq::<u8>::empty() == written,
        pending.skip(0) == pending,
{
    assert(written + Seq::<u8>::empty() =~= written);
    assert(pending.skip(0) =~= pending);
}

/// The number of bytes of `count` blocks, if memory can hold them.
fn transfer_size(block_size: u64, count: u64) -> (r: Option<usize>)
    ensures
        match r {
            Some(n) => n == block_size * count,
            None => block_size * count > usize::MAX,
        },
{
    assert(block_size * count <= 0xFFFF_FFFF_FFFF_FFFF * 0xFFFF_FFFF_FFFF_FFFF) by (nonlinear_arith)
        requires
            block_size <= 0xFFFF_FFFF_FFFF_FFFF,
            count <= 0xFFFF_FFFF_FFFF_FFFF,
    ;
    let size: u128 = block_size as u128 * count as u128;
    if size > usize::MAX as u128 {
        None
    } else {
        Some(size as usize)
    }
}

} // verus!
