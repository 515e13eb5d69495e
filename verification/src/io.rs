//! Byte streams: where replies come from and where commands go.

use vstd::prelude::*;

use crate::error::DbError;
use crate::storage::row_codec::part;

verus! {

/// The bytes of the first line of `s`, its line feed included; all of `s`
/// where it has no line feed.
pub open spec fn first_line(s: Seq<u8>) -> Seq<u8>
    decreases s.len(),
{
    if s.len() == 0 {
        s
    } else if s[0] == 10 {
        s.take(1)
    } else {
        seq![s[0]] + first_line(s.skip(1))
    }
}

/// A stream of bytes to read.
pub trait Input: Sized {
    /// The bytes that are still to be read, as the stream says.
    closed spec fn pending(&self) -> Seq<u8> {
        (arbitrary::<spec_fn(Self) -> Seq<u8>>())(*self)
    }

    /// Whatever is there is read.
    open spec fn obliging(&self) -> bool {
        false
    }

    /// Reads up to and with the next line feed, or to the end. The line is
    /// handed out as a text, so it has to be UTF-8.
    fn read_line(&mut self) -> (r: Result<String, DbError>)
        ensures
            match r {
                Ok(line) => {
                    &&& vstd::utf8::valid_utf8(first_line(old(self).pending()))
                    &&& line@ == vstd::utf8::decode_utf8(first_line(old(self).pending()))
                    &&& final(self).pending() == old(self).pending().skip(
                        first_line(old(self).pending()).len() as int,
                    )
                },
                Err(e) => e == DbError::Io,
            },
            old(self).obliging() ==> {
                &&& final(self).obliging()
                &&& r is Ok <==> vstd::utf8::valid_utf8(first_line(old(self).pending()))
            },
    ;

    /// Reads `count` bytes.
    fn read_exact(&mut self, count: usize) -> (r: Result<Vec<u8>, DbError>)
        ensures
            match r {
                Ok(bytes) => {
                    &&& count <= old(self).pending().len()
                    &&& bytes@ == old(self).pending().take(count as int)
                    &&& final(self).pending() == old(self).pending().skip(count as int)
                },
                Err(e) => e == DbError::Io,
            },
            old(self).obliging() ==> {
                &&& final(self).obliging()
                &&& r is Ok <==> count <= old(self).pending().len()
            },
    ;
}

/// A stream of bytes to write.
pub trait Output: Sized {
    /// The bytes that were written, as the stream says.
    closed spec fn written(&self) -> Seq<u8> {
        (arbitrary::<spec_fn(Self) -> Seq<u8>>())(*self)
    }

    /// Those of the bytes that are not held back.
    closed spec fn passed_on(&self) -> Seq<u8> {
        (arbitrary::<spec_fn(Self) -> Seq<u8>>())(*self)
    }

    /// Whatever comes is taken.
    open spec fn obliging(&self) -> bool {
        false
    }

    /// Writes all of `bytes`.
    fn write_all(&mut self, bytes: &[u8]) -> (r: Result<(), DbError>)
        ensures
            match r {
                Ok(_) => final(self).written() == old(self).written() + bytes@,
                Err(e) => e == DbError::Io,
            },
            old(self).obliging() ==> r is Ok && final(self).obliging(),
    ;

    /// Passes on what is held back.
    fn flush(&mut self) -> (r: Result<(), DbError>)
        ensures
            match r {
                Ok(_) => {
                    &&& final(self).written() == old(self).written()
                    &&& final(self).passed_on() == final(self).written()
                },
                Err(e) => e == DbError::Io,
            },
            old(self).obliging() ==> r is Ok && final(self).obliging(),
    ;
}

/// Bytes in memory, read from the start.
#[derive(Debug)]
pub struct MemoryInput {
    bytes: Vec<u8>,
    position: usize,
}

impl MemoryInput {
    #[verifier::type_invariant]
    spec fn wf(self) -> bool {
        self.position <= self.bytes@.len()
    }

    /// A stream of these bytes.
    pub fn new(bytes: Vec<u8>) -> (r: MemoryInput)
        ensures
            r.pending() == bytes@,
    {
        assert(bytes@.skip(0) == bytes@);
        MemoryInput { bytes, position: 0 }
    }
}

/// A line ends at its first line feed.
proof fn lemma_first_line(s: Seq<u8>, n: int)
    requires
        0 <= n <= s.len(),
        forall|i: int| 0 <= i < n ==> #[trigger] s[i] != 10,
        n == s.len() || s[n] == 10,
    ensures
        first_line(s) == if n == s.len() {
            s
        } else {
            s.take(n + 1)
        },
    decreases s.len(),
{
    if s.len() > 0 && s[0] != 10 {
        let rest = s.skip(1);
        assert forall|i: int| 0 <= i < n - 1 implies #[trigger] rest[i] != 10 by {
            assert(s[i + 1] != 10);
        }
        lemma_first_line(rest, n - 1);
        if n == s.len() {
            assert(seq![s[0]] + rest == s);
        } else {
            assert(seq![s[0]] + rest.take(n) == s.take(n + 1));
        }
    }
}

impl Input for MemoryInput {
    closed spec fn pending(&self) -> Seq<u8> {
        self.bytes@.skip(self.position as int)
    }

    open spec fn obliging(&self) -> bool {
        true
    }

    fn read_line(&mut self) -> (r: Result<String, DbError>)
        ensures
            r is Ok <==> vstd::utf8::valid_utf8(first_line(old(self).pending())),
    {
        proof {
            use_type_invariant(&*self);
        }
        let start: usize = self.position;
        let len: usize = self.bytes.len();
        let ghost rest = self.bytes@.skip(start as int);
        let mut end: usize = start;
        while end < len && self.bytes[end] != 10
            invariant
                start <= end <= len,
                len == self.bytes@.len(),
                rest == self.bytes@.skip(start as int),
                forall|i: int| 0 <= i < end - start ==> #[trigger] rest[i] != 10,
            decreases len - end,
        {
            assert(rest[end - start] == self.bytes@[end as int]);
            end = end + 1;
        }
        proof {
            lemma_first_line(rest, end - start);
            assert(end < len ==> rest[end - start] == self.bytes@[end as int]);
        }
        if end < len {
            end = end + 1;
        }
        assert(self.bytes@.subrange(start as int, end as int) == first_line(rest));
        match crate::storage::row_codec::text_of(part(self.bytes.as_slice(), start, end)) {
            Some(line) => {
                self.position = end;
                assert(self.bytes@.skip(end as int) == rest.skip(end - start));
                Ok(line)
            },
            None => Err(DbError::Io),
        }
    }

    fn read_exact(&mut self, count: usize) -> (r: Result<Vec<u8>, DbError>)
        ensures
            r is Ok <==> count <= old(self).pending().len(),
    {
        proof {
            use_type_invariant(&*self);
        }
        let start: usize = self.position;
        let len: usize = self.bytes.len();
        if count > len - start {
            return Err(DbError::Io);
        }
        let mut out: Vec<u8> = Vec::new();
        let mut i: usize = 0;
        while i < count
            invariant
                i <= count,
                start + count <= len,
                len == self.bytes@.len(),
                out@ == self.bytes@.subrange(start as int, start + i),
            decreases count - i,
        {
            out.push(self.bytes[start + i]);
            assert(self.bytes@.subrange(start as int, start + i + 1) == self.bytes@.subrange(
                start as int,
                start + i,
            ).push(self.bytes@[start + i]));
            i = i + 1;
        }
        proof {
            let rest = self.bytes@.skip(start as int);
            assert(out@ == rest.take(count as int));
            assert(self.bytes@.skip(start + count) == rest.skip(count as int));
        }
        self.position = start + count;
        Ok(out)
    }
}

/// Bytes in memory, collected as they are written.
#[derive(Debug)]
pub struct MemoryOutput {
    bytes: Vec<u8>,
}

impl MemoryOutput {
    /// A stream to which nothing was written.
    pub fn new() -> (r: MemoryOutput)
        ensures
            r.written() == Seq::<u8>::empty(),
    {
        MemoryOutput { bytes: Vec::new() }
    }

    /// The bytes that were written.
    pub fn bytes(&self) -> (r: &Vec<u8>)
        ensures
            r@ == self.written(),
    {
        &self.bytes
    }
}

impl Output for MemoryOutput {
    closed spec fn written(&self) -> Seq<u8> {
        self.bytes@
    }

    closed spec fn passed_on(&self) -> Seq<u8> {
        self.bytes@
    }

    open spec fn obliging(&self) -> bool {
        true
    }

    fn write_all(&mut self, bytes: &[u8]) -> (r: Result<(), DbError>)
        ensures
            r is Ok,
    {
        push_bytes(&mut self.bytes, bytes);
        Ok(())
    }

    fn flush(&mut self) -> (r: Result<(), DbError>)
        ensures
            r is Ok,
    {
        Ok(())
    }
}

/// Appends `bytes`.
pub fn push_bytes(buf: &mut Vec<u8>, bytes: &[u8])
    ensures
        final(buf)@ == old(buf)@ + bytes@,
{
    let ghost start = buf@;
    let mut i: usize = 0;
    while i < bytes.len()
        invariant
            i <= bytes@.len(),
            buf@ == start + bytes@.take(i as int),
        decreases bytes@.len() - i,
    {
        buf.push(bytes[i]);
        assert(bytes@.take(i + 1) == bytes@.take(i as int).push(bytes@[i as int]));
        i = i + 1;
    }
    assert(bytes@.take(i as int) == bytes@);
}

} // verus!
