//! The passive byte source under the metadata reader: a cursor over a fixed
//! byte content offering blocking read and seek, together with a verified
//! in-memory implementation.

use vstd::prelude::*;

verus! {

/// Errors returned by reads and seeks on an icy stream.
#[derive(Debug, Clone, Copy, PartialEq, Eq)]
pub enum StreamError {
    /// The underlying byte source failed.
    Source,
    /// The stream ended inside a metadata frame.
    UnexpectedEof,
    /// Seeking relative to the end of the stream is unsupported.
    SeekFromEnd,
    /// A backward seek reached past the retained frame-size history.
    InsufficientHistory,
    /// The requested position is negative or too large to represent.
    InvalidPosition,
}

/// Where a seek puts the cursor.
#[derive(Debug, Clone, Copy, PartialEq, Eq)]
pub enum SeekPos {
    /// An absolute offset from the start of the stream.
    Start(u64),
    /// A signed offset from the current position.
    Current(i64),
    /// A signed offset from the end of the stream; unsupported by the
    /// metadata reader, since the audio length cannot be known.
    End(i64),
}

/// The number of bytes a read of `max` bytes at `pos` yields from a source
/// of `len` bytes: all that remain, at most `max`.
pub open spec fn read_amount(len: int, pos: int, max: int) -> int {
    if pos >= len {
        0
    } else if max <= len - pos {
        max
    } else {
        len - pos
    }
}

/// A passive byte source: a cursor over fixed contents. A read yields
/// exactly the remaining bytes, up to the requested amount; a seek moves
/// the cursor, past the end included. An implementation that fails returns
/// its error with the cursor and contents unchanged.
pub trait ByteSource: Sized {
    /// The bytes the source ranges over.
    spec fn contents(&self) -> Seq<u8>;

    /// The cursor: the offset at which the next read starts.
    spec fn spos(&self) -> int;

    /// Reads up to `max` bytes at the cursor, advancing it by the bytes
    /// read.
    fn read_bytes(&mut self, max: usize) -> (r: Result<Vec<u8>, StreamError>)
        requires
            old(self).spos() >= 0,
        ensures
            match r {
                Ok(chunk) => {
                    &&& final (self).contents() == old(self).contents()
                    &&& chunk@.len() == read_amount(
                        old(self).contents().len() as int,
                        old(self).spos(),
                        max as int,
                    )
                    &&& final (self).spos() == old(self).spos() + chunk@.len()
                    &&& (old(self).spos() <= old(self).contents().len() ==> chunk@ == old(
                        self,
                    ).contents().subrange(old(self).spos(), old(self).spos() + chunk@.len()))
                },
                Err(_) => final (self).contents() == old(self).contents() && final (self).spos()
                    == old(self).spos(),
            },
    ;

    /// Moves the cursor to the absolute offset `target`.
    fn seek_to(&mut self, target: u64) -> (r: Result<(), StreamError>)
        ensures
            match r {
                Ok(_) => final (self).contents() == old(self).contents() && final (self).spos()
                    == target as int,
                Err(_) => final (self).contents() == old(self).contents() && final (self).spos()
                    == old(self).spos(),
            },
    ;

    /// The cursor's current offset.
    fn position(&self) -> (r: u64)
        requires
            0 <= self.spos() <= u64::MAX,
        ensures
            r as int == self.spos(),
    ;
}

/// A byte source over an in-memory byte vector, with the cursor starting
/// at offset zero.
pub struct MemorySource {
    data: Vec<u8>,
    pos: u64,
}

impl MemorySource {
    /// A source ranging over `data`, cursor at the start.
    pub fn new(data: Vec<u8>) -> (r: MemorySource)
        ensures
            r.contents() == data@,
            r.spos() == 0,
    {
        MemorySource { data, pos: 0 }
    }
}

impl ByteSource for MemorySource {
    closed spec fn contents(&self) -> Seq<u8> {
        self.data@
    }

    closed spec fn spos(&self) -> int {
        self.pos as int
    }

    fn read_bytes(&mut self, max: usize) -> (r: Result<Vec<u8>, StreamError>) {
        let len = self.data.len();
        if self.pos >= len as u64 {
            let chunk: Vec<u8> = Vec::new();
            return Ok(chunk);
        }
        let start: usize = self.pos as usize;
        let avail = len - start;
        let k = if max <= avail {
            max
        } else {
            avail
        };
        let mut chunk: Vec<u8> = Vec::new();
        let mut j: usize = 0;
        while j < k
            invariant
                len == self.data@.len(),
                start + k <= len,
                j <= k,
                chunk@ == self.data@.subrange(start as int, start + j),
            decreases k - j,
        {
            chunk.push(self.data[start + j]);
            j += 1;
            proof {
                assert(chunk@ =~= self.data@.subrange(start as int, start + j));
            }
        }
        self.pos = self.pos + k as u64;
        Ok(chunk)
    }

    fn seek_to(&mut self, target: u64) -> (r: Result<(), StreamError>) {
        self.pos = target;
        Ok(())
    }

    fn position(&self) -> (r: u64) {
        self.pos
    }
}

} // verus!
