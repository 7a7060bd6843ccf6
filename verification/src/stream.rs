//! Where request bytes come from.  The server reads connections through
//! this trait one byte at a time; the surrounding program implements it
//! for its sockets, and tests implement it for byte buffers.  Nothing is
//! assumed of a source: every outcome of a read is handled.

use vstd::prelude::*;

verus! {

/// A source of bytes: a connection, or a buffer standing in for one.
pub trait ByteSource {
    /// The next byte, or nothing when the source has ended or failed.
    fn read_byte(&mut self) -> (r: Option<u8>);
}

/// A sink of bytes: a connection, or a buffer standing in for one.
pub trait ByteSink {
    /// Writes all the bytes; reports whether the sink took them.
    fn write_bytes(&mut self, bytes: &[u8]) -> (r: bool);
}

/// A byte buffer read as a source, front to back.
pub struct BufSource {
    pub data: Vec<u8>,
    pub pos: usize,
}

impl BufSource {
    pub fn new(data: Vec<u8>) -> (r: BufSource)
        ensures
            r.data == data,
            r.pos == 0,
    {
        BufSource { data: data, pos: 0 }
    }
}

impl ByteSource for BufSource {
    fn read_byte(&mut self) -> (r: Option<u8>) {
        if self.pos < self.data.len() {
            let b = self.data[self.pos];
            self.pos = self.pos + 1;
            Some(b)
        } else {
            None
        }
    }
}

/// A growing buffer written as a sink.
pub struct BufSink {
    pub data: Vec<u8>,
}

impl BufSink {
    pub fn new() -> (r: BufSink)
        ensures
            r.data@ =~= Seq::<u8>::empty(),
    {
        BufSink { data: Vec::new() }
    }
}

impl ByteSink for BufSink {
    fn write_bytes(&mut self, bytes: &[u8]) -> (r: bool) {
        let mut i: usize = 0;
        while i < bytes.len()
            invariant
                0 <= i <= bytes@.len(),
            decreases bytes@.len() - i,
        {
            self.data.push(bytes[i]);
            i += 1;
        }
        true
    }
}

} // verus!
