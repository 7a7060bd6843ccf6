//! WebSocket streams: framing for messages sent to a client, reading of
//! masked client frames, and the close frame owed to the peer when the
//! stream is released.  The transport is any byte source and sink; the
//! frame bytes written for a message are stated exactly.

use vstd::prelude::*;

use crate::stream::{ByteSink, ByteSource};

verus! {

/// Why a WebSocket read or write failed, or that the peer closed.
#[derive(Clone, Copy, PartialEq, Eq, Structural, Debug)]
pub enum WebsocketError {
    ConnectionClosed,
    ReadError,
    WriteError,
}

/// One WebSocket message: its payload bytes.
pub struct Message {
    pub payload: Vec<u8>,
}

/// The frame a payload is sent in: a final text frame, unmasked, with
/// the 7-bit, 16-bit or 64-bit length encoding its size asks for.
pub open spec fn frame_bytes(p: Seq<u8>) -> Seq<u8> {
    if p.len() < 126 {
        seq![129u8, p.len() as u8] + p
    } else if p.len() <= 0xFFFF {
        seq![129u8, 126u8, (p.len() / 256) as u8, (p.len() % 256) as u8] + p
    } else {
        seq![
            129u8,
            127u8,
            ((p.len() as int / 0x100000000000000) % 256) as u8,
            ((p.len() as int / 0x1000000000000) % 256) as u8,
            ((p.len() as int / 0x10000000000) % 256) as u8,
            ((p.len() as int / 0x100000000) % 256) as u8,
            ((p.len() as int / 0x1000000) % 256) as u8,
            ((p.len() as int / 0x10000) % 256) as u8,
            ((p.len() as int / 0x100) % 256) as u8,
            (p.len() as int % 256) as u8,
        ] + p
    }
}

/// The close frame written when a stream is released: opcode eight,
/// empty payload, unmasked.
pub open spec fn close_frame() -> Seq<u8> {
    seq![136u8, 0u8]
}

/// Builds exactly the close frame.
pub fn close_frame_bytes() -> (r: Vec<u8>)
    ensures
        r@ == close_frame(),
{
    let mut frame: Vec<u8> = Vec::new();
    frame.push(136u8);
    frame.push(0u8);
    proof {
        assert(frame@ =~= close_frame());
    }
    frame
}

impl Message {
    pub fn new(payload: Vec<u8>) -> (r: Message)
        ensures
            r.payload == payload,
    {
        Message { payload: payload }
    }

    /// The exact bytes this message goes on the wire as.
    pub fn to_bytes(&self) -> (r: Vec<u8>)
        ensures
            r@ == frame_bytes(self.payload@),
    {
        let mut out: Vec<u8> = Vec::new();
        out.push(129u8);
        let n = self.payload.len();
        if n < 126 {
            out.push(n as u8);
        } else if n <= 0xFFFF {
            out.push(126u8);
            out.push((n / 256) as u8);
            out.push((n % 256) as u8);
        } else {
            out.push(127u8);
            out.push(((n as u64 / 0x100000000000000u64) % 256) as u8);
            out.push(((n as u64 / 0x1000000000000u64) % 256) as u8);
            out.push(((n as u64 / 0x10000000000u64) % 256) as u8);
            out.push(((n as u64 / 0x100000000u64) % 256) as u8);
            out.push(((n as u64 / 0x1000000u64) % 256) as u8);
            out.push(((n as u64 / 0x10000u64) % 256) as u8);
            out.push(((n as u64 / 0x100u64) % 256) as u8);
            out.push((n as u64 % 256) as u8);
        }
        let ghost head = out@;
        let mut i: usize = 0;
        while i < self.payload.len()
            invariant
                0 <= i <= self.payload@.len(),
                out@ == head + self.payload@.take(i as int),
            decreases self.payload@.len() - i,
        {
            out.push(self.payload[i]);
            proof {
                assert(out@ =~= head + self.payload@.take(i + 1));
            }
            i += 1;
        }
        proof {
            assert(self.payload@.take(self.payload@.len() as int) =~= self.payload@);
            assert(out@ =~= frame_bytes(self.payload@));
        }
        out
    }
}

/// A WebSocket stream over a transport: when it is released without the
/// peer having closed, it owes the peer a close frame.
pub struct WebsocketStream<T: ByteSource + ByteSink> {
    pub stream: T,
    pub closed: bool,
}

impl<T: ByteSource + ByteSink> WebsocketStream<T> {
    /// Wraps a transport, usually a connection.
    pub fn new(stream: T) -> (r: WebsocketStream<T>)
        ensures
            r.stream == stream,
            !r.closed,
    {
        WebsocketStream { stream: stream, closed: false }
    }

    /// Reads one frame from the peer.  A close frame marks the stream
    /// closed and reports the connection closed; a frame cut short is a
    /// read error.  Masked payloads are unmasked.  Nothing but a close
    /// frame moves the closed flag.
    pub fn recv(&mut self) -> (r: Result<Message, WebsocketError>)
        ensures
            r matches Err(e) && e == WebsocketError::ConnectionClosed ==> final(self).closed,
            !(r matches Err(e2) && e2 == WebsocketError::ConnectionClosed) ==> final(self).closed
                == old(self).closed,
    {
        let b0 = match self.stream.read_byte() {
            Some(b) => b,
            None => {
                return Err(WebsocketError::ReadError);
            },
        };
        let opcode = b0 % 16;
        if opcode == 8 {
            self.closed = true;
            return Err(WebsocketError::ConnectionClosed);
        }
        let b1 = match self.stream.read_byte() {
            Some(b) => b,
            None => {
                return Err(WebsocketError::ReadError);
            },
        };
        let masked = b1 >= 128;
        let len7 = b1 % 128;
        let len: u64 = if len7 < 126 {
            len7 as u64
        } else if len7 == 126 {
            let mut v: u64 = 0;
            let mut k: usize = 0;
            while k < 2
                invariant
                    self.closed == old(self).closed,
                    v <= 0xFFFF,
                decreases 2 - k,
            {
                let b = match self.stream.read_byte() {
                    Some(b) => b,
                    None => {
                        return Err(WebsocketError::ReadError);
                    },
                };
                v = (v % 256) * 256 + (b as u64);
                k += 1;
            }
            v
        } else {
            let mut v: u64 = 0;
            let mut k: usize = 0;
            while k < 8
                invariant
                    self.closed == old(self).closed,
                    v <= 0xFFFF_FFFF_FFFF_FFFFu64,
                decreases 8 - k,
            {
                let b = match self.stream.read_byte() {
                    Some(b) => b,
                    None => {
                        return Err(WebsocketError::ReadError);
                    },
                };
                v = (v % 0x100000000000000u64) * 256 + (b as u64);
                k += 1;
            }
            v
        };
        let mut key: Vec<u8> = Vec::new();
        if masked {
            let mut k: usize = 0;
            while k < 4
                invariant
                    self.closed == old(self).closed,
                    0 <= k <= 4,
                    key@.len() == k,
                decreases 4 - k,
            {
                let b = match self.stream.read_byte() {
                    Some(b) => b,
                    None => {
                        return Err(WebsocketError::ReadError);
                    },
                };
                key.push(b);
                k += 1;
            }
        }
        let mut payload: Vec<u8> = Vec::new();
        let mut k: u64 = 0;
        while k < len
            invariant
                self.closed == old(self).closed,
                masked ==> key@.len() == 4,
                0 <= k <= len,
            decreases len - k,
        {
            let b = match self.stream.read_byte() {
                Some(b) => b,
                None => {
                    return Err(WebsocketError::ReadError);
                },
            };
            if masked {
                let ki = (k % 4) as usize;
                payload.push(b ^ key[ki]);
            } else {
                payload.push(b);
            }
            k += 1;
        }
        Ok(Message { payload: payload })
    }

    /// Sends a message to the peer as one frame.
    pub fn send(&mut self, message: Message) -> (r: Result<(), WebsocketError>)
        ensures
            final(self).closed == old(self).closed,
    {
        let bytes = message.to_bytes();
        if self.stream.write_bytes(bytes.as_slice()) {
            Ok(())
        } else {
            Err(WebsocketError::WriteError)
        }
    }

    /// A mutable borrow of the underlying transport.
    pub fn inner(&mut self) -> (r: &mut T)
        ensures
            *r == old(self).stream,
            *final(self) == (WebsocketStream { stream: *final(r), ..*old(self) }),
    {
        &mut self.stream
    }

    /// Closes the stream by hand: writes the close frame, best effort,
    /// and marks the stream closed.  A `Drop` impl would have to promise
    /// never to unwind, which building and writing the frame cannot, so
    /// the verifier refuses it: a stream released without this call
    /// sends no frame.
    pub fn close(&mut self)
        ensures
            final(self).closed,
    {
        let frame = close_frame_bytes();
        let _ = self.stream.write_bytes(frame.as_slice());
        self.closed = true;
    }
}

} // verus!
