//! The encoder and the framer.
//!
//! `encode` turns one payload into one wire frame. `Framer` consumes a byte
//! stream chunk by chunk, in whatever pieces the transport delivers it, and
//! emits exactly the complete messages the stream holds, in order.

use crate::wire::{
    be32_bytes, be32_value, frame_of, lemma_be32_bytes_of_value, lemma_be32_value_of_bytes,
    messages_of, residual_of, MAX_PAYLOAD_LEN, PREFIX_LEN,
};
use vstd::prelude::*;

verus! {

/// Failure of `encode`.
#[derive(Clone, Copy, Debug, PartialEq, Eq, Structural)]
pub enum EncodeError {
    /// The payload's length does not fit the 32-bit length prefix.
    MessageTooLarge,
}

/// Encodes `message` as one wire frame: the payload's length as four
/// big-endian bytes, then the payload itself. Pure; fails exactly when the
/// length does not fit 32 bits.
pub fn encode(message: &[u8]) -> (r: Result<Vec<u8>, EncodeError>)
    ensures
        message@.len() < 0x1_0000_0000 ==> (r matches Ok(f) && f@ == frame_of(message@)),
        message@.len() >= 0x1_0000_0000 ==> (r matches Err(e) && e
            == EncodeError::MessageTooLarge),
{
    if message.len() as u64 > MAX_PAYLOAD_LEN {
        return Err(EncodeError::MessageTooLarge);
    }
    let len: u32 = message.len() as u32;
    let mut frame: Vec<u8> = Vec::new();
    frame.push((len / 0x100_0000) as u8);
    frame.push((len / 0x1_0000 % 0x100) as u8);
    frame.push((len / 0x100 % 0x100) as u8);
    frame.push((len % 0x100) as u8);
    assert(frame@ =~= be32_bytes(message@.len()));
    let mut i: usize = 0;
    while i < message.len()
        invariant
            i <= message@.len(),
            frame@ == be32_bytes(message@.len()) + message@.subrange(0, i as int),
        decreases message@.len() - i,
    {
        frame.push(message[i]);
        assert(frame@ =~= be32_bytes(message@.len()) + message@.subrange(0, i + 1));
        i = i + 1;
    }
    assert(frame@ =~= frame_of(message@));
    Ok(frame)
}

/// The payload sequences held by a vector of messages.
pub open spec fn views_of(msgs: Seq<Vec<u8>>) -> Seq<Seq<u8>> {
    msgs.map_values(|m: Vec<u8>| m@)
}

/// Decoding position within the current frame.
#[derive(Clone, Copy, Debug)]
pub enum Mode {
    /// Fewer than four bytes of the length prefix have arrived.
    AwaitingLength,
    /// The prefix announced this many payload bytes; not all have arrived.
    AwaitingBody(u32),
}

/// The byte stream that decoding state `mode` stands for, at offset `pos` of
/// `buf`: the length prefix already consumed from the buffer (if any),
/// followed by the bytes not yet consumed.
pub open spec fn pending_stream(mode: Mode, buf: Seq<u8>, pos: int) -> Seq<u8> {
    match mode {
        Mode::AwaitingLength => buf.subrange(pos, buf.len() as int),
        Mode::AwaitingBody(l) => be32_bytes(l as nat) + buf.subrange(pos, buf.len() as int),
    }
}

/// Ranks `AwaitingBody` above `AwaitingLength` for termination of the decode
/// loop: parsing a zero-length body consumes no bytes, only the mode changes.
spec fn mode_rank(mode: Mode) -> int {
    match mode {
        Mode::AwaitingLength => 0,
        Mode::AwaitingBody(_) => 1,
    }
}

/// Per-connection reassembly state: a buffer of bytes not yet consumed into a
/// complete message, and the position within the current frame. Exclusively
/// owned by one connection; `feed` is its only mutator.
pub struct Framer {
    /// Bytes received but not yet consumed into a completed message.
    pub buf: Vec<u8>,
    /// Whether the current frame's length prefix has been parsed.
    pub mode: Mode,
}

impl Framer {
    /// Well-formed: decoding has run to a fixpoint, so the buffer is too
    /// short to complete the current prefix or body.
    pub open spec fn wf(self) -> bool {
        match self.mode {
            Mode::AwaitingLength => self.buf@.len() < 4,
            Mode::AwaitingBody(l) => self.buf@.len() < l as int,
        }
    }

    /// The undecoded byte stream this state stands for: the length prefix
    /// already parsed (if any), followed by the buffered bytes.
    pub open spec fn stream(self) -> Seq<u8> {
        pending_stream(self.mode, self.buf@, 0)
    }

    /// A fresh framer: empty buffer, awaiting a length prefix.
    pub fn new() -> (f: Framer)
        ensures
            f.wf(),
            f.stream() == Seq::<u8>::empty(),
    {
        let f = Framer { buf: Vec::new(), mode: Mode::AwaitingLength };
        proof {
            assert(f.stream() =~= Seq::<u8>::empty());
        }
        f
    }

    /// Appends `chunk` to the buffer, then consumes every frame that is now
    /// complete, in order. Returns exactly the messages completed by this
    /// call; never blocks, never re-emits, never drops buffered bytes. The
    /// new state stands for precisely the bytes left after those messages.
    pub fn feed(&mut self, chunk: &[u8]) -> (msgs: Vec<Vec<u8>>)
        requires
            old(self).wf(),
        ensures
            final(self).wf(),
            views_of(msgs@) == messages_of(old(self).stream() + chunk@),
            final(self).stream() == residual_of(old(self).stream() + chunk@),
    {
        let ghost s0 = old(self).stream() + chunk@;
        let mut i: usize = 0;
        while i < chunk.len()
            invariant
                i <= chunk@.len(),
                self.buf@ == old(self).buf@ + chunk@.subrange(0, i as int),
                self.mode == old(self).mode,
            decreases chunk@.len() - i,
        {
            self.buf.push(chunk[i]);
            assert(self.buf@ =~= old(self).buf@ + chunk@.subrange(0, i + 1));
            i = i + 1;
        }
        proof {
            assert(chunk@.subrange(0, chunk@.len() as int) =~= chunk@);
            assert(pending_stream(self.mode, self.buf@, 0) =~= s0);
        }
        let mut msgs: Vec<Vec<u8>> = Vec::new();
        let mut pos: usize = 0;
        let mut done = false;
        while !done
            invariant
                pos <= self.buf@.len(),
                messages_of(s0) == views_of(msgs@) + messages_of(
                    pending_stream(self.mode, self.buf@, pos as int),
                ),
                residual_of(s0) == residual_of(pending_stream(self.mode, self.buf@, pos as int)),
                done ==> (match self.mode {
                    Mode::AwaitingLength => self.buf@.len() - pos < 4,
                    Mode::AwaitingBody(l) => self.buf@.len() - pos < l as int,
                }),
            decreases (self.buf@.len() - pos) * 2 + mode_rank(self.mode) + (if done {
                0int
            } else {
                1int
            }),
        {
            let ghost p = pending_stream(self.mode, self.buf@, pos as int);
            match self.mode {
                Mode::AwaitingLength => {
                    if self.buf.len() - pos < PREFIX_LEN {
                        done = true;
                    } else {
                        let b0 = self.buf[pos];
                        let b1 = self.buf[pos + 1];
                        let b2 = self.buf[pos + 2];
                        let b3 = self.buf[pos + 3];
                        let l: u32 = (b0 as u32) * 0x100_0000 + (b1 as u32) * 0x1_0000 + (
                        b2 as u32) * 0x100 + (b3 as u32);
                        proof {
                            assert(p[0] == b0 && p[1] == b1 && p[2] == b2 && p[3] == b3);
                            assert(be32_value(p) == l as nat);
                            lemma_be32_bytes_of_value(p);
                            assert(pending_stream(Mode::AwaitingBody(l), self.buf@, pos + 4) =~= p);
                        }
                        self.mode = Mode::AwaitingBody(l);
                        pos = pos + 4;
                    }
                },
                Mode::AwaitingBody(l) => {
                    let need = l as usize;
                    if self.buf.len() - pos < need {
                        done = true;
                    } else {
                        let blen: usize = self.buf.len();
                        let mut msg: Vec<u8> = Vec::new();
                        let mut j: usize = 0;
                        while j < need
                            invariant
                                j <= need,
                                pos + need <= self.buf@.len(),
                                self.buf@.len() == blen,
                                msg@ == self.buf@.subrange(pos as int, pos as int + j as int),
                            decreases need - j,
                        {
                            msg.push(self.buf[pos + j]);
                            assert(msg@ =~= self.buf@.subrange(pos as int, pos as int + j + 1));
                            j = j + 1;
                        }
                        proof {
                            lemma_be32_value_of_bytes(l as nat);
                            assert(forall|k: int|
                                0 <= k < 4 ==> p[k] == be32_bytes(l as nat)[k]);
                            assert(be32_value(p) == l as nat);
                            assert(p.len() == 4 + self.buf@.len() - pos);
                            assert(p.subrange(4, 4 + l as int) =~= msg@);
                            assert(p.subrange(4 + l as int, p.len() as int) =~= pending_stream(
                                Mode::AwaitingLength,
                                self.buf@,
                                pos as int + need as int,
                            ));
                            assert(messages_of(p) == seq![msg@] + messages_of(
                                pending_stream(
                                    Mode::AwaitingLength,
                                    self.buf@,
                                    pos as int + need as int,
                                ),
                            ));
                            assert(views_of(msgs@.push(msg)) =~= views_of(msgs@) + seq![msg@]);
                            assert(views_of(msgs@.push(msg)) + messages_of(
                                pending_stream(
                                    Mode::AwaitingLength,
                                    self.buf@,
                                    pos as int + need as int,
                                ),
                            ) =~= views_of(msgs@) + messages_of(p));
                        }
                        msgs.push(msg);
                        self.mode = Mode::AwaitingLength;
                        pos = pos + need;
                    }
                },
            }
        }
        let ghost pend = pending_stream(self.mode, self.buf@, pos as int);
        proof {
            match self.mode {
                Mode::AwaitingLength => {
                    assert(pend.len() < 4);
                },
                Mode::AwaitingBody(l) => {
                    lemma_be32_value_of_bytes(l as nat);
                    assert(forall|k: int| 0 <= k < 4 ==> pend[k] == be32_bytes(l as nat)[k]);
                    assert(be32_value(pend) == l as nat);
                    assert(pend.len() < 4 + l as int);
                },
            }
            assert(messages_of(pend) =~= Seq::<Seq<u8>>::empty());
            assert(residual_of(pend) == pend);
            assert(views_of(msgs@) + messages_of(pend) =~= views_of(msgs@));
        }
        let mut rest: Vec<u8> = Vec::new();
        let mut j: usize = pos;
        while j < self.buf.len()
            invariant
                pos <= j <= self.buf@.len(),
                rest@ == self.buf@.subrange(pos as int, j as int),
            decreases self.buf@.len() - j,
        {
            rest.push(self.buf[j]);
            assert(rest@ =~= self.buf@.subrange(pos as int, j + 1));
            j = j + 1;
        }
        proof {
            assert(rest@ =~= self.buf@.subrange(pos as int, self.buf@.len() as int));
        }
        self.buf = rest;
        proof {
            assert(self.stream() =~= pend);
        }
        msgs
    }

    /// True when the frame being awaited announces a payload longer than
    /// `max_len`. A driver that bounds its memory checks this after each
    /// `feed` and closes the connection instead of buffering the payload.
    pub fn oversized(&self, max_len: u32) -> (r: bool)
        ensures
            r == (match self.mode {
                Mode::AwaitingLength => false,
                Mode::AwaitingBody(l) => l > max_len,
            }),
    {
        match self.mode {
            Mode::AwaitingLength => false,
            Mode::AwaitingBody(l) => l > max_len,
        }
    }
}

} // verus!
