//! Byte-level model of the wire format.
//!
//! A frame is `LENGTH (4 bytes, big-endian, unsigned) || PAYLOAD (LENGTH
//! bytes)`. This module defines the big-endian length prefix, the frame of a
//! payload, and the meaning of an arbitrary byte stream: which complete
//! messages it holds (`messages_of`) and which bytes are left over once those
//! are consumed (`residual_of`).

use vstd::prelude::*;

verus! {

/// Number of bytes in the length prefix of a frame.
pub const PREFIX_LEN: usize = 4;

/// Largest payload length that fits the 32-bit length prefix.
pub const MAX_PAYLOAD_LEN: u64 = 0xffff_ffff;

/// The first four bytes of `s`, read as a big-endian unsigned 32-bit integer.
pub open spec fn be32_value(s: Seq<u8>) -> nat
    recommends
        s.len() >= 4,
{
    (s[0] as nat) * 0x100_0000 + (s[1] as nat) * 0x1_0000 + (s[2] as nat) * 0x100 + (s[3] as nat)
}

/// The four-byte big-endian encoding of `n`.
pub open spec fn be32_bytes(n: nat) -> Seq<u8>
    recommends
        n < 0x1_0000_0000,
{
    seq![
        (((n / 0x100_0000) % 0x100) as u8),
        (((n / 0x1_0000) % 0x100) as u8),
        (((n / 0x100) % 0x100) as u8),
        ((n % 0x100) as u8),
    ]
}

/// The wire frame of payload `m`: its length, big-endian, then `m` itself.
pub open spec fn frame_of(m: Seq<u8>) -> Seq<u8>
    recommends
        m.len() < 0x1_0000_0000,
{
    be32_bytes(m.len()) + m
}

/// The four big-endian digits of `a * 2^24 + b * 2^16 + c * 2^8 + d` are
/// exactly `a`, `b`, `c`, `d`.
proof fn lemma_be32_digits(a: nat, b: nat, c: nat, d: nat)
    requires
        a < 0x100,
        b < 0x100,
        c < 0x100,
        d < 0x100,
    ensures
        (a * 0x100_0000 + b * 0x1_0000 + c * 0x100 + d) / 0x100_0000 % 0x100 == a,
        (a * 0x100_0000 + b * 0x1_0000 + c * 0x100 + d) / 0x1_0000 % 0x100 == b,
        (a * 0x100_0000 + b * 0x1_0000 + c * 0x100 + d) / 0x100 % 0x100 == c,
        (a * 0x100_0000 + b * 0x1_0000 + c * 0x100 + d) % 0x100 == d,
{
    let v = a * 0x100_0000 + b * 0x1_0000 + c * 0x100 + d;
    assert(v / 0x100_0000 == a && v / 0x1_0000 == a * 0x100 + b && v / 0x100 == a * 0x1_0000 + b
        * 0x100 + c && v % 0x100 == d) by (nonlinear_arith)
        requires
            a < 0x100,
            b < 0x100,
            c < 0x100,
            d < 0x100,
            v == a * 0x100_0000 + b * 0x1_0000 + c * 0x100 + d,
    ;
    assert((a * 0x100 + b) % 0x100 == b) by (nonlinear_arith)
        requires
            b < 0x100,
    ;
    assert((a * 0x1_0000 + b * 0x100 + c) % 0x100 == c) by (nonlinear_arith)
        requires
            c < 0x100,
    ;
}

/// Reading back the four-byte encoding of `n` yields `n`.
pub proof fn lemma_be32_value_of_bytes(n: nat)
    requires
        n < 0x1_0000_0000,
    ensures
        be32_value(be32_bytes(n)) == n,
{
    let a = n / 0x100_0000 % 0x100;
    let b = n / 0x1_0000 % 0x100;
    let c = n / 0x100 % 0x100;
    let d = n % 0x100;
    assert(a * 0x100_0000 + b * 0x1_0000 + c * 0x100 + d == n) by (nonlinear_arith)
        requires
            n < 0x1_0000_0000,
            a == n / 0x100_0000 % 0x100,
            b == n / 0x1_0000 % 0x100,
            c == n / 0x100 % 0x100,
            d == n % 0x100,
    ;
}

/// Encoding the value read from the first four bytes of `s` gives those four
/// bytes back.
pub proof fn lemma_be32_bytes_of_value(s: Seq<u8>)
    requires
        s.len() >= 4,
    ensures
        be32_bytes(be32_value(s)) == s.subrange(0, 4),
{
    lemma_be32_digits(s[0] as nat, s[1] as nat, s[2] as nat, s[3] as nat);
    assert(be32_bytes(be32_value(s)) =~= s.subrange(0, 4));
}

/// The complete messages held at the front of byte stream `s`: as long as a
/// four-byte prefix and the payload it announces are both present, that
/// payload is a message, and decoding continues on what follows it.
pub open spec fn messages_of(s: Seq<u8>) -> Seq<Seq<u8>>
    decreases s.len(),
{
    if s.len() < 4 {
        Seq::empty()
    } else {
        let l = be32_value(s) as int;
        if s.len() < 4 + l {
            Seq::empty()
        } else {
            seq![s.subrange(4, 4 + l)] + messages_of(s.subrange(4 + l, s.len() as int))
        }
    }
}

/// The bytes of `s` left over after every complete frame has been consumed:
/// either fewer than four bytes, or a full prefix whose payload has not fully
/// arrived.
pub open spec fn residual_of(s: Seq<u8>) -> Seq<u8>
    decreases s.len(),
{
    if s.len() < 4 {
        s
    } else {
        let l = be32_value(s) as int;
        if s.len() < 4 + l {
            s
        } else {
            residual_of(s.subrange(4 + l, s.len() as int))
        }
    }
}

/// The frames of the payloads `ms`, concatenated in order: the byte stream a
/// sender produces for those messages.
pub open spec fn concat_frames(ms: Seq<Seq<u8>>) -> Seq<u8>
    decreases ms.len(),
{
    if ms.len() == 0 {
        Seq::empty()
    } else {
        frame_of(ms[0]) + concat_frames(ms.drop_first())
    }
}

/// All messages completed over a run that starts from leftover bytes `r` and
/// receives `chunks` one at a time, each chunk decoded to a fixpoint before
/// the next arrives.
pub open spec fn fed_messages(r: Seq<u8>, chunks: Seq<Seq<u8>>) -> Seq<Seq<u8>>
    decreases chunks.len(),
{
    if chunks.len() == 0 {
        Seq::empty()
    } else {
        messages_of(r + chunks[0]) + fed_messages(residual_of(r + chunks[0]), chunks.drop_first())
    }
}

/// The bytes left over after the run of `fed_messages`.
pub open spec fn fed_residual(r: Seq<u8>, chunks: Seq<Seq<u8>>) -> Seq<u8>
    decreases chunks.len(),
{
    if chunks.len() == 0 {
        r
    } else {
        fed_residual(residual_of(r + chunks[0]), chunks.drop_first())
    }
}

} // verus!
