//! The protocol's guarantees, stated and proved over the byte-level model.
//!
//! `feed`'s contract ties a `Framer` to `messages_of` and `residual_of` on
//! the bytes it has been given; these lemmas say what those functions
//! guarantee: a frame decodes back to its payload, decoding is invariant
//! under how the transport fragments the stream, and a pipeline of frames
//! decodes to its messages in order.

use crate::codec::{Framer, Mode};
use crate::wire::{
    be32_bytes, be32_value, concat_frames, fed_messages, fed_residual, frame_of,
    lemma_be32_value_of_bytes, messages_of, residual_of,
};
use vstd::prelude::*;

verus! {

/// A stream that starts with the frame of `m` decodes to `m` followed by
/// whatever the rest of the stream decodes to; the leftover bytes are those
/// of the rest alone.
pub proof fn lemma_frame_prefix(m: Seq<u8>, rest: Seq<u8>)
    requires
        m.len() < 0x1_0000_0000,
    ensures
        messages_of(frame_of(m) + rest) == seq![m] + messages_of(rest),
        residual_of(frame_of(m) + rest) == residual_of(rest),
{
    let s = frame_of(m) + rest;
    lemma_be32_value_of_bytes(m.len());
    assert(forall|k: int| 0 <= k < 4 ==> s[k] == be32_bytes(m.len())[k]);
    assert(be32_value(s) == m.len());
    let l = m.len() as int;
    assert(s.subrange(4, 4 + l) =~= m);
    assert(s.subrange(4 + l, s.len() as int) =~= rest);
    assert(messages_of(s) =~= seq![m] + messages_of(rest));
}

/// Round-trip: the frame of a payload, delivered whole, decodes to exactly
/// that payload — also when the payload is empty — and leaves nothing over.
pub proof fn lemma_round_trip(m: Seq<u8>)
    requires
        m.len() < 0x1_0000_0000,
    ensures
        messages_of(frame_of(m)) == seq![m],
        residual_of(frame_of(m)) == Seq::<u8>::empty(),
{
    assert(frame_of(m) + Seq::<u8>::empty() =~= frame_of(m));
    lemma_frame_prefix(m, Seq::<u8>::empty());
    assert(seq![m] + messages_of(Seq::<u8>::empty()) =~= seq![m]);
}

/// Two deliveries decode as one: feeding `s` and then `t` completes the same
/// messages, and leaves the same bytes, as feeding `s + t` at once. This is
/// the step case of fragmentation invariance.
pub proof fn lemma_feed_composition(s: Seq<u8>, t: Seq<u8>)
    ensures
        messages_of(s + t) == messages_of(s) + messages_of(residual_of(s) + t),
        residual_of(s + t) == residual_of(residual_of(s) + t),
    decreases s.len(),
{
    if s.len() < 4 {
        assert(residual_of(s) + t =~= s + t);
        assert(messages_of(s) + messages_of(s + t) =~= messages_of(s + t));
    } else {
        assert(forall|k: int| 0 <= k < 4 ==> (s + t)[k] == s[k]);
        assert(be32_value(s + t) == be32_value(s));
        let l = be32_value(s) as int;
        if s.len() < 4 + l {
            assert(residual_of(s) + t =~= s + t);
            assert(messages_of(s) + messages_of(s + t) =~= messages_of(s + t));
        } else {
            let tail = s.subrange(4 + l, s.len() as int);
            assert((s + t).subrange(4, 4 + l) =~= s.subrange(4, 4 + l));
            assert((s + t).subrange(4 + l, (s + t).len() as int) =~= tail + t);
            lemma_feed_composition(tail, t);
            assert(messages_of(s + t) =~= messages_of(s) + messages_of(residual_of(s) + t));
        }
    }
}

/// Idempotent suspension: when feeding chunk `c` over leftover bytes `r`
/// completes nothing, the decode resumed from the leftover state on any
/// later bytes `t`, however late they arrive, completes exactly the
/// messages, and leaves exactly the bytes, of feeding everything at once.
pub proof fn lemma_idempotent_suspension(r: Seq<u8>, c: Seq<u8>, t: Seq<u8>)
    requires
        messages_of(r + c) == Seq::<Seq<u8>>::empty(),
    ensures
        messages_of(residual_of(r + c) + t) == messages_of((r + c) + t),
        residual_of(residual_of(r + c) + t) == residual_of((r + c) + t),
{
    lemma_feed_composition(r + c, t);
    assert(messages_of(r + c) + messages_of(residual_of(r + c) + t) =~= messages_of(
        residual_of(r + c) + t,
    ));
}

/// The residual never grows past its stream.
proof fn lemma_residual_len(s: Seq<u8>)
    ensures
        residual_of(s).len() <= s.len(),
    decreases s.len(),
{
    if s.len() >= 4 {
        let l = be32_value(s) as int;
        if s.len() >= 4 + l {
            lemma_residual_len(s.subrange(4 + l, s.len() as int));
        }
    }
}

/// Leftover bytes are stable: they decode to no message, and consuming
/// complete frames from them again changes nothing.
pub proof fn lemma_residual_quiescent(s: Seq<u8>)
    ensures
        messages_of(residual_of(s)) == Seq::<Seq<u8>>::empty(),
        residual_of(residual_of(s)) == residual_of(s),
    decreases s.len(),
{
    if s.len() >= 4 {
        let l = be32_value(s) as int;
        if s.len() >= 4 + l {
            lemma_residual_quiescent(s.subrange(4 + l, s.len() as int));
        }
    }
}

/// A stream equal to its own residual holds no complete message.
pub proof fn lemma_quiescent_no_messages(s: Seq<u8>)
    requires
        residual_of(s) == s,
    ensures
        messages_of(s) == Seq::<Seq<u8>>::empty(),
{
    if s.len() >= 4 {
        let l = be32_value(s) as int;
        if s.len() >= 4 + l {
            let tail = s.subrange(4 + l, s.len() as int);
            lemma_residual_len(tail);
            assert(residual_of(s).len() < s.len());
            assert(false);
        }
    }
}

/// Fragmentation invariance: however the stream is cut into chunks, a run
/// that decodes each chunk as it arrives completes exactly the messages of
/// the whole stream, and holds the same leftover bytes, as decoding the
/// stream in one piece.
pub proof fn lemma_fragmentation_invariance(r: Seq<u8>, chunks: Seq<Seq<u8>>)
    requires
        residual_of(r) == r,
    ensures
        fed_messages(r, chunks) == messages_of(r + chunks.flatten()),
        fed_residual(r, chunks) == residual_of(r + chunks.flatten()),
    decreases chunks.len(),
{
    if chunks.len() == 0 {
        lemma_quiescent_no_messages(r);
        assert(r + chunks.flatten() =~= r);
        assert(fed_messages(r, chunks) =~= messages_of(r + chunks.flatten()));
    } else {
        let c0 = chunks[0];
        let rest = chunks.drop_first();
        let r1 = residual_of(r + c0);
        lemma_residual_quiescent(r + c0);
        lemma_fragmentation_invariance(r1, rest);
        lemma_feed_composition(r + c0, rest.flatten());
        assert((r + c0) + rest.flatten() =~= r + chunks.flatten());
        assert(fed_messages(r, chunks) =~= messages_of(r + chunks.flatten()));
    }
}

/// Pipelining: the concatenated frames of messages `ms` decode back to
/// exactly `ms`, in order, with nothing left over.
#[verifier::rlimit(30)]
pub proof fn lemma_pipelining(ms: Seq<Seq<u8>>)
    requires
        forall|i: int| 0 <= i < ms.len() ==> #[trigger] ms[i].len() < 0x1_0000_0000,
    ensures
        messages_of(concat_frames(ms)) == ms,
        residual_of(concat_frames(ms)) == Seq::<u8>::empty(),
    decreases ms.len(),
{
    if ms.len() == 0 {
        assert(messages_of(concat_frames(ms)) =~= ms);
    } else {
        let rest = ms.drop_first();
        assert forall|i: int| 0 <= i < rest.len() implies #[trigger] rest[i].len()
            < 0x1_0000_0000 by {
            assert(rest[i] == ms[i + 1]);
        }
        lemma_pipelining(rest);
        lemma_frame_prefix(ms[0], concat_frames(rest));
        assert(seq![ms[0]] + rest =~= ms);
    }
}

/// End-to-end delivery: if a sender frames messages `ms` and the transport
/// cuts the resulting byte stream into chunks in any way, a receiver that
/// starts fresh and decodes chunk by chunk completes exactly `ms`, in order,
/// with no bytes left over.
pub proof fn lemma_stream_delivery(ms: Seq<Seq<u8>>, chunks: Seq<Seq<u8>>)
    requires
        forall|i: int| 0 <= i < ms.len() ==> #[trigger] ms[i].len() < 0x1_0000_0000,
        chunks.flatten() == concat_frames(ms),
    ensures
        fed_messages(Seq::<u8>::empty(), chunks) == ms,
        fed_residual(Seq::<u8>::empty(), chunks) == Seq::<u8>::empty(),
{
    lemma_fragmentation_invariance(Seq::<u8>::empty(), chunks);
    lemma_pipelining(ms);
    assert(Seq::<u8>::empty() + chunks.flatten() =~= concat_frames(ms));
}

/// End of stream mid-frame is clean: a well-formed framer holds no complete
/// message, so nothing spurious remains to emit when the peer closes, and a
/// later chunk resumes exactly where the stream left off.
pub proof fn lemma_no_pending_message(f: Framer)
    requires
        f.wf(),
    ensures
        messages_of(f.stream()) == Seq::<Seq<u8>>::empty(),
        residual_of(f.stream()) == f.stream(),
{
    match f.mode {
        Mode::AwaitingLength => {
        },
        Mode::AwaitingBody(l) => {
            lemma_be32_value_of_bytes(l as nat);
            assert(forall|k: int| 0 <= k < 4 ==> f.stream()[k] == be32_bytes(l as nat)[k]);
            assert(be32_value(f.stream()) == l as nat);
            assert(f.stream().len() < 4 + l as int);
        },
    }
}

} // verus!
