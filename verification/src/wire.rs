//! Length-prefixed framing: each frame on the wire is a 4-byte big-endian
//! payload length followed by exactly that many payload bytes.

use vstd::prelude::*;

verus! {

/// The value of a 4-byte big-endian length prefix.
pub open spec fn be32_value(b: Seq<u8>) -> nat
    recommends
        b.len() == 4,
{
    (b[0] * 0x1000000 + b[1] * 0x10000 + b[2] * 0x100 + b[3]) as nat
}

/// The 4-byte big-endian encoding of a length.
pub open spec fn be32_bytes(n: nat) -> Seq<u8>
    recommends
        n <= u32::MAX,
{
    seq![
        (n / 0x1000000 % 0x100) as u8,
        (n / 0x10000 % 0x100) as u8,
        (n / 0x100 % 0x100) as u8,
        (n % 0x100) as u8,
    ]
}

/// Decoding inverts encoding: a length below 2^32 survives the prefix.
pub proof fn lemma_be32_roundtrip(n: nat)
    requires
        n <= u32::MAX,
    ensures
        be32_value(be32_bytes(n)) == n,
{
}

/// Encoding inverts decoding: a 4-byte prefix is determined by its value.
pub proof fn lemma_be32_bytes_of_value(b: Seq<u8>)
    requires
        b.len() == 4,
    ensures
        be32_value(b) <= u32::MAX,
        be32_bytes(be32_value(b)) =~= b,
{
    let b0 = b[0] as int;
    let b1 = b[1] as int;
    let b2 = b[2] as int;
    let b3 = b[3] as int;
    let v = be32_value(b) as int;
    assert(v == b0 * 0x1000000 + b1 * 0x10000 + b2 * 0x100 + b3);
    vstd::arithmetic::div_mod::lemma_fundamental_div_mod_converse(
        v, 0x1000000, b0, b1 * 0x10000 + b2 * 0x100 + b3);
    vstd::arithmetic::div_mod::lemma_small_mod(b0 as nat, 0x100);
    vstd::arithmetic::div_mod::lemma_fundamental_div_mod_converse(
        v, 0x10000, b0 * 0x100 + b1, b2 * 0x100 + b3);
    vstd::arithmetic::div_mod::lemma_fundamental_div_mod_converse(
        b0 * 0x100 + b1, 0x100, b0, b1);
    vstd::arithmetic::div_mod::lemma_fundamental_div_mod_converse(
        v, 0x100, b0 * 0x10000 + b1 * 0x100 + b2, b3);
    vstd::arithmetic::div_mod::lemma_fundamental_div_mod_converse(
        b0 * 0x10000 + b1 * 0x100 + b2, 0x100, b0 * 0x100 + b1, b2);
}

/// Reads a 4-byte big-endian unsigned length prefix.
pub fn decode_be32(b0: u8, b1: u8, b2: u8, b3: u8) -> (n: u32)
    ensures
        n == be32_value(seq![b0, b1, b2, b3]),
{
    let n: u32 = (b0 as u32) * 0x1000000 + (b1 as u32) * 0x10000 + (b2 as u32) * 0x100
        + (b3 as u32);
    n
}

/// Writes a length as a 4-byte big-endian prefix.
pub fn encode_be32(n: u32) -> (r: Vec<u8>)
    ensures
        r@ =~= be32_bytes(n as nat),
{
    let mut r: Vec<u8> = Vec::new();
    r.push((n / 0x1000000 % 0x100) as u8);
    r.push((n / 0x10000 % 0x100) as u8);
    r.push((n / 0x100 % 0x100) as u8);
    r.push((n % 0x100) as u8);
    r
}

/// A whole frame: the big-endian length prefix followed by the payload.
pub open spec fn frame_bytes(payload: Seq<u8>) -> Seq<u8>
    recommends
        payload.len() <= u32::MAX,
{
    be32_bytes(payload.len()) + payload
}

/// Frames a payload for the wire.
pub fn encode_frame(payload: &Vec<u8>) -> (r: Vec<u8>)
    requires
        payload@.len() <= u32::MAX,
    ensures
        r@ =~= frame_bytes(payload@),
{
    let mut r = encode_be32(payload.len() as u32);
    let mut i: usize = 0;
    while i < payload.len()
        invariant
            i <= payload@.len(),
            payload@.len() <= u32::MAX,
            r@ =~= be32_bytes(payload@.len()) + payload@.subrange(0, i as int),
        decreases payload@.len() - i,
    {
        r.push(payload[i]);
        i += 1;
        assert(r@ =~= be32_bytes(payload@.len()) + payload@.subrange(0, i as int));
    }
    assert(payload@.subrange(0, payload@.len() as int) =~= payload@);
    r
}

/// True once the buffered bytes hold a whole length prefix.
pub open spec fn header_complete(buf: Seq<u8>) -> bool {
    buf.len() >= 4
}

/// The payload length that the buffered prefix declares.
pub open spec fn declared_len(buf: Seq<u8>) -> nat
    recommends
        header_complete(buf),
{
    be32_value(buf.subrange(0, 4))
}

/// True once the buffered bytes hold a whole frame.
pub open spec fn frame_complete(buf: Seq<u8>) -> bool {
    header_complete(buf) && buf.len() >= 4 + declared_len(buf)
}

/// The payload of the first buffered frame.
pub open spec fn frame_payload(buf: Seq<u8>) -> Seq<u8>
    recommends
        frame_complete(buf),
{
    buf.subrange(4, 4 + declared_len(buf) as int)
}

/// What one attempt to take a frame off the stream yields.
pub enum FrameOutcome {
    /// A whole frame was buffered: its payload, and how many buffered bytes
    /// it occupied.
    Frame { payload: Vec<u8>, consumed: usize },
    /// The buffer holds no whole frame yet and the stream is still open.
    NeedMore,
    /// The stream closed before any byte of the next frame: a clean end.
    EndOfStream,
    /// The stream closed inside a length prefix or payload: a truncated
    /// frame, which ends the connection as an error.
    Truncated,
}

/// Decides what the bytes buffered from a stream yield: a whole frame, a
/// clean end of stream, a truncated frame, or nothing yet.
///
/// `closed` says whether the stream has ended, so that no further bytes can
/// ever arrive beyond `buf`.
pub fn frame_step(buf: &Vec<u8>, closed: bool) -> (r: FrameOutcome)
    ensures
        frame_complete(buf@) ==> (r matches FrameOutcome::Frame { payload, consumed }
            && payload@ == frame_payload(buf@) && consumed == 4 + declared_len(buf@)),
        !frame_complete(buf@) && !closed ==> r is NeedMore,
        !frame_complete(buf@) && closed && buf@.len() == 0 ==> r is EndOfStream,
        !frame_complete(buf@) && closed && buf@.len() > 0 ==> r is Truncated,
{
    if buf.len() >= 4 {
        let len32 = decode_be32(buf[0], buf[1], buf[2], buf[3]);
        assert(seq![buf@[0], buf@[1], buf@[2], buf@[3]] =~= buf@.subrange(0, 4));
        let len = len32 as usize;
        if buf.len() - 4 >= len {
            let end: usize = 4 + len;
            let mut payload: Vec<u8> = Vec::new();
            let mut j: usize = 4;
            while j < end
                invariant
                    4 <= j <= end,
                    end == 4 + len,
                    buf@.len() >= end,
                    payload@ =~= buf@.subrange(4, j as int),
                decreases end - j,
            {
                payload.push(buf[j]);
                j += 1;
                assert(payload@ =~= buf@.subrange(4, j as int));
            }
            FrameOutcome::Frame { payload, consumed: end }
        } else if closed {
            FrameOutcome::Truncated
        } else {
            FrameOutcome::NeedMore
        }
    } else if closed {
        if buf.len() == 0 {
            FrameOutcome::EndOfStream
        } else {
            FrameOutcome::Truncated
        }
    } else {
        FrameOutcome::NeedMore
    }
}

/// Every whole frame a closed stream holds, in order.
pub open spec fn deframe(stream: Seq<u8>) -> Seq<Seq<u8>>
    decreases stream.len(),
{
    if frame_complete(stream) {
        seq![frame_payload(stream)] + deframe(stream.skip(4 + declared_len(stream) as int))
    } else {
        Seq::empty()
    }
}

/// What a closed stream holds after its last whole frame: empty for a
/// clean close, something for a truncated frame.
pub open spec fn deframe_rest(stream: Seq<u8>) -> Seq<u8>
    decreases stream.len(),
{
    if frame_complete(stream) {
        deframe_rest(stream.skip(4 + declared_len(stream) as int))
    } else {
        stream
    }
}

/// A sequence of payloads, each framed, laid end to end.
pub open spec fn concat_frames(payloads: Seq<Seq<u8>>) -> Seq<u8>
    decreases payloads.len(),
{
    if payloads.len() == 0 {
        Seq::empty()
    } else {
        frame_bytes(payloads[0]) + concat_frames(payloads.skip(1))
    }
}

/// Stream round trip: framed payloads followed by an incomplete tail come
/// back off the stream as exactly those payloads, in the order they were
/// framed, with the tail left over — empty when the stream closed cleanly,
/// the truncated remains otherwise.
pub proof fn lemma_deframe_roundtrip(payloads: Seq<Seq<u8>>, tail: Seq<u8>)
    requires
        forall|i: int| 0 <= i < payloads.len() ==> #[trigger] payloads[i].len() <= u32::MAX,
        !frame_complete(tail),
    ensures
        deframe(concat_frames(payloads) + tail) =~~= payloads,
        deframe_rest(concat_frames(payloads) + tail) =~= tail,
    decreases payloads.len(),
{
    if payloads.len() == 0 {
        assert(concat_frames(payloads) + tail =~= tail);
    } else {
        let p0 = payloads[0];
        let rest = concat_frames(payloads.skip(1)) + tail;
        let s = concat_frames(payloads) + tail;
        assert(s =~= frame_bytes(p0) + rest);
        lemma_frame_roundtrip(p0, rest);
        lemma_deframe_roundtrip(payloads.skip(1), tail);
        assert(s.skip(4 + declared_len(s) as int) =~= rest);
        assert(deframe(s) =~~= seq![p0] + deframe(rest));
        assert(seq![p0] + payloads.skip(1) =~~= payloads);
    }
}

/// Framing round trip: a framed payload followed by any later bytes parses
/// back to exactly that payload, and consuming the frame leaves the later
/// bytes untouched.
pub proof fn lemma_frame_roundtrip(payload: Seq<u8>, rest: Seq<u8>)
    requires
        payload.len() <= u32::MAX,
    ensures
        frame_complete(frame_bytes(payload) + rest),
        frame_payload(frame_bytes(payload) + rest) =~= payload,
        declared_len(frame_bytes(payload) + rest) == payload.len(),
        (frame_bytes(payload) + rest).skip(4 + payload.len() as int) =~= rest,
{
    let whole = frame_bytes(payload) + rest;
    assert(whole.subrange(0, 4) =~= be32_bytes(payload.len()));
    lemma_be32_roundtrip(payload.len());
}

} // verus!
