//! Big-endian fixed-width integers as they appear on the wire.
use vstd::prelude::*;

verus! {

/// The four big-endian bytes of `x`, most significant first.
pub open spec fn u32_be(x: u32) -> Seq<u8> {
    seq![
        (x / 0x100_0000) as u8,
        ((x / 0x1_0000) % 0x100) as u8,
        ((x / 0x100) % 0x100) as u8,
        (x % 0x100) as u8,
    ]
}

/// The number that four big-endian bytes spell.
pub open spec fn be_u32(b0: u8, b1: u8, b2: u8, b3: u8) -> u32 {
    (b0 * 0x100_0000 + b1 * 0x1_0000 + b2 * 0x100 + b3) as u32
}

/// The number spelled by the four bytes of `s` that start at `off`.
pub open spec fn be_u32_at(s: Seq<u8>, off: int) -> u32 {
    be_u32(s[off], s[off + 1], s[off + 2], s[off + 3])
}

/// Reading back the bytes of `u32_be(x)` gives `x`.
pub proof fn lemma_u32_be_roundtrip(x: u32)
    ensures
        u32_be(x).len() == 4,
        be_u32_at(u32_be(x), 0) == x,
        be_u32_at(u32_be(x), 0) == be_u32(u32_be(x)[0], u32_be(x)[1], u32_be(x)[2], u32_be(x)[3]),
{
    let b = u32_be(x);
    assert(x as int == (x / 0x100_0000) * 0x100_0000 + ((x / 0x1_0000) % 0x100) * 0x1_0000
        + ((x / 0x100) % 0x100) * 0x100 + x % 0x100) by (nonlinear_arith);
}

/// Writing back the number that four bytes spell gives those bytes.
pub proof fn lemma_be_u32_roundtrip(b0: u8, b1: u8, b2: u8, b3: u8)
    ensures
        u32_be(be_u32(b0, b1, b2, b3)) == seq![b0, b1, b2, b3],
{
    let x = be_u32(b0, b1, b2, b3);
    assert(b0 * 0x100_0000 + b1 * 0x1_0000 + b2 * 0x100 + b3 <= 0xffff_ffff) by (nonlinear_arith)
        requires b0 < 256, b1 < 256, b2 < 256, b3 < 256;
    let v: int = b0 * 0x100_0000 + b1 * 0x1_0000 + b2 * 0x100 + b3;
    assert(x == v);
    assert(v / 0x100_0000 == b0 && (v / 0x1_0000) % 0x100 == b1 && (v / 0x100) % 0x100 == b2
        && v % 0x100 == b3) by (nonlinear_arith)
        requires v == b0 * 0x100_0000 + b1 * 0x1_0000 + b2 * 0x100 + b3, 0 <= b0 < 256, 0 <= b1 < 256, 0 <= b2 < 256, 0 <= b3 < 256;
    assert(u32_be(x) =~= seq![b0, b1, b2, b3]);
}

/// Appends the big-endian bytes of `x` to `out`.
pub fn push_u32_be(out: &mut Vec<u8>, x: u32)
    ensures
        final(out)@ == old(out)@ + u32_be(x),
{
    out.push((x / 0x100_0000) as u8);
    out.push(((x / 0x1_0000) % 0x100) as u8);
    out.push(((x / 0x100) % 0x100) as u8);
    out.push((x % 0x100) as u8);
    assert(final(out)@ =~= old(out)@ + u32_be(x));
}

/// Reads the big-endian number in `data[off..off + 4]`.
pub fn read_u32_be(data: &[u8], off: usize) -> (r: u32)
    requires
        off + 4 <= data@.len(),
    ensures
        r == be_u32_at(data@, off as int),
{
    let b0 = data[off] as u32;
    let b1 = data[off + 1] as u32;
    let b2 = data[off + 2] as u32;
    let b3 = data[off + 3] as u32;
    assert(b0 * 0x100_0000 + b1 * 0x1_0000 + b2 * 0x100 + b3 <= 0xffff_ffff) by (nonlinear_arith)
        requires b0 < 256, b1 < 256, b2 < 256, b3 < 256;
    b0 * 0x100_0000 + b1 * 0x1_0000 + b2 * 0x100 + b3
}


/// Why a length-prefixed frame could not be taken from a buffer.
#[derive(Debug, Clone, Copy, PartialEq, Eq)]
pub enum FrameError {
    /// Fewer than the four header bytes were available: the peer closed the stream.
    ConnectionClosed,
    /// The header announced more payload bytes than were available.
    Truncated,
    /// The announced payload length is above the accepted limit.
    FrameTooLarge(u32),
}

/// A frame: the payload length as four big-endian bytes, then the payload.
/// The length is the payload's length taken modulo 2^32, as a `u32` cast does.
pub open spec fn frame_bytes(payload: Seq<u8>) -> Seq<u8> {
    u32_be(payload.len() as u32) + payload
}

/// Frames `payload` behind its four-byte big-endian length.
pub fn encode_frame(payload: &[u8]) -> (r: Vec<u8>)
    ensures
        r@ == frame_bytes(payload@),
{
    let mut out: Vec<u8> = Vec::new();
    #[verifier::truncate]
    let len: u32 = payload.len() as u32;
    push_u32_be(&mut out, len);
    let mut i: usize = 0;
    while i < payload.len()
        invariant
            i <= payload@.len(),
            out@ == u32_be(len) + payload@.subrange(0, i as int),
        decreases payload@.len() - i,
    {
        out.push(payload[i]);
        i += 1;
        assert(out@ =~= u32_be(len) + payload@.subrange(0, i as int));
    }
    assert(payload@.subrange(0, payload@.len() as int) =~= payload@);
    out
}

/// The payload length announced by a four-byte frame header.
pub fn frame_len(header: &[u8; 4]) -> (r: u32)
    ensures
        r == be_u32_at(header@, 0),
{
    read_u32_be(header.as_slice(), 0)
}

/// What taking one frame off the front of `buf` gives: the payload and the
/// number of bytes consumed, or why no whole frame is there.
pub open spec fn spec_decode_frame(buf: Seq<u8>) -> Result<(Seq<u8>, int), FrameError> {
    if buf.len() < 4 {
        Err(FrameError::ConnectionClosed)
    } else {
        let n = be_u32_at(buf, 0) as int;
        if buf.len() - 4 < n {
            Err(FrameError::Truncated)
        } else {
            Ok((buf.subrange(4, 4 + n), 4 + n))
        }
    }
}

/// Takes one frame off the front of `buf`.
pub fn decode_frame(buf: &[u8]) -> (r: Result<(Vec<u8>, usize), FrameError>)
    ensures
        match (r, spec_decode_frame(buf@)) {
            (Ok((p, n)), Ok((sp, sn))) => p@ == sp && n == sn,
            (Err(e), Err(se)) => e == se,
            _ => false,
        },
{
    if buf.len() < 4 {
        return Err(FrameError::ConnectionClosed);
    }
    let n = read_u32_be(buf, 0) as usize;
    if buf.len() - 4 < n {
        return Err(FrameError::Truncated);
    }
    let payload = vstd::slice::slice_to_vec(&buf[4..4 + n]);
    Ok((payload, 4 + n))
}

/// A frame read back gives the payload that was framed, and consumes exactly
/// the frame, whatever follows it.
pub proof fn lemma_frame_roundtrip(payload: Seq<u8>, rest: Seq<u8>)
    requires
        payload.len() <= u32::MAX,
    ensures
        spec_decode_frame(frame_bytes(payload) + rest) == Ok::<(Seq<u8>, int), FrameError>(
            (payload, 4 + payload.len() as int),
        ),
{
    let buf = frame_bytes(payload) + rest;
    let len = payload.len() as u32;
    lemma_u32_be_roundtrip(len);
    assert(len as int == payload.len());
    assert(buf.subrange(0, 4) =~= u32_be(len));
    assert(be_u32_at(buf, 0) == be_u32_at(u32_be(len), 0));
    assert(buf.subrange(4, 4 + payload.len() as int) =~= payload);
}

} // verus!
