//! The size-capped framing of the binary protocol, and the records it carries.
use vstd::prelude::*;
use crate::wire::{FrameError, frame_bytes, encode_frame, frame_len, u32_be, be_u32_at, lemma_u32_be_roundtrip};

verus! {

/// The largest payload a frame may announce: 16 MiB.
pub const MAX_FRAME_SIZE: u32 = 16 * 1024 * 1024;

/// A task to run: its id, and the command with its arguments.
#[derive(Debug, Clone, PartialEq, Eq)]
pub struct TaskSpec {
    pub task_id: String,
    pub command: String,
    pub args: Vec<String>,
}

/// What running a task gave.
#[derive(Debug, Clone, PartialEq, Eq)]
pub struct TaskResultSpec {
    pub task_id: String,
    pub success: bool,
    pub exit_code: Option<i32>,
    pub stdout: String,
    pub stderr: String,
}

/// The messages exchanged between the nodes.
#[derive(Debug, Clone, PartialEq, Eq)]
pub enum Message {
    /// A liveness probe.
    Ping,
    /// The answer to a probe.
    Pong,
    /// A worker's first message to the master.
    RegisterWorker { worker_id: String },
    /// A worker says it is alive.
    Heartbeat { worker_id: String },
    /// The master hands a task to a worker.
    TaskAssign(TaskSpec),
    /// A worker reports how a task ended.
    TaskResult(TaskResultSpec),
    /// A node reports a failure.
    Error(String),
}

/// Frames `payload` behind its length, unless that length (taken modulo
/// 2^32) is above `MAX_FRAME_SIZE`.
pub fn encode_limited_frame(payload: &[u8]) -> (r: Result<Vec<u8>, FrameError>)
    ensures
        (payload@.len() as u32) > MAX_FRAME_SIZE ==> r == Err::<Vec<u8>, FrameError>(
            FrameError::FrameTooLarge(payload@.len() as u32),
        ),
        (payload@.len() as u32) <= MAX_FRAME_SIZE ==> (r matches Ok(v) && v@ == frame_bytes(payload@)),
{
    #[verifier::truncate]
    let len = payload.len() as u32;
    if len > MAX_FRAME_SIZE {
        return Err(FrameError::FrameTooLarge(len));
    }
    Ok(encode_frame(payload))
}

/// The payload length announced by a frame header, unless it is above
/// `MAX_FRAME_SIZE`.
pub fn limited_frame_len(header: &[u8; 4]) -> (r: Result<u32, FrameError>)
    ensures
        be_u32_at(header@, 0) > MAX_FRAME_SIZE ==> r == Err::<u32, FrameError>(
            FrameError::FrameTooLarge(be_u32_at(header@, 0)),
        ),
        be_u32_at(header@, 0) <= MAX_FRAME_SIZE ==> r == Ok::<u32, FrameError>(be_u32_at(header@, 0)),
{
    let n = frame_len(header);
    if n > MAX_FRAME_SIZE {
        Err(FrameError::FrameTooLarge(n))
    } else {
        Ok(n)
    }
}

/// What taking one size-capped frame off the front of `buf` gives: a missing
/// header or a cut-off payload both mean the peer closed the stream.
pub open spec fn spec_decode_limited_frame(buf: Seq<u8>) -> Result<(Seq<u8>, int), FrameError> {
    if buf.len() < 4 {
        Err(FrameError::ConnectionClosed)
    } else {
        let n = be_u32_at(buf, 0);
        if n > MAX_FRAME_SIZE {
            Err(FrameError::FrameTooLarge(n))
        } else if buf.len() - 4 < n {
            Err(FrameError::ConnectionClosed)
        } else {
            Ok((buf.subrange(4, 4 + n), 4 + n))
        }
    }
}

/// Takes one size-capped frame off the front of `buf`.
pub fn decode_limited_frame(buf: &[u8]) -> (r: Result<(Vec<u8>, usize), FrameError>)
    ensures
        match (r, spec_decode_limited_frame(buf@)) {
            (Ok((p, n)), Ok((sp, sn))) => p@ == sp && n == sn,
            (Err(e), Err(se)) => e == se,
            _ => false,
        },
{
    if buf.len() < 4 {
        return Err(FrameError::ConnectionClosed);
    }
    let n = crate::wire::read_u32_be(buf, 0);
    if n > MAX_FRAME_SIZE {
        return Err(FrameError::FrameTooLarge(n));
    }
    let n = n as usize;
    if buf.len() - 4 < n {
        return Err(FrameError::ConnectionClosed);
    }
    let payload = vstd::slice::slice_to_vec(&buf[4..4 + n]);
    Ok((payload, 4 + n))
}

/// A size-capped frame read back gives the payload that was framed, and
/// consumes exactly the frame, whatever follows it.
pub proof fn lemma_limited_frame_roundtrip(payload: Seq<u8>, rest: Seq<u8>)
    requires
        payload.len() <= MAX_FRAME_SIZE,
    ensures
        spec_decode_limited_frame(frame_bytes(payload) + rest) == Ok::<(Seq<u8>, int), FrameError>(
            (payload, 4 + payload.len() as int),
        ),
{
    let buf = frame_bytes(payload) + rest;
    let len = payload.len() as u32;
    lemma_u32_be_roundtrip(len);
    assert(len as int == payload.len());
    assert(buf.subrange(0, 4) =~= u32_be(len));
    assert(be_u32_at(buf, 0) == be_u32_at(u32_be(len), 0));
    assert(buf.subrange(4, 4 + payload.len() as int) =~= payload);
}

} // verus!
