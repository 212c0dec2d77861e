//! Framing: each message on the wire is its length as four big-endian
//! bytes, then its payload.
use vstd::prelude::*;

use crate::codec::{be32, decode, deserialize_payload, encode, encodable, serialize_payload, word_at, CodecError, Payload};

verus! {

/// The largest payload a peer may send, in bytes.
pub const MAX_MESSAGE_SIZE: usize = 8 * 1024 * 1024;

/// Why a frame was refused.
#[derive(Debug, Clone, Copy, PartialEq, Eq, Structural)]
pub enum FrameError {
    /// The announced or actual length exceeds the ceiling: (length, ceiling).
    TooBig(usize, usize),
    /// The payload could not be encoded or decoded.
    Codec(CodecError),
}

/// The length that a frame header announces, if it is within the ceiling.
pub fn read_header(header: &[u8]) -> (r: Result<usize, FrameError>)
    requires
        header@.len() == 4,
    ensures
        word_at(header@, 0) <= MAX_MESSAGE_SIZE ==> r == Ok::<usize, FrameError>(word_at(header@, 0) as usize),
        word_at(header@, 0) > MAX_MESSAGE_SIZE ==> r == Err::<usize, FrameError>(
            FrameError::TooBig(word_at(header@, 0) as usize, MAX_MESSAGE_SIZE),
        ),
{
    let len = ((header[0] as u32) << 24u32) | ((header[1] as u32) << 16u32) | ((header[2] as u32) << 8u32) | (
    header[3] as u32);
    if len as usize > MAX_MESSAGE_SIZE {
        Err(FrameError::TooBig(len as usize, MAX_MESSAGE_SIZE))
    } else {
        Ok(len as usize)
    }
}

/// The frame of a payload: the header, then the payload's bytes.
pub fn write_message(payload: &Payload) -> (r: Result<Vec<u8>, FrameError>)
    ensures
        !encodable(payload@) ==> r == Err::<Vec<u8>, FrameError>(FrameError::Codec(CodecError::Unencodable)),
        encodable(payload@) && encode(payload@).len() > MAX_MESSAGE_SIZE ==> r == Err::<Vec<u8>, FrameError>(
            FrameError::TooBig(encode(payload@).len() as usize, MAX_MESSAGE_SIZE),
        ),
        encodable(payload@) && encode(payload@).len() <= MAX_MESSAGE_SIZE ==> r is Ok && r->Ok_0@ == be32(
            encode(payload@).len() as u32,
        ) + encode(payload@),
{
    let body = match serialize_payload(payload) {
        Ok(b) => b,
        Err(e) => return Err(FrameError::Codec(e)),
    };
    if body.len() > MAX_MESSAGE_SIZE {
        return Err(FrameError::TooBig(body.len(), MAX_MESSAGE_SIZE));
    }
    let n = body.len() as u32;
    let mut out: Vec<u8> = Vec::new();
    out.push((n >> 24u32) as u8);
    out.push((n >> 16u32) as u8);
    out.push((n >> 8u32) as u8);
    out.push(n as u8);
    let mut i: usize = 0;
    while i < body.len()
        invariant
            i <= body@.len(),
            out@ == be32(n) + body@.subrange(0, i as int),
        decreases body@.len() - i,
    {
        out.push(body[i]);
        assert(body@.subrange(0, i + 1) =~= body@.subrange(0, i as int).push(body@[i as int]));
        i = i + 1;
    }
    assert(body@.subrange(0, body@.len() as int) =~= body@);
    Ok(out)
}

/// The payload of a frame whose header has been read.
pub fn read_message(body: &[u8]) -> (r: Result<Payload, FrameError>)
    ensures
        match r {
            Ok(p) => decode(body@) == Some(p@),
            Err(e) => decode(body@) is None && e == FrameError::Codec(CodecError::Malformed),
        },
{
    match deserialize_payload(body) {
        Ok(p) => Ok(p),
        Err(e) => Err(FrameError::Codec(e)),
    }
}

} // verus!
