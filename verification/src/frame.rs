//! Length-prefixed message framing for the changeset exchange.
//!
//! One wire message is the payload's byte count as a 64-bit little-endian
//! prefix, followed by the payload itself. Exactly two such messages cross
//! an authenticated channel per session. The unverified shell reads the
//! eight header bytes, checks the announced length against its limit, then
//! reads exactly that many payload bytes.

use vstd::prelude::*;
use crate::errors::ProtocolFramingError;
use crate::store::le64;
use crate::store::u64_of_le;
use crate::store::lemma_le64_roundtrip;
use crate::store::push_le64;
use crate::store::read_u64_le;

verus! {

/// A framed message: eight little-endian length bytes, then the payload.
pub open spec fn frame_of(payload: Seq<u8>) -> Seq<u8> {
    le64(payload.len() as u64) + payload
}

/// Frames a payload for the wire.
pub fn encode_frame(payload: &Vec<u8>) -> (r: Vec<u8>)
    ensures
        r@ == frame_of(payload@),
{
    let mut r: Vec<u8> = Vec::new();
    push_le64(&mut r, payload.len() as u64);
    let ghost mid = r@;
    let mut i: usize = 0;
    while i < payload.len()
        invariant
            i <= payload@.len(),
            r@ == mid + payload@.take(i as int),
        decreases payload@.len() - i,
    {
        r.push(payload[i]);
        proof {
            assert(mid + payload@.take(i as int + 1) =~= (mid + payload@.take(i as int)).push(
                payload@[i as int],
            ));
        }
        i = i + 1;
    }
    proof {
        assert(mid + payload@.take(payload@.len() as int) =~= mid + payload@);
    }
    r
}

/// Reads the payload length announced by a frame header; a header that is
/// not exactly eight bytes is a truncated stream.
pub fn parse_frame_len(header: &[u8]) -> (r: Result<u64, ProtocolFramingError>)
    ensures
        header@.len() == 8 ==> r == Ok::<u64, ProtocolFramingError>(u64_of_le(header@)),
        header@.len() != 8 ==> r == Err::<u64, ProtocolFramingError>(ProtocolFramingError::Truncated),
{
    if header.len() != 8 {
        return Err(ProtocolFramingError::Truncated);
    }
    let n: u64 = read_u64_le(header, 0);
    proof {
        assert(header@.subrange(0, 8) =~= header@);
    }
    Ok(n)
}

/// Checks an announced payload length against the session's limit; an
/// absurd length aborts the session before any allocation.
pub fn check_frame_len(len: u64, max: u64) -> (r: Result<usize, ProtocolFramingError>)
    ensures
        len <= max && len <= usize::MAX ==> r == Ok::<usize, ProtocolFramingError>(len as usize),
        !(len <= max && len <= usize::MAX) ==> r == Err::<usize, ProtocolFramingError>(
            ProtocolFramingError::LengthTooLarge,
        ),
{
    if len <= max && len <= usize::MAX as u64 {
        Ok(len as usize)
    } else {
        Err(ProtocolFramingError::LengthTooLarge)
    }
}

/// A frame announces exactly its payload: the header decodes to the
/// payload's length and the rest of the frame is the payload itself.
pub proof fn lemma_frame_roundtrip(payload: Seq<u8>)
    requires
        payload.len() <= u64::MAX,
    ensures
        frame_of(payload).len() == 8 + payload.len(),
        u64_of_le(frame_of(payload).take(8)) == payload.len(),
        frame_of(payload).skip(8) == payload,
{
    assert(frame_of(payload).take(8) =~= le64(payload.len() as u64));
    lemma_le64_roundtrip(payload.len() as u64);
    assert(frame_of(payload).skip(8) =~= payload);
}

} // verus!
