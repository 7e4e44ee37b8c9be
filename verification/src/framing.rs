//! One-byte length-prefixed framing of a single codec payload.
//!
//! A frame is one length byte `n` (0-255) followed by exactly `n` payload
//! bytes. The one-byte prefix is a deliberate protocol ceiling: payloads
//! over 255 bytes are rejected before anything is written.

use vstd::prelude::*;

use crate::protocol::ExchangeError;

verus! {

/// The bytes of a well-formed frame around `payload`.
pub open spec fn spec_frame(payload: Seq<u8>) -> Seq<u8>
    recommends
        payload.len() <= 255,
{
    seq![payload.len() as u8] + payload
}

/// Wrap `payload` in a one-byte length prefix.
///
/// Succeeds exactly on payloads of at most 255 bytes; a larger payload is
/// rejected with `PayloadTooLarge` before any byte is produced.
pub fn frame(payload: &Vec<u8>) -> (r: Result<Vec<u8>, ExchangeError>)
    ensures
        payload@.len() <= 255 ==> (r matches Ok(f) && f@ == spec_frame(payload@)),
        payload@.len() > 255 ==> r == Result::<Vec<u8>, ExchangeError>::Err(
            ExchangeError::PayloadTooLarge,
        ),
{
    if payload.len() > 255 {
        return Err(ExchangeError::PayloadTooLarge);
    }
    let mut out: Vec<u8> = Vec::new();
    out.push(payload.len() as u8);
    let mut i: usize = 0;
    while i < payload.len()
        invariant
            i <= payload@.len(),
            payload@.len() <= 255,
            out@ == seq![payload@.len() as u8] + payload@.take(i as int),
        decreases payload@.len() - i,
    {
        out.push(payload[i]);
        i += 1;
        proof {
            assert(payload@.take(i as int) =~= payload@.take(i - 1).push(payload@[i - 1]));
        }
    }
    proof {
        assert(out@ =~= spec_frame(payload@));
    }
    Ok(out)
}

/// Read one frame out of the bytes the peer sent before closing.
///
/// `data` is the prefix of the stream that arrived: one length byte, then
/// however many payload bytes the peer managed to send. The frame is
/// returned only when all advertised bytes are present; a stream that
/// closed before the length byte is `ConnectionClosed`, and one that
/// closed mid-payload is `Truncated` - never a silently short buffer.
pub fn parse_frame(data: &Vec<u8>) -> (r: Result<Vec<u8>, ExchangeError>)
    ensures
        data@.len() == 0 ==> r == Result::<Vec<u8>, ExchangeError>::Err(
            ExchangeError::ConnectionClosed,
        ),
        data@.len() >= 1 && data@.len() < 1 + data@[0] ==> r == Result::<
            Vec<u8>,
            ExchangeError,
        >::Err(ExchangeError::Truncated),
        data@.len() >= 1 + data@[0] ==> (r matches Ok(p) && p@ == data@.subrange(
            1,
            1 + data@[0],
        )),
{
    if data.len() == 0 {
        return Err(ExchangeError::ConnectionClosed);
    }
    let n = data[0] as usize;
    if data.len() < 1 + n {
        return Err(ExchangeError::Truncated);
    }
    let mut out: Vec<u8> = Vec::new();
    let mut i: usize = 0;
    while i < n
        invariant
            i <= n,
            data@.len() >= 1 + n,
            out@ == data@.subrange(1, 1 + i as int),
        decreases n - i,
    {
        out.push(data[1 + i]);
        i += 1;
        proof {
            assert(data@.subrange(1, 1 + i as int) =~= data@.subrange(1, i as int).push(
                data@[i as int],
            ));
        }
    }
    Ok(out)
}

} // verus!
