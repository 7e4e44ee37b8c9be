//! The computational halves of one request/response exchange.
//!
//! An exchange opens a fresh stream, writes one frame, reads one frame
//! back and closes. The connecting, writing and reading live outside this
//! library; what stands here is everything the client computes around
//! them: the outgoing frame, and the interpretation of what came back.

use vstd::prelude::*;

use crate::codec::{
    decode_request, decode_response, encode_request, encode_response, request_wf, response_wf,
    spec_encode_request, spec_encode_response,
};
use crate::framing::{frame, parse_frame, spec_frame};
use crate::protocol::{ExchangeError, Request, Response, ResponseView};

verus! {

/// Everything the client writes to the stream for `req`: the encoded
/// request behind its one-byte length prefix.
///
/// Fails with `PayloadTooLarge` exactly when the encoding exceeds the
/// 255-byte framing ceiling - decided before anything could be written.
pub fn build_frame(req: &Request) -> (r: Result<Vec<u8>, ExchangeError>)
    ensures
        request_wf(req@),
        spec_encode_request(req@).len() <= 255 ==> (r matches Ok(f) && f@ == spec_frame(
            spec_encode_request(req@),
        )),
        spec_encode_request(req@).len() > 255 ==> r == Result::<Vec<u8>, ExchangeError>::Err(
            ExchangeError::PayloadTooLarge,
        ),
{
    let payload = encode_request(req);
    frame(&payload)
}

/// Interpret the bytes the peer sent back before closing: one frame, then
/// its body decoded as a response.
pub fn read_reply(data: &Vec<u8>) -> (r: Result<Response, ExchangeError>)
    ensures
        data@.len() == 0 ==> r == Result::<Response, ExchangeError>::Err(
            ExchangeError::ConnectionClosed,
        ),
        data@.len() >= 1 && data@.len() < 1 + data@[0] ==> r == Result::<
            Response,
            ExchangeError,
        >::Err(ExchangeError::Truncated),
        data@.len() >= 1 + data@[0] ==> {
            let body = data@.subrange(1, 1 + data@[0]);
            &&& (r matches Ok(resp) ==> {
                &&& body == spec_encode_response(resp@)
                &&& response_wf(resp@)
                &&& forall|v: ResponseView|
                    response_wf(v) && body == spec_encode_response(v) ==> v == resp@
            })
            &&& (r matches Err(e) ==> e == ExchangeError::MalformedPayload && forall|
                v: ResponseView,
            |
                response_wf(v) ==> body != spec_encode_response(v))
        },
{
    match parse_frame(data) {
        Err(e) => Err(e),
        Ok(body) => decode_response(&body),
    }
}

/// Law: a loopback exchange is lossless. A request that fits the framing
/// ceiling survives framing, frame reading and decoding on the peer's
/// side; a response the peer frames the same way survives the client's
/// reply reading. Nothing is altered in either direction.
pub fn loopback_exchange(req: &Request, resp: &Response) -> (r: (Request, Response))
    requires
        spec_encode_request(req@).len() <= 255,
        spec_encode_response(resp@).len() <= 255,
    ensures
        r.0@ == req@,
        r.1@ == resp@,
{
    let framed = build_frame(req).unwrap();
    let body = parse_frame(&framed).unwrap();
    proof {
        assert(framed@.subrange(1, 1 + framed@[0]) =~= spec_encode_request(req@));
    }
    let got_req = decode_request(&body);
    proof {
        if got_req is Err {
            assert(body@ != spec_encode_request(req@));
        }
    }
    let got_req = got_req.unwrap();

    let reply_body = encode_response(resp);
    let reply_frame = frame(&reply_body).unwrap();
    let got_resp = read_reply(&reply_frame);
    proof {
        assert(reply_frame@.subrange(1, 1 + reply_frame@[0]) =~= spec_encode_response(resp@));
        if got_resp is Err {
            assert(reply_frame@.subrange(1, 1 + reply_frame@[0]) != spec_encode_response(resp@));
        }
    }
    let got_resp = got_resp.unwrap();
    (got_req, got_resp)
}

} // verus!
