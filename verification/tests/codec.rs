//! The wire codec against hand-written byte sequences, a reference CBOR
//! serializer, and its own round trips.

use std::collections::BTreeMap;

use piko_cli::codec::{
    codec_round_trip_request, codec_round_trip_response, decode_request, decode_response,
    encode_request, encode_response,
};
use piko_cli::protocol::{ExchangeError, Request, Response};

fn text(s: &str) -> serde_cbor::Value {
    serde_cbor::Value::Text(s.to_string())
}

fn one_entry(key: &str, value: serde_cbor::Value) -> serde_cbor::Value {
    let mut m: BTreeMap<serde_cbor::Value, serde_cbor::Value> = BTreeMap::new();
    m.insert(text(key), value);
    serde_cbor::Value::Map(m)
}

#[test]
fn subscribe_exact_bytes() {
    let req = Request::Subscribe { client_id: 1234 };
    let bytes = encode_request(&req);
    let expected: Vec<u8> = vec![
        0xa1, 0x69, b'S', b'u', b'b', b's', b'c', b'r', b'i', b'b', b'e', 0xa1, 0x69, b'c', b'l',
        b'i', b'e', b'n', b't', b'_', b'i', b'd', 0x19, 0x04, 0xd2,
    ];
    assert_eq!(bytes, expected);
}

#[test]
fn subscribe_matches_reference_cbor() {
    let req = Request::Subscribe { client_id: 1234 };
    let bytes = encode_request(&req);
    let reference = one_entry(
        "Subscribe",
        one_entry("client_id", serde_cbor::Value::Integer(1234)),
    );
    assert_eq!(bytes, serde_cbor::to_vec(&reference).unwrap());
}

#[test]
fn error_response_matches_reference_cbor() {
    let resp = Response::Error { message: "already subscribed".to_string() };
    let bytes = encode_response(&resp);
    let reference = one_entry("Error", one_entry("message", text("already subscribed")));
    assert_eq!(bytes, serde_cbor::to_vec(&reference).unwrap());
}

#[test]
fn publish_exact_bytes() {
    let req = Request::Publish { client_id: 1234, payload: b"hello world".to_vec() };
    let bytes = encode_request(&req);
    let mut expected: Vec<u8> = vec![0xa1, 0x67];
    expected.extend_from_slice(b"Publish");
    expected.push(0xa2);
    expected.push(0x69);
    expected.extend_from_slice(b"client_id");
    expected.extend_from_slice(&[0x19, 0x04, 0xd2]);
    expected.push(0x67);
    expected.extend_from_slice(b"payload");
    expected.push(0x4b);
    expected.extend_from_slice(b"hello world");
    assert_eq!(bytes, expected);
}

#[test]
fn success_response_decodes() {
    let mut bytes: Vec<u8> = vec![0xa1, 0x67];
    bytes.extend_from_slice(b"Success");
    bytes.push(0xa2);
    bytes.push(0x67);
    bytes.extend_from_slice(b"message");
    bytes.push(0x69);
    bytes.extend_from_slice(b"published");
    bytes.push(0x65);
    bytes.extend_from_slice(b"bytes");
    bytes.push(0x40);
    let resp = decode_response(&bytes).unwrap();
    assert_eq!(
        resp,
        Response::Success { message: "published".to_string(), bytes: vec![] }
    );
}

#[test]
fn request_round_trip_all_variants() {
    let reqs = vec![
        Request::Publish { client_id: 0, payload: vec![] },
        Request::Publish { client_id: 23, payload: vec![1, 2, 3] },
        Request::Publish { client_id: 24, payload: vec![0; 23] },
        Request::Publish { client_id: 255, payload: vec![0xff; 24] },
        Request::Publish { client_id: 256, payload: vec![7; 300] },
        Request::Publish { client_id: 65536, payload: vec![9; 70000] },
        Request::Publish { client_id: u64::MAX, payload: b"x".to_vec() },
        Request::Subscribe { client_id: 4294967296 },
        Request::Unsubscribe { client_id: 1234 },
    ];
    for req in reqs {
        let back = codec_round_trip_request(&req);
        assert_eq!(back, req);
        let direct = decode_request(&encode_request(&req)).unwrap();
        assert_eq!(direct, req);
    }
}

#[test]
fn response_round_trip_all_variants() {
    let resps = vec![
        Response::Success { message: String::new(), bytes: vec![] },
        Response::Success { message: "published".to_string(), bytes: vec![1, 2, 3] },
        Response::Success { message: "snowman \u{2603} and \u{1F600}".to_string(), bytes: vec![0; 500] },
        Response::Error { message: "already subscribed".to_string() },
        Response::Error { message: String::new() },
    ];
    for resp in resps {
        let back = codec_round_trip_response(&resp);
        assert_eq!(back, resp);
        let direct = decode_response(&encode_response(&resp)).unwrap();
        assert_eq!(direct, resp);
    }
}

#[test]
fn decode_rejects_malformed() {
    let cases: Vec<Vec<u8>> = vec![
        vec![],
        vec![0xa2],
        vec![0xa1],
        vec![0xa1, 0x63, b'x', b'y', b'z'],
        // a Success whose message header advertises more than is present
        vec![0xa1, 0x67, b'S', b'u', b'c', b'c', b'e', b's', b's', 0xa2, 0x67, b'm', b'e', b's',
             b's', b'a', b'g', b'e', 0x78],
    ];
    for bytes in cases {
        assert_eq!(decode_response(&bytes), Err(ExchangeError::MalformedPayload));
    }
}

#[test]
fn decode_rejects_padded_length_header() {
    // a `Subscribe` whose client_id 5 is spelled with a needlessly wide
    // header: the codec only accepts the shortest form it emits itself
    let mut bytes: Vec<u8> = vec![0xa1, 0x69];
    bytes.extend_from_slice(b"Subscribe");
    bytes.push(0xa1);
    bytes.push(0x69);
    bytes.extend_from_slice(b"client_id");
    bytes.extend_from_slice(&[0x18, 0x05]);
    assert_eq!(decode_request(&bytes), Err(ExchangeError::MalformedPayload));

    let mut minimal = bytes.clone();
    let n = minimal.len();
    minimal.truncate(n - 2);
    minimal.push(0x05);
    assert_eq!(
        decode_request(&minimal).unwrap(),
        Request::Subscribe { client_id: 5 }
    );
}

#[test]
fn decode_rejects_trailing_bytes() {
    let req = Request::Unsubscribe { client_id: 9 };
    let mut bytes = encode_request(&req);
    assert_eq!(decode_request(&bytes).unwrap(), req);
    bytes.push(0x00);
    assert_eq!(decode_request(&bytes), Err(ExchangeError::MalformedPayload));
}

#[test]
fn decode_rejects_invalid_utf8_message() {
    let mut bytes: Vec<u8> = vec![0xa1, 0x65];
    bytes.extend_from_slice(b"Error");
    bytes.push(0xa1);
    bytes.push(0x67);
    bytes.extend_from_slice(b"message");
    bytes.push(0x62);
    bytes.extend_from_slice(&[0xff, 0xfe]);
    assert_eq!(decode_response(&bytes), Err(ExchangeError::MalformedPayload));
}
