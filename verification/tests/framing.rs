//! The one-byte length framing: the 255-byte ceiling and truncation.

use piko_cli::framing::{frame, parse_frame};
use piko_cli::protocol::ExchangeError;

#[test]
fn frame_at_ceiling_succeeds() {
    let payload = vec![0xabu8; 255];
    let framed = frame(&payload).unwrap();
    assert_eq!(framed.len(), 256);
    assert_eq!(framed[0], 255);
    assert_eq!(&framed[1..], payload.as_slice());
}

#[test]
fn frame_over_ceiling_fails_before_writing() {
    let payload = vec![0xabu8; 256];
    assert_eq!(frame(&payload), Err(ExchangeError::PayloadTooLarge));
}

#[test]
fn frame_empty_payload() {
    let framed = frame(&vec![]).unwrap();
    assert_eq!(framed, vec![0u8]);
}

#[test]
fn parse_frame_round_trip() {
    let payload = vec![1u8, 2, 3, 4];
    let framed = frame(&payload).unwrap();
    assert_eq!(parse_frame(&framed).unwrap(), payload);
}

#[test]
fn parse_frame_truncated_never_short() {
    // the peer advertises 5 bytes, sends 3, then closes
    let data = vec![5u8, 1, 2, 3];
    assert_eq!(parse_frame(&data), Err(ExchangeError::Truncated));
}

#[test]
fn parse_frame_closed_before_length() {
    assert_eq!(parse_frame(&vec![]), Err(ExchangeError::ConnectionClosed));
}

#[test]
fn parse_frame_ignores_surplus() {
    let data = vec![2u8, 7, 8, 99, 99];
    assert_eq!(parse_frame(&data).unwrap(), vec![7u8, 8]);
}
