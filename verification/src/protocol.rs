//! The typed messages of the protocol and the errors an exchange can raise.

use vstd::prelude::*;

verus! {

/// A request sent from the client to the broker.
#[derive(Debug, PartialEq, Eq)]
pub enum Request {
    Publish { client_id: u64, payload: Vec<u8> },
    Subscribe { client_id: u64 },
    Unsubscribe { client_id: u64 },
}

/// Mathematical model of a [`Request`].
pub enum RequestView {
    Publish { client_id: u64, payload: Seq<u8> },
    Subscribe { client_id: u64 },
    Unsubscribe { client_id: u64 },
}

impl View for Request {
    type V = RequestView;

    open spec fn view(&self) -> RequestView {
        match self {
            Request::Publish { client_id, payload } => RequestView::Publish {
                client_id: *client_id,
                payload: payload@,
            },
            Request::Subscribe { client_id } => RequestView::Subscribe { client_id: *client_id },
            Request::Unsubscribe { client_id } => RequestView::Unsubscribe {
                client_id: *client_id,
            },
        }
    }
}

/// A response returned from the broker to the client.
#[derive(Debug, PartialEq, Eq)]
pub enum Response {
    Success { message: String, bytes: Vec<u8> },
    Error { message: String },
}

/// Mathematical model of a [`Response`].
pub enum ResponseView {
    Success { message: Seq<char>, bytes: Seq<u8> },
    Error { message: Seq<char> },
}

impl View for Response {
    type V = ResponseView;

    open spec fn view(&self) -> ResponseView {
        match self {
            Response::Success { message, bytes } => ResponseView::Success {
                message: message@,
                bytes: bytes@,
            },
            Response::Error { message } => ResponseView::Error { message: message@ },
        }
    }
}

/// Everything that can go wrong during one request/response exchange,
/// apart from the broker itself answering with [`Response::Error`].
#[derive(Clone, Copy, Debug, PartialEq, Eq, Structural)]
pub enum ExchangeError {
    /// The broker's address did not accept a connection.
    ConnectFailed,
    /// The encoded request does not fit under the one-byte length prefix.
    PayloadTooLarge,
    /// The peer closed the stream before a length prefix arrived.
    ConnectionClosed,
    /// The peer advertised a length but closed before that many bytes arrived.
    Truncated,
    /// The frame body is not a valid encoding of a response.
    MalformedPayload,
}

} // verus!
