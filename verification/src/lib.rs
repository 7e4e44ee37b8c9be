//! Client-side core of a small pub/sub wire protocol: typed requests and
//! responses, a self-describing binary codec, one-byte length framing, and
//! the REPL command dispatcher that drives a single request/response
//! exchange per command.

pub mod codec;
pub mod dispatch;
pub mod framing;
pub mod protocol;
pub mod session;
