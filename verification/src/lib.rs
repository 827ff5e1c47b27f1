//! The logic of a small HTTP/1.1 client: one request per connection, `Connection: close`, a body
//! framed by `Content-Length` or `chunked`, and nothing else.
//!
//! Nothing here touches a socket. [`Url`] and [`Request`] say what is to be sent and where, a
//! [`Call`] says what to do with the connection and when the response is complete, and
//! [`parse_response`] says what was answered. Every function states exactly what it returns;
//! [`laws`] holds what follows for the library as a whole.

pub mod sequence;
pub mod encoding;
pub mod text;
pub mod number;
pub mod error;
pub mod response;
pub mod url;
pub mod request;
pub mod target;
pub mod tls;
pub mod call;
pub mod client;
pub mod laws;

pub use call::{Action, Call, Event};
pub use client::{conclude, request_for, timed_out, Targets, DEFAULT_TIMEOUT_SECS};
pub use error::Error;
pub use request::Request;
pub use response::{decode_chunked, parse_response, Response, MAX_RESPONSE};
pub use sequence::find;
pub use target::Target;
pub use url::{parse_port, Url};
