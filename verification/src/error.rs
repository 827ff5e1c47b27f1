//! What can go wrong.

use vstd::prelude::*;

use crate::number::{decimal, write_decimal};
use crate::response::MAX_RESPONSE;
use crate::text::{join, join3};

verus! {

/// What went wrong, and where. What a call comes to never carries the request path, which is where
/// some APIs put their credentials, and quotes nothing that the peer answered, which may be the
/// request itself.
#[derive(Debug)]
pub enum Error {
    Resolve(String),
    Connect(String),
    Tls(String),
    Io(String),
    /// The peer answered something that is not HTTP/1.1 this client reads.
    Protocol(String),
    TooLarge,
    /// The request did not finish within the client's deadline.
    Timeout(String),
    /// The URL given to a client could not be used.
    Url(String),
}

/// An [`Error`] with its detail as characters.
pub enum ErrorView {
    Resolve(Seq<char>),
    Connect(Seq<char>),
    Tls(Seq<char>),
    Io(Seq<char>),
    Protocol(Seq<char>),
    TooLarge,
    Timeout(Seq<char>),
    Url(Seq<char>),
}

impl View for Error {
    type V = ErrorView;

    open spec fn view(&self) -> ErrorView {
        match self {
            Error::Resolve(detail) => ErrorView::Resolve(detail@),
            Error::Connect(detail) => ErrorView::Connect(detail@),
            Error::Tls(detail) => ErrorView::Tls(detail@),
            Error::Io(detail) => ErrorView::Io(detail@),
            Error::Protocol(detail) => ErrorView::Protocol(detail@),
            Error::TooLarge => ErrorView::TooLarge,
            Error::Timeout(detail) => ErrorView::Timeout(detail@),
            Error::Url(detail) => ErrorView::Url(detail@),
        }
    }
}

impl ErrorView {
    /// The error as a sentence.
    pub open spec fn message(self) -> Seq<char> {
        match self {
            ErrorView::Resolve(detail) => "DNS resolution failed: "@ + detail,
            ErrorView::Connect(detail) => "TCP connect failed: "@ + detail,
            ErrorView::Tls(detail) => "TLS failed: "@ + detail,
            ErrorView::Io(detail) => "connection failed: "@ + detail,
            ErrorView::Protocol(detail) => "malformed response: "@ + detail,
            ErrorView::TooLarge => "response exceeded "@ + decimal(MAX_RESPONSE as nat) + " bytes"@,
            ErrorView::Timeout(detail) => "timed out: "@ + detail,
            ErrorView::Url(detail) => "unusable URL: "@ + detail,
        }
    }
}

impl Error {
    /// The error as a sentence.
    pub fn message(&self) -> (message: String)
        ensures
            message@ == self@.message(),
    {
        match self {
            Error::Resolve(detail) => join("DNS resolution failed: ", detail.as_str()),
            Error::Connect(detail) => join("TCP connect failed: ", detail.as_str()),
            Error::Tls(detail) => join("TLS failed: ", detail.as_str()),
            Error::Io(detail) => join("connection failed: ", detail.as_str()),
            Error::Protocol(detail) => join("malformed response: ", detail.as_str()),
            Error::TooLarge => {
                let limit = write_decimal(MAX_RESPONSE as u64);
                join3("response exceeded ", limit.as_str(), " bytes")
            },
            Error::Timeout(detail) => join("timed out: ", detail.as_str()),
            Error::Url(detail) => join("unusable URL: ", detail.as_str()),
        }
    }
}

} // verus!
