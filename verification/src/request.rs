//! Requests, and the bytes that carry them.

use vstd::prelude::*;
use vstd::string::{StrSliceExecFns, StringExecFns};
use vstd::utf8::*;

use crate::number::{decimal, write_decimal};
use crate::text::{equal_ignoring_case, same_ignoring_case};

verus! {

/// One request. Build with [`Request::get`] or [`Request::post`].
#[derive(Debug)]
pub struct Request<'a> {
    method: &'a str,
    path: &'a str,
    headers: Vec<(&'a str, &'a str)>,
    body: Option<(&'a str, &'a [u8])>,
}

/// A [`Request`] with its parts as characters.
pub struct RequestView {
    pub method: Seq<char>,
    pub path: Seq<char>,
    pub headers: Seq<(Seq<char>, Seq<char>)>,
    pub body: Option<(Seq<char>, Seq<u8>)>,
}

impl<'a> View for Request<'a> {
    type V = RequestView;

    closed spec fn view(&self) -> RequestView {
        RequestView {
            method: self.method@,
            path: self.path@,
            headers: pairs_view(self.headers@),
            body: match self.body {
                Some((content_type, body)) => Some((content_type@, body@)),
                None => None,
            },
        }
    }
}

impl<'a> Clone for Request<'a> {
    fn clone(&self) -> (copy: Self)
        ensures
            copy@ == self@,
    {
        let mut headers: Vec<(&'a str, &'a str)> = Vec::new();
        let mut i: usize = 0;
        while i < self.headers.len()
            invariant
                i <= self.headers@.len(),
                headers@ == self.headers@.take(i as int),
            decreases self.headers@.len() - i,
        {
            headers.push(self.headers[i]);
            i = i + 1;
            assert(headers@ =~= self.headers@.take(i as int));
        }
        assert(headers@ =~= self.headers@);
        Request { method: self.method, path: self.path, headers, body: self.body }
    }
}

/// Pairs of names and values as characters.
pub open spec fn pairs_view(pairs: Seq<(&str, &str)>) -> Seq<(Seq<char>, Seq<char>)> {
    pairs.map_values(|pair: (&str, &str)| (pair.0@, pair.1@))
}

/// The lines of the given headers.
pub open spec fn header_lines(headers: Seq<(Seq<char>, Seq<char>)>) -> Seq<char>
    decreases headers.len(),
{
    if headers.len() == 0 {
        Seq::empty()
    } else {
        header_lines(headers.drop_last()) + headers.last().0 + ": "@ + headers.last().1 + "\r\n"@
    }
}

/// Whether a request by this method could carry a body.
pub open spec fn may_carry_body(method: Seq<char>) -> bool {
    ||| same_ignoring_case(method, "POST"@)
    ||| same_ignoring_case(method, "PUT"@)
    ||| same_ignoring_case(method, "PATCH"@)
}

impl RequestView {
    /// The request line and the headers that every request carries.
    pub open spec fn opening(self, host: Seq<char>) -> Seq<char> {
        self.method + " "@ + self.path + " HTTP/1.1\r\nHost: "@ + host
            + "\r\nConnection: close\r\nAccept-Encoding: identity\r\n"@
    }

    /// The headers that describe the body. A request that could carry a body says it has none.
    pub open spec fn body_headers(self) -> Seq<char> {
        match self.body {
            Some((content_type, body)) => "Content-Type: "@ + content_type
                + "\r\nContent-Length: "@ + decimal(body.len()) + "\r\n"@,
            None => if may_carry_body(self.method) {
                "Content-Length: 0\r\n"@
            } else {
                Seq::empty()
            },
        }
    }

    /// All that stands before the body.
    pub open spec fn head(self, host: Seq<char>) -> Seq<char> {
        self.opening(host) + header_lines(self.headers) + self.body_headers() + "\r\n"@
    }

    /// The bytes of the body.
    pub open spec fn body_bytes(self) -> Seq<u8> {
        match self.body {
            Some((_, body)) => body,
            None => Seq::empty(),
        }
    }

    /// The bytes that carry the request.
    pub open spec fn encoded(self, host: Seq<char>) -> Seq<u8> {
        encode_utf8(self.head(host)) + self.body_bytes()
    }
}

impl<'a> Request<'a> {
    /// `path` is the path and query, already percent-encoded.
    pub fn new(method: &'a str, path: &'a str) -> (request: Self)
        ensures
            request@ == (RequestView {
                method: method@,
                path: path@,
                headers: Seq::empty(),
                body: None,
            }),
    {
        let request = Request { method, path, headers: Vec::new(), body: None };
        assert(request@.headers =~= Seq::empty());
        request
    }

    /// A request by `GET`.
    pub fn get(path: &'a str) -> (request: Self)
        ensures
            request@ == (RequestView {
                method: "GET"@,
                path: path@,
                headers: Seq::empty(),
                body: None,
            }),
    {
        Self::new("GET", path)
    }

    /// A request by `POST`.
    pub fn post(path: &'a str) -> (request: Self)
        ensures
            request@ == (RequestView {
                method: "POST"@,
                path: path@,
                headers: Seq::empty(),
                body: None,
            }),
    {
        Self::new("POST", path)
    }

    /// Add a header, after those added before it.
    pub fn header(self, name: &'a str, value: &'a str) -> (request: Self)
        ensures
            request@ == (RequestView { headers: self@.headers.push((name@, value@)), ..self@ }),
    {
        let mut request = self;
        request.headers.push((name, value));
        assert(request@.headers =~= self@.headers.push((name@, value@)));
        request
    }

    /// Set the body and its `Content-Type`. `Content-Length` is added for you.
    pub fn body(self, content_type: &'a str, body: &'a [u8]) -> (request: Self)
        ensures
            request@ == (RequestView { body: Some((content_type@, body@)), ..self@ }),
    {
        let mut request = self;
        request.body = Some((content_type, body));
        request
    }

    /// Whether the request asks for the headers alone.
    pub fn is_head(&self) -> (head: bool)
        ensures
            head == same_ignoring_case(self@.method, "HEAD"@),
    {
        equal_ignoring_case(self.method, "HEAD")
    }

    /// The bytes that carry the request to `host`, the value of the `Host` header.
    pub fn encode(&self, host: &str) -> (bytes: Vec<u8>)
        ensures
            bytes@ == self@.encoded(host@),
    {
        let mut head = String::from_str(self.method);
        head.append(" ");
        head.append(self.path);
        head.append(" HTTP/1.1\r\nHost: ");
        head.append(host);
        head.append("\r\nConnection: close\r\nAccept-Encoding: identity\r\n");
        let ghost opening = head@;
        let mut i: usize = 0;
        assert(self@.headers.take(0) =~= Seq::empty());
        assert(opening + header_lines(self@.headers.take(0)) =~= opening);
        while i < self.headers.len()
            invariant
                i <= self.headers@.len(),
                head@ == opening + header_lines(self@.headers.take(i as int)),
            decreases self.headers@.len() - i,
        {
            let (name, value) = self.headers[i];
            let ghost before = self@.headers.take(i as int);
            proof {
                let now = self@.headers.take(i + 1);
                assert(now.drop_last() =~= before);
                assert(now.last() == (name@, value@));
            }
            head.append(name);
            head.append(": ");
            head.append(value);
            head.append("\r\n");
            i = i + 1;
            assert(head@ =~= opening + header_lines(self@.headers.take(i as int)));
        }
        assert(self@.headers.take(i as int) =~= self@.headers);
        let ghost before = head@;
        match self.body {
            Some((content_type, body)) => {
                head.append("Content-Type: ");
                head.append(content_type);
                head.append("\r\nContent-Length: ");
                let length = write_decimal(body.len() as u64);
                head.append(length.as_str());
                head.append("\r\n");
            },
            None => {
                // A request that could carry a body says it has none: some servers refuse a
                // bodyless POST without Content-Length.
                if equal_ignoring_case(self.method, "POST") || equal_ignoring_case(
                    self.method,
                    "PUT",
                ) || equal_ignoring_case(self.method, "PATCH") {
                    head.append("Content-Length: 0\r\n");
                }
            },
        }
        assert(head@ =~= before + self@.body_headers());
        head.append("\r\n");
        let mut bytes = head.as_str().as_bytes_vec();
        if let Some((_, body)) = self.body {
            bytes.extend_from_slice(body);
        }
        assert(bytes@ =~= self@.encoded(host@));
        bytes
    }
}

} // verus!
