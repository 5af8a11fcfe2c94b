//! The response builder.
//!
//! A response is a status, one of two header shapes (a content type or a
//! redirect location), and a text or binary body.  Serialization order is
//! fixed: status line, exactly one header line, a blank line, then the
//! body bytes verbatim.  There is no Content-Length header: the client
//! relies on connection close to detect the end of the body.

use vstd::prelude::*;

use crate::decimal::{dec_bytes, push_dec_u64};
use crate::bytes::append_str;
use vstd::string::StringSliceAdditionalSpecFns;
use vstd::string::StrSliceExecFns;
use vstd::utf8::encode_utf8;

verus! {

/// The media type of a text or image body.
pub enum ContentType {
    Html,
    Png,
}

/// The bytes of a content type's MIME name.
pub open spec fn mime_bytes(ct: ContentType) -> Seq<u8> {
    match ct {
        ContentType::Html => ("text/html").spec_bytes(),
        ContentType::Png => ("image/png").spec_bytes(),
    }
}

impl ContentType {
    /// The MIME name written in the Content-Type header.
    pub fn mime(&self) -> (r: &'static str)
        ensures
            r.spec_bytes() == mime_bytes(*self),
    {
        match self {
            ContentType::Html => "text/html",
            ContentType::Png => "image/png",
        }
    }
}

/// A response body: page text or raw image bytes.
pub enum Body {
    String(String),
    Bytes(Vec<u8>),
}

/// The bytes a body contributes to the wire: text encoded as UTF-8,
/// binary copied byte for byte.
pub open spec fn body_view(b: &Body) -> Seq<u8> {
    match b {
        Body::String(s) => encode_utf8(s@),
        Body::Bytes(v) => v@,
    }
}

/// The bytes of the reason phrase paired with a status code.
pub open spec fn reason_bytes(status: int) -> Seq<u8> {
    if status == 200 {
        ("OK").spec_bytes()
    } else if status == 303 {
        ("See Other").spec_bytes()
    } else if status == 404 {
        ("Not Found").spec_bytes()
    } else {
        ("").spec_bytes()
    }
}

/// An HTTP response under construction.
pub struct Response {
    pub status: usize,
    pub location: Option<&'static str>,
    pub content_type: ContentType,
    pub body: Body,
}

/// The one header line of a response: a redirect location when one is
/// set, the content type otherwise.
pub open spec fn header_bytes(r: &Response) -> Seq<u8> {
    match r.location {
        Some(l) => ("Location: ").spec_bytes() + l.spec_bytes(),
        None => ("Content-Type: ").spec_bytes() + mime_bytes(r.content_type),
    }
}

/// The full serialized response: status line, one header line, a blank
/// line, then the body.
pub open spec fn wire_bytes(r: &Response) -> Seq<u8> {
    ("HTTP/1.1 ").spec_bytes() + dec_bytes(r.status as nat) + (" ").spec_bytes() + reason_bytes(
        r.status as int,
    ) + ("\r\n").spec_bytes() + header_bytes(r) + ("\r\n").spec_bytes() + ("\r\n").spec_bytes()
        + body_view(&r.body)
}

impl Response {
    /// A 200 response with an HTML content type and an empty body.
    pub fn ok() -> (r: Response)
        ensures
            r.status == 200,
            r.location is None,
            r.content_type is Html,
            body_view(&r.body) == Seq::<u8>::empty(),
    {
        let r = Response {
            status: 200,
            body: Body::String(String::new()),
            content_type: ContentType::Html,
            location: None,
        };
        proof {
            assert(encode_utf8(Seq::<char>::empty()) =~= Seq::<u8>::empty());
        }
        r
    }

    /// A 303 redirect to `to`, with an empty body.
    pub fn redirect(to: &'static str) -> (r: Response)
        ensures
            r.status == 303,
            r.location == Some(to),
            r.content_type is Html,
            body_view(&r.body) == Seq::<u8>::empty(),
    {
        let r = Response {
            status: 303,
            location: Some(to),
            body: Body::String(String::new()),
            content_type: ContentType::Html,
        };
        proof {
            assert(encode_utf8(Seq::<char>::empty()) =~= Seq::<u8>::empty());
        }
        r
    }

    /// A 404 response with an HTML content type and an empty body.
    pub fn err() -> (r: Response)
        ensures
            r.status == 404,
            r.location is None,
            r.content_type is Html,
            body_view(&r.body) == Seq::<u8>::empty(),
    {
        let r = Response {
            status: 404,
            body: Body::String(String::new()),
            content_type: ContentType::Html,
            location: None,
        };
        proof {
            assert(encode_utf8(Seq::<char>::empty()) =~= Seq::<u8>::empty());
        }
        r
    }

    /// The same response with its body replaced.
    pub fn body(self, body: Body) -> (r: Response)
        ensures
            r.status == self.status,
            r.location == self.location,
            r.content_type == self.content_type,
            r.body == body,
    {
        Response {
            status: self.status,
            location: self.location,
            content_type: self.content_type,
            body,
        }
    }

    /// The same response with its content type replaced.
    pub fn content_type(self, content_type: ContentType) -> (r: Response)
        ensures
            r.status == self.status,
            r.location == self.location,
            r.content_type == content_type,
            r.body == self.body,
    {
        Response {
            status: self.status,
            location: self.location,
            content_type,
            body: self.body,
        }
    }

    /// The reason phrase paired with the status code; empty for a status
    /// the service never produces.
    pub fn reason(&self) -> (r: &'static str)
        ensures
            r.spec_bytes() == reason_bytes(self.status as int),
    {
        match self.status {
            200 => "OK",
            303 => "See Other",
            404 => "Not Found",
            _ => "",
        }
    }

    /// The serialized response, ready to be written to the connection.
    pub fn as_bytes(&self) -> (r: Vec<u8>)
        ensures
            r@ == wire_bytes(self),
    {
        let mut out: Vec<u8> = Vec::new();
        append_str(&mut out, "HTTP/1.1 ");
        push_dec_u64(&mut out, self.status as u64);
        append_str(&mut out, " ");
        let reason = self.reason();
        append_str(&mut out, reason);
        append_str(&mut out, "\r\n");
        match self.location {
            Some(l) => {
                append_str(&mut out, "Location: ");
                append_str(&mut out, l);
            },
            None => {
                append_str(&mut out, "Content-Type: ");
                let m = self.content_type.mime();
                append_str(&mut out, m);
            },
        }
        append_str(&mut out, "\r\n");
        append_str(&mut out, "\r\n");
        match &self.body {
            Body::String(s) => {
                let b = s.as_str().as_bytes_vec();
                crate::bytes::append_bytes(&mut out, &b);
            },
            Body::Bytes(v) => {
                crate::bytes::append_bytes(&mut out, v);
            },
        }
        proof {
            assert(out@ =~= wire_bytes(self));
        }
        out
    }
}

} // verus!
