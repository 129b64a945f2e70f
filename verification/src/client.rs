//! Firing a request: what of a request is handed to the transport, and what
//! is made of that which comes back.

use vstd::prelude::*;
use vstd::string::StringExecFns;
use crate::codec::RequestView;
use crate::storage::{header_views, HttpRequest};
use std::str::FromStr;

verus! {

/// The answer to a request.
#[derive(Debug, Clone)]
pub struct HttpResponse {
    pub status: u16,
    pub status_text: String,
    pub headers: Vec<(String, String)>,
    pub body: String,
}

/// An answer as a mathematical value.
pub struct ResponseView {
    pub status: u16,
    pub status_text: Seq<char>,
    pub headers: Seq<(Seq<char>, Seq<char>)>,
    pub body: Seq<char>,
}

impl View for HttpResponse {
    type V = ResponseView;

    open spec fn view(&self) -> ResponseView {
        ResponseView {
            status: self.status,
            status_text: self.status_text@,
            headers: header_views(self.headers@),
            body: self.body@,
        }
    }
}

/// An answer as the transport gives it: a header value or the body is absent
/// where it is no text.
#[derive(Debug, Clone)]
pub struct RawResponse {
    pub status: u16,
    pub status_text: String,
    pub headers: Vec<(String, Option<String>)>,
    pub body: Option<String>,
}

/// Whether `c` may stand in a token of HTTP: a letter, a digit, or one of
/// the marks that a token admits.
pub open spec fn is_token_char(c: char) -> bool {
    ||| 'a' <= c <= 'z'
    ||| 'A' <= c <= 'Z'
    ||| '0' <= c <= '9'
    ||| c == '!'
    ||| c == '#'
    ||| c == '$'
    ||| c == '%'
    ||| c == '&'
    ||| c == '\''
    ||| c == '*'
    ||| c == '+'
    ||| c == '-'
    ||| c == '.'
    ||| c == '^'
    ||| c == '_'
    ||| c == '`'
    ||| c == '|'
    ||| c == '~'
}

/// Whether `s` is a token of HTTP: not empty, and made of token characters.
pub open spec fn is_token(s: Seq<char>) -> bool {
    s.len() > 0 && forall|i: int| 0 <= i < s.len() ==> is_token_char(#[trigger] s[i])
}

/// Whether `s` can be sent as a method: it is a token.
pub open spec fn method_accepted(s: Seq<char>) -> bool {
    is_token(s)
}

/// Whether `s` can be sent as the name of a header: it is a token of at most
/// 65535 characters.
pub open spec fn header_name_accepted(s: Seq<char>) -> bool {
    is_token(s) && s.len() <= 65535
}

/// Whether `c` may stand in the value of a header: a tab, or a character from
/// the space on other than the delete character.
pub open spec fn is_value_char(c: char) -> bool {
    c == '\t' || (c >= ' ' && c != '\u{7f}')
}

/// Whether `s` can be sent as the value of a header.
pub open spec fn header_value_accepted(s: Seq<char>) -> bool {
    forall|i: int| 0 <= i < s.len() ==> is_value_char(#[trigger] s[i])
}

/// Whether a header can be sent: its name and its value can.
pub open spec fn sendable(h: (Seq<char>, Seq<char>)) -> bool {
    header_name_accepted(h.0) && header_value_accepted(h.1)
}

/// The headers that can be sent, in their order.
pub open spec fn sendable_headers(hs: Seq<(Seq<char>, Seq<char>)>) -> Seq<(Seq<char>, Seq<char>)>
    decreases hs.len(),
{
    if hs.len() == 0 {
        Seq::empty()
    } else if sendable(hs.last()) {
        sendable_headers(hs.drop_last()).push(hs.last())
    } else {
        sendable_headers(hs.drop_last())
    }
}

/// What is reported of a method that cannot be sent.
pub open spec fn method_error() -> Seq<char> {
    "Invalid method: "@ + "invalid HTTP method"@
}

/// `Method::from_str` of the transport, with the text of its error. It
/// accepts a method that is a token and no other: an empty one is refused,
/// and so is one with a byte that its table of method characters lacks, which
/// holds the token characters alone. The error reads the same for every
/// method that is refused.
#[verifier::external_body]
fn method_rejection(method: &str) -> (out: Option<String>)
    ensures
        out is None <==> method_accepted(method@),
        out is Some ==> out->0@ == "invalid HTTP method"@,
{
    match reqwest::Method::from_str(method) {
        Ok(_) => None,
        Err(e) => Some(e.to_string()),
    }
}

/// `HeaderName::from_str` of the transport: it accepts a name of 1 to 65535
/// bytes, each of them a token character, and no other. Such a name has as
/// many bytes as characters.
#[verifier::external_body]
fn header_name_fits(name: &str) -> (out: bool)
    ensures
        out == header_name_accepted(name@),
{
    reqwest::header::HeaderName::from_str(name).is_ok()
}

/// `HeaderValue::from_str` of the transport: it accepts a value unless one of
/// its bytes is below 32 and no tab, or is 127. The bytes of a character
/// beyond 127 are all above 127.
#[verifier::external_body]
fn header_value_fits(value: &str) -> (out: bool)
    ensures
        out == header_value_accepted(value@),
{
    reqwest::header::HeaderValue::from_str(value).is_ok()
}

/// What is handed to the transport for `req`: the request with its method,
/// URL and body as they are and with those of its headers that can be sent,
/// in their order. A method that cannot be sent is reported and nothing is
/// handed on.
pub fn prepare_request(req: &HttpRequest) -> (out: Result<HttpRequest, String>)
    ensures
        match out {
            Ok(sent) => method_accepted(req@.method) && sent@ == (RequestView {
                method: req@.method,
                url: req@.url,
                headers: sendable_headers(req@.headers),
                body: req@.body,
            }),
            Err(e) => !method_accepted(req@.method) && e@ == method_error(),
        },
{
    match method_rejection(req.method.as_str()) {
        Some(reason) => {
            let mut message = "Invalid method: ".to_owned();
            message.append(reason.as_str());
            Err(message)
        },
        None => {
            let ghost hs = header_views(req.headers@);
            let mut kept: Vec<(String, String)> = Vec::new();
            let mut i: usize = 0;
            proof {
                assert(hs.take(0) == Seq::<(Seq<char>, Seq<char>)>::empty());
                assert(header_views(kept@) == Seq::<(Seq<char>, Seq<char>)>::empty());
            }
            while i < req.headers.len()
                invariant
                    i <= req.headers.len(),
                    hs == header_views(req.headers@),
                    header_views(kept@) == sendable_headers(hs.take(i as int)),
                decreases req.headers.len() - i,
            {
                let ghost before = header_views(kept@);
                let name = &req.headers[i].0;
                let value = &req.headers[i].1;
                proof {
                    let next = hs.take(i + 1);
                    assert(next.drop_last() == hs.take(i as int));
                    assert(next.last() == (name@, value@));
                }
                if header_name_fits(name.as_str()) && header_value_fits(value.as_str()) {
                    kept.push((name.clone(), value.clone()));
                    assert(header_views(kept@) == before.push((name@, value@)));
                }
                i = i + 1;
            }
            proof {
                assert(hs.take(i as int) == hs);
            }
            Ok(
                HttpRequest {
                    method: req.method.clone(),
                    url: req.url.clone(),
                    headers: kept,
                    body: req.body.clone(),
                },
            )
        },
    }
}

/// The headers of an answer, each value that is no text given as empty.
pub open spec fn received_headers(hs: Seq<(String, Option<String>)>) -> Seq<(Seq<char>, Seq<char>)> {
    Seq::new(
        hs.len(),
        |i: int|
            (
                hs[i].0@,
                match hs[i].1 {
                    Some(v) => v@,
                    None => Seq::empty(),
                },
            ),
    )
}

/// The answer that is shown for what the transport gave: the status and its
/// text as given, each header with its value, or with an empty one where the
/// value is no text, and the body, or an empty one where it is no text.
pub fn normalize_response(raw: RawResponse) -> (out: HttpResponse)
    ensures
        out@ == (ResponseView {
            status: raw.status,
            status_text: raw.status_text@,
            headers: received_headers(raw.headers@),
            body: match raw.body {
                Some(b) => b@,
                None => Seq::empty(),
            },
        }),
{
    let mut headers: Vec<(String, String)> = Vec::new();
    let mut i: usize = 0;
    while i < raw.headers.len()
        invariant
            i <= raw.headers.len(),
            header_views(headers@) == received_headers(raw.headers@).take(i as int),
        decreases raw.headers.len() - i,
    {
        let ghost before = header_views(headers@);
        let name = raw.headers[i].0.clone();
        let value = match &raw.headers[i].1 {
            Some(v) => v.clone(),
            None => String::new(),
        };
        let ghost pair = (name@, value@);
        headers.push((name, value));
        proof {
            assert(header_views(headers@) == before.push(pair));
            assert(received_headers(raw.headers@).take(i + 1) == before.push(pair));
        }
        i = i + 1;
    }
    proof {
        assert(received_headers(raw.headers@).take(i as int) == received_headers(raw.headers@));
    }
    let body = match raw.body {
        Some(b) => b,
        None => String::new(),
    };
    HttpResponse { status: raw.status, status_text: raw.status_text, headers, body }
}

/// What a request ends in: the answer that is shown where the transport gave
/// one, and the transport's own report where it failed.
pub fn conclude(outcome: Result<RawResponse, String>) -> (out: Result<HttpResponse, String>)
    ensures
        match outcome {
            Ok(raw) => out is Ok && out->Ok_0@ == (ResponseView {
                status: raw.status,
                status_text: raw.status_text@,
                headers: received_headers(raw.headers@),
                body: match raw.body {
                    Some(b) => b@,
                    None => Seq::empty(),
                },
            }),
            Err(e) => out == Err::<HttpResponse, String>(e),
        },
{
    match outcome {
        Ok(raw) => Ok(normalize_response(raw)),
        Err(e) => Err(e),
    }
}

} // verus!
