//! Wire format of responses: a status line, the `Server` header, a blank
//! line, and for a successful lookup the body.

use vstd::prelude::*;
use vstd::string::StringSliceAdditionalSpecFns;
use crate::bytes::contents;

verus! {

/// The outcomes a request can have.
#[derive(Clone, Copy, PartialEq, Eq, Debug, Structural)]
pub enum Status {
    /// 200: the file was found and is sent as the body.
    Success,
    /// 400: the request line is malformed.
    BadRequest,
    /// 404: the file could not be read, or the path leaves the document root.
    NotFound,
    /// 501: the method is not `GET`.
    NotImplemented,
}

/// Why a response could not be framed.
#[derive(Clone, Copy, PartialEq, Eq, Debug, Structural)]
pub enum ResponseError {
    /// The status code is none of 200, 400, 404 and 501.
    UndefinedStatusCode,
}

impl ResponseError {
    /// The error in words.
    pub open spec fn description(self) -> Seq<char> {
        "Undefined status code."@
    }

    /// The error in words.
    pub fn describe(&self) -> (text: &'static str)
        ensures
            text@ == self.description(),
    {
        "Undefined status code."
    }
}

impl Status {
    /// The numeric status code.
    pub open spec fn code_spec(self) -> u16 {
        match self {
            Status::Success => 200,
            Status::BadRequest => 400,
            Status::NotFound => 404,
            Status::NotImplemented => 501,
        }
    }

    /// The status with the given numeric code, if there is one.
    pub open spec fn from_code_spec(code: u16) -> Option<Status> {
        if code == 200 {
            Some(Status::Success)
        } else if code == 400 {
            Some(Status::BadRequest)
        } else if code == 404 {
            Some(Status::NotFound)
        } else if code == 501 {
            Some(Status::NotImplemented)
        } else {
            None
        }
    }

    /// The status line, with its line terminator.
    pub open spec fn line(self) -> Seq<u8> {
        match self {
            Status::Success => "HTTP/1.0 200 OK\r\n".spec_bytes(),
            Status::BadRequest => "HTTP/1.0 400 Bad Request\r\n".spec_bytes(),
            Status::NotFound => "HTTP/1.0 404 Not Found\r\n".spec_bytes(),
            Status::NotImplemented => "HTTP/1.0 501 Not Implemented\r\n".spec_bytes(),
        }
    }

    /// The numeric status code.
    #[verifier::when_used_as_spec(code_spec)]
    pub fn code(self) -> (code: u16)
        ensures
            code == self.code_spec(),
    {
        match self {
            Status::Success => 200,
            Status::BadRequest => 400,
            Status::NotFound => 404,
            Status::NotImplemented => 501,
        }
    }

    /// The status with the given numeric code, if there is one.
    pub fn from_code(code: u16) -> (status: Option<Status>)
        ensures
            status == Status::from_code_spec(code),
    {
        if code == 200 {
            Some(Status::Success)
        } else if code == 400 {
            Some(Status::BadRequest)
        } else if code == 404 {
            Some(Status::NotFound)
        } else if code == 501 {
            Some(Status::NotImplemented)
        } else {
            None
        }
    }

    fn line_text(self) -> (text: &'static str)
        ensures
            text.spec_bytes() == self.line(),
    {
        match self {
            Status::Success => "HTTP/1.0 200 OK\r\n",
            Status::BadRequest => "HTTP/1.0 400 Bad Request\r\n",
            Status::NotFound => "HTTP/1.0 404 Not Found\r\n",
            Status::NotImplemented => "HTTP/1.0 501 Not Implemented\r\n",
        }
    }
}

/// The header that names the server, with its line terminator.
pub open spec fn server_header() -> Seq<u8> {
    "Server: mio webserver\r\n".spec_bytes()
}

/// The empty line that ends the headers.
pub open spec fn blank_line() -> Seq<u8> {
    "\r\n".spec_bytes()
}

/// The bytes that follow the headers: the body of a 200, nothing otherwise.
pub open spec fn payload(status: Status, body: Option<Seq<u8>>) -> Seq<u8> {
    match (status, body) {
        (Status::Success, Some(bytes)) => bytes,
        _ => Seq::empty(),
    }
}

/// The complete response for an outcome.
pub open spec fn message(status: Status, body: Option<Seq<u8>>) -> Seq<u8> {
    status.line() + server_header() + blank_line() + payload(status, body)
}

/// The complete response for a numeric status code, where the code is defined.
pub open spec fn message_for_code(code: u16, body: Option<Seq<u8>>) -> Option<Seq<u8>> {
    match Status::from_code_spec(code) {
        Some(status) => Some(message(status, body)),
        None => None,
    }
}

/// A status line holds the three digits of its code after `HTTP/1.0 `.
pub proof fn lemma_line_holds_code(status: Status)
    ensures
        status.line().len() >= 12,
        status.line()[9] == '0' as u8 + status.code_spec() / 100,
        status.line()[10] == '0' as u8 + (status.code_spec() / 10) % 10,
        status.line()[11] == '0' as u8 + status.code_spec() % 10,
{
    match status {
        Status::Success => {
            reveal_strlit("HTTP/1.0 200 OK\r\n");
            assert(vstd::string::is_ascii("HTTP/1.0 200 OK\r\n"));
            vstd::string::is_ascii_spec_bytes("HTTP/1.0 200 OK\r\n");
        },
        Status::BadRequest => {
            reveal_strlit("HTTP/1.0 400 Bad Request\r\n");
            assert(vstd::string::is_ascii("HTTP/1.0 400 Bad Request\r\n"));
            vstd::string::is_ascii_spec_bytes("HTTP/1.0 400 Bad Request\r\n");
        },
        Status::NotFound => {
            reveal_strlit("HTTP/1.0 404 Not Found\r\n");
            assert(vstd::string::is_ascii("HTTP/1.0 404 Not Found\r\n"));
            vstd::string::is_ascii_spec_bytes("HTTP/1.0 404 Not Found\r\n");
        },
        Status::NotImplemented => {
            reveal_strlit("HTTP/1.0 501 Not Implemented\r\n");
            assert(vstd::string::is_ascii("HTTP/1.0 501 Not Implemented\r\n"));
            vstd::string::is_ascii_spec_bytes("HTTP/1.0 501 Not Implemented\r\n");
        },
    }
}

/// The outcome can be read off a response: responses for different outcomes
/// differ, whatever their bodies.
pub proof fn lemma_message_tells_status(
    first: Status,
    first_body: Option<Seq<u8>>,
    second: Status,
    second_body: Option<Seq<u8>>,
)
    requires
        message(first, first_body) == message(second, second_body),
    ensures
        first == second,
{
    lemma_line_holds_code(first);
    lemma_line_holds_code(second);
    let one = message(first, first_body);
    let other = message(second, second_body);
    assert(one[9] == first.line()[9]);
    assert(one[10] == first.line()[10]);
    assert(one[11] == first.line()[11]);
    assert(other[9] == second.line()[9]);
    assert(other[10] == second.line()[10]);
    assert(other[11] == second.line()[11]);
}

/// Every response has its headers: the blank line at least.
pub proof fn lemma_message_not_empty(status: Status, body: Option<Seq<u8>>)
    ensures
        message(status, body).len() >= 2,
{
    reveal_strlit("\r\n");
    assert(vstd::string::is_ascii("\r\n"));
    vstd::string::is_ascii_spec_bytes("\r\n");
}

/// Frames the response for `status`. A body is sent with `Status::Success` only.
pub fn build_response(status: Status, body: Option<Vec<u8>>) -> (out: Vec<u8>)
    ensures
        out@ == message(status, contents(body)),
{
    let mut out: Vec<u8> = Vec::new();
    out.extend_from_slice(status.line_text().as_bytes());
    out.extend_from_slice("Server: mio webserver\r\n".as_bytes());
    out.extend_from_slice("\r\n".as_bytes());
    match (status, body) {
        (Status::Success, Some(mut bytes)) => {
            out.append(&mut bytes);
        },
        _ => {},
    }
    out
}

/// Frames the response for a numeric status code. Codes other than 200, 400,
/// 404 and 501 are refused.
pub fn create_msg_from_code(status_code: u16, msg: Option<Vec<u8>>) -> (out: Result<
    Vec<u8>,
    ResponseError,
>)
    ensures
        match message_for_code(status_code, contents(msg)) {
            Some(bytes) => out is Ok && out->Ok_0@ == bytes,
            None => out == Err::<Vec<u8>, ResponseError>(ResponseError::UndefinedStatusCode),
        },
{
    match Status::from_code(status_code) {
        Some(status) => Ok(build_response(status, msg)),
        None => Err(ResponseError::UndefinedStatusCode),
    }
}

} // verus!
