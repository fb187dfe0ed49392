//! The request line: `METHOD SP PATH SP HTTP/1.MINOR CR LF`.
//!
//! Only the first line of the input is read. The version is fixed at the end
//! of the line; of what stands before it, the last space separates the method
//! from the path, so a path holds no space and a method may.

use vstd::prelude::*;
use vstd::slice::slice_to_vec;
use vstd::string::StringSliceAdditionalSpecFns;
use vstd::utf8::valid_utf8;
use crate::bytes::{find_first, find_last, lemma_first_occurrence, lemma_last_occurrence, same};
use crate::text::is_text;

verus! {

/// Line feed.
pub const LF: u8 = 10;

/// Carriage return.
pub const CR: u8 = 13;

/// Space.
pub const SP: u8 = 32;

/// A well-formed request line.
#[derive(Debug)]
pub struct Request {
    pub method: Vec<u8>,
    pub path: Vec<u8>,
    /// 0 for `HTTP/1.0`, 1 for `HTTP/1.1`.
    pub minor_version: u8,
}

/// What a `Request` holds.
pub struct RequestView {
    pub method: Seq<u8>,
    pub path: Seq<u8>,
    pub minor_version: u8,
}

impl View for Request {
    type V = RequestView;

    open spec fn view(&self) -> RequestView {
        RequestView {
            method: self.method@,
            path: self.path@,
            minor_version: self.minor_version,
        }
    }
}

/// Why an input is no request.
#[derive(Clone, Copy, PartialEq, Eq, Debug, Structural)]
pub enum Malformed {
    /// The input is not UTF-8.
    NotText,
    /// The input has no line feed, or its first line feed does not follow a
    /// carriage return.
    UnterminatedLine,
    /// The first line does not end with ` HTTP/1.0` or ` HTTP/1.1`.
    BadVersion,
    /// No space before the version separates a method from a path.
    MissingSeparator,
}

/// What stands between the path and the minor version.
pub open spec fn version_prefix() -> Seq<u8> {
    " HTTP/1.".spec_bytes()
}

/// Whether `digit` is the character of a minor version that is accepted.
pub open spec fn is_minor_digit(digit: u8) -> bool {
    digit == '0' as u8 || digit == '1' as u8
}

/// The first line of `bytes` without its line feed, if `bytes` holds one.
pub open spec fn first_line(bytes: Seq<u8>) -> Option<Seq<u8>> {
    match bytes.index_of_first(LF) {
        Some(end) => Some(bytes.take(end)),
        None => None,
    }
}

/// The reading of a line that has lost its line feed. The last ten bytes of
/// a well-formed line are ` HTTP/1.`, the minor version and the carriage
/// return.
pub open spec fn parse_line(line: Seq<u8>) -> Result<RequestView, Malformed> {
    let n = line.len() as int;
    if n == 0 || line[n - 1] != CR {
        Err(Malformed::UnterminatedLine)
    } else if n < 10 || line.subrange(n - 10, n - 2) != version_prefix() || !is_minor_digit(
        line[n - 2],
    ) {
        Err(Malformed::BadVersion)
    } else {
        let target = line.take(n - 10);
        match target.index_of_last(SP) {
            Some(space) => Ok(
                RequestView {
                    method: target.take(space),
                    path: target.skip(space + 1),
                    minor_version: (line[n - 2] - '0' as u8) as u8,
                },
            ),
            None => Err(Malformed::MissingSeparator),
        }
    }
}

/// The reading of raw input.
pub open spec fn parse(bytes: Seq<u8>) -> Result<RequestView, Malformed> {
    if !valid_utf8(bytes) {
        Err(Malformed::NotText)
    } else {
        match first_line(bytes) {
            Some(line) => parse_line(line),
            None => Err(Malformed::UnterminatedLine),
        }
    }
}

/// What a parser's result holds.
pub open spec fn outcome_view(outcome: Result<Request, Malformed>) -> Result<
    RequestView,
    Malformed,
> {
    match outcome {
        Ok(request) => Ok(request@),
        Err(reason) => Err(reason),
    }
}

/// The version prefix, byte by byte.
pub proof fn lemma_version_prefix()
    ensures
        version_prefix() == seq![
            ' ' as u8,
            'H' as u8,
            'T' as u8,
            'T' as u8,
            'P' as u8,
            '/' as u8,
            '1' as u8,
            '.' as u8,
        ],
{
    reveal_strlit(" HTTP/1.");
    assert(vstd::string::is_ascii(" HTTP/1."));
    vstd::string::is_ascii_spec_bytes(" HTTP/1.");
    assert(version_prefix() =~= seq![
        ' ' as u8,
        'H' as u8,
        'T' as u8,
        'T' as u8,
        'P' as u8,
        '/' as u8,
        '1' as u8,
        '.' as u8,
    ]);
}

/// The character of a minor version.
pub open spec fn minor_digit(minor: u8) -> u8 {
    ('0' as u8 + minor) as u8
}

/// A request line as it is sent, with its terminator.
pub open spec fn request_line(request: RequestView) -> Seq<u8> {
    request.method + seq![SP] + request.path + version_prefix() + seq![
        minor_digit(request.minor_version),
        CR,
        LF,
    ]
}

/// Whether `input` is text that begins with the line of `request`, and the
/// line can be read in one way only: no line feed in the method or the path,
/// no space in the path, a minor version of 0 or 1.
pub open spec fn begins_with(input: Seq<u8>, request: RequestView) -> bool {
    &&& valid_utf8(input)
    &&& request.minor_version <= 1
    &&& !request.method.contains(LF)
    &&& !request.path.contains(LF)
    &&& !request.path.contains(SP)
    &&& request_line(request).is_prefix_of(input)
}

/// Text that begins with the line of a request is read as that request.
pub proof fn lemma_parse_complete(input: Seq<u8>, request: RequestView)
    requires
        begins_with(input, request),
    ensures
        parse(input) == Ok::<RequestView, Malformed>(request),
{
    lemma_version_prefix();
    let method = request.method;
    let path = request.path;
    let digit = minor_digit(request.minor_version);
    let sent = request_line(request);
    let end: int = (method.len() + path.len() + 11) as int;
    assert(sent.len() == end + 1);
    assert(sent =~= input.subrange(0, end + 1));
    assert forall|j: int| 0 <= j <= end implies #[trigger] input[j] == sent[j] by {
        assert(input.subrange(0, end + 1)[j] == input[j]);
    }
    assert forall|j: int| 0 <= j < end implies input[j] != LF by {
        assert(input[j] == sent[j]);
        if j < method.len() {
            assert(sent[j] == method[j]);
        } else if j == method.len() {
        } else if j < method.len() + 1 + path.len() {
            assert(sent[j] == path[j - method.len() - 1]);
        } else if j < method.len() + 1 + path.len() + 8 {
            assert(sent[j] == version_prefix()[j - method.len() - 1 - path.len()]);
        } else {
        }
    }
    assert(input[end] == sent[end]);
    lemma_first_occurrence(input, LF, end);
    let line = input.take(end);
    assert(line =~= method + seq![SP] + path + version_prefix() + seq![digit, CR]);
    assert(line.subrange(end - 10, end - 2) =~= version_prefix());
    assert(line[end - 2] == digit);
    assert(line[end - 1] == CR);
    let target = line.take(end - 10);
    assert(target =~= method + seq![SP] + path);
    assert forall|j: int| method.len() < j < target.len() implies target[j] != SP by {
        assert(target[j] == path[j - method.len() - 1]);
    }
    lemma_last_occurrence(target, SP, method.len() as int);
    assert(target.take(method.len() as int) =~= method);
    assert(target.skip(method.len() as int + 1) =~= path);
}

/// What is read as a request begins with the line of that request.
pub proof fn lemma_parse_sound(input: Seq<u8>)
    requires
        parse(input) is Ok,
    ensures
        begins_with(input, parse(input)->Ok_0),
{
    lemma_version_prefix();
    let request = parse(input)->Ok_0;
    input.index_of_first_ensures(LF);
    let end = input.index_of_first(LF)->Some_0;
    let line = input.take(end);
    let target = line.take(end - 10);
    target.index_of_last_ensures(SP);
    let space = target.index_of_last(SP)->Some_0;
    let digit = line[end - 2];
    assert(request.method == target.take(space));
    assert(request.path == target.skip(space + 1));
    assert(digit == minor_digit(request.minor_version));
    let sent = request_line(request);
    assert(sent.len() == end + 1);
    assert(sent =~= input.subrange(0, end + 1)) by {
        assert forall|j: int| 0 <= j <= end implies sent[j] == input[j] by {
            if j < space {
                assert(sent[j] == request.method[j]);
            } else if j == space {
                assert(target[space] == SP);
            } else if j < end - 10 {
                assert(sent[j] == request.path[j - space - 1]);
                assert(request.path[j - space - 1] == target[j]);
            } else if j < end - 2 {
                assert(sent[j] == version_prefix()[j - (end - 10)]);
                assert(line.subrange(end - 10, end - 2)[j - (end - 10)] == line[j]);
            } else {
            }
        }
    }
    assert forall|j: int| 0 <= j < request.method.len() implies request.method[j] != LF by {
        assert(request.method[j] == input[j]);
    }
    assert forall|j: int| 0 <= j < request.path.len() implies request.path[j] != LF
        && request.path[j] != SP by {
        assert(request.path[j] == target[j + space + 1]);
        assert(target[j + space + 1] == input[j + space + 1]);
    }
}

/// An input is read as a request exactly if it is text that begins with the
/// line of that request; every other input is malformed.
pub proof fn lemma_parse_exact(input: Seq<u8>, request: RequestView)
    ensures
        parse(input) == Ok::<RequestView, Malformed>(request) <==> begins_with(input, request),
{
    if begins_with(input, request) {
        lemma_parse_complete(input, request);
    }
    if parse(input) == Ok::<RequestView, Malformed>(request) {
        lemma_parse_sound(input);
    }
}

/// Reads a request line that has lost its line feed.
pub fn parse_request_line(line: &[u8]) -> (outcome: Result<Request, Malformed>)
    ensures
        outcome_view(outcome) == parse_line(line@),
{
    let n: usize = line.len();
    if n == 0 || line[n - 1] != CR {
        return Err(Malformed::UnterminatedLine);
    }
    if n < 10 {
        return Err(Malformed::BadVersion);
    }
    let digit: u8 = line[n - 2];
    if !same(&line[n - 10..n - 2], " HTTP/1.".as_bytes()) || (digit != '0' as u8 && digit
        != '1' as u8) {
        return Err(Malformed::BadVersion);
    }
    let target: &[u8] = &line[0..n - 10];
    assert(target@ == line@.take(n - 10));
    match find_last(target, SP) {
        Some(space) => {
            let method: Vec<u8> = slice_to_vec(&target[0..space]);
            let path: Vec<u8> = slice_to_vec(&target[space + 1..n - 10]);
            assert(method@ == target@.take(space as int));
            assert(path@ == target@.skip(space + 1));
            Ok(Request { method, path, minor_version: digit - '0' as u8 })
        },
        None => Err(Malformed::MissingSeparator),
    }
}

/// Reads the request line at the head of `buffer`.
pub fn parse_request(buffer: &[u8]) -> (outcome: Result<Request, Malformed>)
    ensures
        outcome_view(outcome) == parse(buffer@),
{
    if !is_text(buffer) {
        return Err(Malformed::NotText);
    }
    match find_first(buffer, LF) {
        Some(end) => {
            let line: &[u8] = &buffer[0..end];
            assert(line@ == buffer@.take(end as int));
            parse_request_line(line)
        },
        None => Err(Malformed::UnterminatedLine),
    }
}

} // verus!
