//! From the bytes of a request to the bytes of its response.
//!
//! The file itself is read by the caller: `requested_file` says which one,
//! `make_response` takes what was read.

use vstd::prelude::*;
use vstd::string::StringSliceAdditionalSpecFns;
use crate::bytes::{contents, same};
use vstd::utf8::valid_utf8;
use crate::request::{
    begins_with,
    lemma_parse_complete,
    lemma_parse_sound,
    parse,
    parse_request,
    request_line,
    RequestView,
    LF,
    SP,
};
use crate::resolver::{
    all_plain,
    joined,
    lemma_joined_is_free_of,
    lemma_located_under_root,
    lemma_plain_path_resolves,
    locate,
    locate_file,
    resolve,
    resolve_path,
};
use crate::response::{
    blank_line,
    build_response,
    lemma_message_tells_status,
    message,
    server_header,
    Status,
};

verus! {

/// The one method that is served.
pub open spec fn get() -> Seq<u8> {
    "GET".spec_bytes()
}

/// The file under `root` that `input` asks for: that of a well-formed `GET`
/// whose path stays under the root.
pub open spec fn target(root: Seq<u8>, input: Seq<u8>) -> Option<Seq<u8>> {
    match parse(input) {
        Ok(request) => if request.method == get() {
            locate(root, request.path)
        } else {
            None
        },
        Err(_) => None,
    }
}

/// How `input` is answered, where `file` is what could be read of the file it
/// asks for.
pub open spec fn outcome(input: Seq<u8>, file: Option<Seq<u8>>) -> Status {
    match parse(input) {
        Ok(request) => if request.method != get() {
            Status::NotImplemented
        } else if resolve(request.path) is None || file is None {
            Status::NotFound
        } else {
            Status::Success
        },
        Err(_) => Status::BadRequest,
    }
}

/// The response to `input`, where `file` is what could be read of the file it
/// asks for.
pub open spec fn response(input: Seq<u8>, file: Option<Seq<u8>>) -> Seq<u8> {
    message(outcome(input, file), file)
}

/// Whether `input` is text that begins with a request line.
pub open spec fn is_request(input: Seq<u8>) -> bool {
    exists|request: RequestView| begins_with(input, request)
}

/// A `GET` whose path stays under the root names the file that its path
/// leads to, and is answered with 200 and what was read of that file, byte for
/// byte.
pub proof fn lemma_get_serves_file(
    root: Seq<u8>,
    input: Seq<u8>,
    request: RequestView,
    body: Seq<u8>,
)
    requires
        begins_with(input, request),
        request.method == get(),
        resolve(request.path) is Some,
    ensures
        target(root, input) == locate(root, request.path),
        target(root, input) is Some,
        outcome(input, Some(body)) == Status::Success,
        response(input, Some(body)) == Status::Success.line() + server_header() + blank_line()
            + body,
{
    lemma_parse_complete(input, request);
}

/// A `GET` for plain names, each with a slash before it, names the file of
/// those names under the root.
pub proof fn lemma_get_names_file(
    root: Seq<u8>,
    input: Seq<u8>,
    request: RequestView,
    names: Seq<Seq<u8>>,
)
    requires
        begins_with(input, request),
        request.method == get(),
        names.len() >= 1,
        all_plain(names),
        request.path == joined(Seq::empty(), names),
    ensures
        target(root, input) == Some(joined(root, names)),
{
    lemma_parse_complete(input, request);
    lemma_plain_path_resolves(names);
}

/// The bytes of a `GET` for the file of `names`, with `rest` after the request
/// line.
pub open spec fn get_request(names: Seq<Seq<u8>>, minor: u8, rest: Seq<u8>) -> Seq<u8> {
    request_line(
        RequestView { method: get(), path: joined(Seq::empty(), names), minor_version: minor },
    ) + rest
}

/// The method that is served, byte by byte.
pub proof fn lemma_get_bytes()
    ensures
        get() == seq!['G' as u8, 'E' as u8, 'T' as u8],
{
    reveal_strlit("GET");
    assert(vstd::string::is_ascii("GET"));
    vstd::string::is_ascii_spec_bytes("GET");
    assert(get() =~= seq!['G' as u8, 'E' as u8, 'T' as u8]);
}

/// `GET /f HTTP/1.x`, where `f` is made of plain names without a space or a
/// line feed, names the file `f` under the root. It is answered with 200 and the
/// bytes of the file where the file was read, and with 404 and no body where
/// it was not.
pub proof fn lemma_get_request_is_served(
    root: Seq<u8>,
    names: Seq<Seq<u8>>,
    minor: u8,
    rest: Seq<u8>,
    body: Seq<u8>,
)
    requires
        names.len() >= 1,
        all_plain(names),
        forall|i: int|
            0 <= i < names.len() ==> !(#[trigger] names[i]).contains(SP) && !names[i].contains(LF),
        minor <= 1,
        valid_utf8(get_request(names, minor, rest)),
    ensures
        target(root, get_request(names, minor, rest)) == Some(joined(root, names)),
        response(get_request(names, minor, rest), Some(body)) == Status::Success.line()
            + server_header() + blank_line() + body,
        response(get_request(names, minor, rest), None) == Status::NotFound.line()
            + server_header() + blank_line(),
{
    let request = RequestView {
        method: get(),
        path: joined(Seq::empty(), names),
        minor_version: minor,
    };
    let input = get_request(names, minor, rest);
    lemma_get_bytes();
    lemma_joined_is_free_of(Seq::empty(), names, SP);
    lemma_joined_is_free_of(Seq::empty(), names, LF);
    assert(request_line(request).is_prefix_of(input));
    lemma_plain_path_resolves(names);
    lemma_get_serves_file(root, input, request, body);
    lemma_get_names_file(root, input, request, names);
    lemma_get_without_file(input, request);
}

/// A `GET` whose file could not be read is answered with 404 and no body.
pub proof fn lemma_get_without_file(input: Seq<u8>, request: RequestView)
    requires
        begins_with(input, request),
        request.method == get(),
    ensures
        outcome(input, None) == Status::NotFound,
        response(input, None) == Status::NotFound.line() + server_header() + blank_line(),
{
    lemma_parse_complete(input, request);
    assert(response(input, None) =~= Status::NotFound.line() + server_header() + blank_line());
}

/// A request with another method than `GET` names no file and is answered
/// with 501 and no body, whatever is handed in as the file.
pub proof fn lemma_other_method_not_implemented(
    root: Seq<u8>,
    input: Seq<u8>,
    request: RequestView,
    file: Option<Seq<u8>>,
)
    requires
        begins_with(input, request),
        request.method != get(),
    ensures
        target(root, input) is None,
        outcome(input, file) == Status::NotImplemented,
        response(input, file) == Status::NotImplemented.line() + server_header() + blank_line(),
{
    lemma_parse_complete(input, request);
    assert(response(input, file) =~= Status::NotImplemented.line() + server_header()
        + blank_line());
}

/// An input is answered with 400 exactly if it is not text that begins with
/// a request line. It then names no file, and the answer has no body,
/// whatever is handed in as the file.
pub proof fn lemma_malformed_bad_request(root: Seq<u8>, input: Seq<u8>, file: Option<Seq<u8>>)
    ensures
        outcome(input, file) == Status::BadRequest <==> !is_request(input),
        !is_request(input) ==> target(root, input) is None,
        !is_request(input) ==> response(input, file) == Status::BadRequest.line()
            + server_header() + blank_line(),
{
    if parse(input) is Ok {
        lemma_parse_sound(input);
        assert(begins_with(input, parse(input)->Ok_0));
    } else {
        assert forall|request: RequestView| !begins_with(input, request) by {
            if begins_with(input, request) {
                lemma_parse_complete(input, request);
            }
        }
        assert(response(input, file) =~= Status::BadRequest.line() + server_header()
            + blank_line());
    }
}

/// A `GET` whose path leaves the root, or does not begin with a slash, names
/// no file and is answered with 404 and no body, whatever is handed in as the
/// file.
pub proof fn lemma_traversal_not_found(
    root: Seq<u8>,
    input: Seq<u8>,
    request: RequestView,
    file: Option<Seq<u8>>,
)
    requires
        begins_with(input, request),
        request.method == get(),
        resolve(request.path) is None,
    ensures
        target(root, input) is None,
        outcome(input, file) == Status::NotFound,
        response(input, file) == Status::NotFound.line() + server_header() + blank_line(),
{
    lemma_parse_complete(input, request);
    assert(response(input, file) =~= Status::NotFound.line() + server_header() + blank_line());
}

/// Every file that an input names lies under the root: its name is the root
/// followed by plain names, each with a slash before it.
pub proof fn lemma_target_under_root(root: Seq<u8>, input: Seq<u8>)
    ensures
        target(root, input) matches Some(file) ==> {
            &&& root.is_prefix_of(file)
            &&& exists|names: Seq<Seq<u8>>| all_plain(names) && file == #[trigger] joined(root, names)
        },
{
    match parse(input) {
        Ok(request) => {
            lemma_located_under_root(root, request.path);
        },
        Err(_) => {},
    }
}

/// A file is named exactly for the inputs that are answered with 200 once
/// the file was read; for every other input what is handed in as the file
/// changes nothing.
pub proof fn lemma_file_named_for_success(
    root: Seq<u8>,
    input: Seq<u8>,
    file: Option<Seq<u8>>,
    body: Seq<u8>,
)
    ensures
        target(root, input) is Some <==> outcome(input, Some(body)) == Status::Success,
        target(root, input) is None ==> response(input, file) == response(input, None),
{
}

/// A response is that of its own outcome and of no other: what is not
/// answered with 200 is never answered with the bytes of a 200.
pub proof fn lemma_response_tells_outcome(
    input: Seq<u8>,
    file: Option<Seq<u8>>,
    status: Status,
    body: Option<Seq<u8>>,
)
    requires
        response(input, file) == message(status, body),
    ensures
        status == outcome(input, file),
{
    lemma_message_tells_status(outcome(input, file), file, status, body);
}

/// The file under `root` to read before `buffer` can be answered; `None` where
/// the answer needs no file.
pub fn requested_file(root: &[u8], buffer: &[u8]) -> (file: Option<Vec<u8>>)
    ensures
        contents(file) == target(root@, buffer@),
{
    match parse_request(buffer) {
        Ok(request) => {
            if same(request.method.as_slice(), "GET".as_bytes()) {
                locate_file(root, request.path.as_slice())
            } else {
                None
            }
        },
        Err(_) => None,
    }
}

/// The response to `buffer`. `file` holds the contents of the file that
/// `requested_file` named, or `None` where it named none or the file could not
/// be read.
pub fn make_response(buffer: &[u8], file: Option<Vec<u8>>) -> (out: Vec<u8>)
    ensures
        out@ == response(buffer@, contents(file)),
{
    match parse_request(buffer) {
        Ok(request) => {
            if !same(request.method.as_slice(), "GET".as_bytes()) {
                build_response(Status::NotImplemented, None)
            } else {
                match (resolve_path(request.path.as_slice()), file) {
                    (Some(_), Some(body)) => build_response(Status::Success, Some(body)),
                    _ => build_response(Status::NotFound, None),
                }
            }
        },
        Err(_) => build_response(Status::BadRequest, None),
    }
}

} // verus!
