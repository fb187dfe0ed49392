use webserver::pipeline::{make_response, requested_file};

const ROOT: &[u8] = b"/srv/webroot";

const OK: &[u8] = b"HTTP/1.0 200 OK\r\nServer: mio webserver\r\n\r\n";
const BAD_REQUEST: &[u8] = b"HTTP/1.0 400 Bad Request\r\nServer: mio webserver\r\n\r\n";
const NOT_FOUND: &[u8] = b"HTTP/1.0 404 Not Found\r\nServer: mio webserver\r\n\r\n";
const NOT_IMPLEMENTED: &[u8] = b"HTTP/1.0 501 Not Implemented\r\nServer: mio webserver\r\n\r\n";

fn with_body(head: &[u8], body: &[u8]) -> Vec<u8> {
    let mut out = head.to_vec();
    out.extend_from_slice(body);
    out
}

#[test]
fn an_existing_file_is_served_byte_for_byte() {
    let request = b"GET /index.html HTTP/1.0\r\n\r\n";
    let body = b"<html>\r\n\x00\x01\xff binary too</html>\n".to_vec();
    assert_eq!(requested_file(ROOT, request), Some(b"/srv/webroot/index.html".to_vec()));
    assert_eq!(make_response(request, Some(body.clone())), with_body(OK, &body));
}

#[test]
fn an_empty_file_is_served_as_an_empty_body() {
    assert_eq!(make_response(b"GET /empty HTTP/1.1\r\n", Some(Vec::new())), OK.to_vec());
}

#[test]
fn a_missing_file_is_not_found() {
    let request = b"GET /missing.html HTTP/1.0\r\n";
    assert_eq!(requested_file(ROOT, request), Some(b"/srv/webroot/missing.html".to_vec()));
    assert_eq!(make_response(request, None), NOT_FOUND.to_vec());
}

#[test]
fn other_methods_are_not_implemented() {
    for method in ["POST", "HEAD", "PUT", "DELETE", "get", "GETS", "", "GET /x"] {
        let request = format!("{} /f HTTP/1.0\r\n", method);
        assert_eq!(requested_file(ROOT, request.as_bytes()), None, "{:?}", method);
        assert_eq!(make_response(request.as_bytes(), None), NOT_IMPLEMENTED.to_vec());
        assert_eq!(
            make_response(request.as_bytes(), Some(b"contents".to_vec())),
            NOT_IMPLEMENTED.to_vec()
        );
    }
}

#[test]
fn malformed_input_is_a_bad_request() {
    let inputs: [&[u8]; 9] = [
        b"\n",
        b"",
        b"\r\n",
        &[0xff, 0xfe, 0x00, 0x01],
        b"GET /index.html\r\n",
        b"GET /index.html HTTP/1.0",
        b"GET /index.html HTTP/1.0\n",
        b"GET /index.html HTTP/3.0\r\n",
        b"GET HTTP/1.0\r\n",
    ];
    for input in inputs {
        assert_eq!(requested_file(ROOT, input), None, "{:?}", input);
        assert_eq!(make_response(input, None), BAD_REQUEST.to_vec(), "{:?}", input);
        assert_eq!(
            make_response(input, Some(b"contents".to_vec())),
            BAD_REQUEST.to_vec(),
            "{:?}",
            input
        );
    }
}

#[test]
fn traversal_is_not_found_and_names_no_file() {
    let requests: [&[u8]; 5] = [
        b"GET /../secret HTTP/1.0\r\n",
        b"GET /a/../../secret HTTP/1.0\r\n",
        b"GET /.. HTTP/1.1\r\n",
        b"GET ../secret HTTP/1.0\r\n",
        b"GET secret HTTP/1.0\r\n",
    ];
    for request in requests {
        assert_eq!(requested_file(ROOT, request), None);
        assert_eq!(make_response(request, None), NOT_FOUND.to_vec());
        assert_eq!(make_response(request, Some(b"top secret".to_vec())), NOT_FOUND.to_vec());
    }
}

#[test]
fn dots_inside_the_root_are_followed() {
    let request = b"GET /a/./b/../c.txt HTTP/1.0\r\n";
    assert_eq!(requested_file(ROOT, request), Some(b"/srv/webroot/a/c.txt".to_vec()));
    assert_eq!(make_response(request, Some(b"c".to_vec())), with_body(OK, b"c"));
}

#[test]
fn the_root_itself_is_named_for_a_bare_slash() {
    assert_eq!(requested_file(ROOT, b"GET / HTTP/1.0\r\n"), Some(ROOT.to_vec()));
    assert_eq!(make_response(b"GET / HTTP/1.0\r\n", None), NOT_FOUND.to_vec());
}

#[test]
fn the_same_request_always_gets_the_same_response() {
    let request = b"GET /index.html HTTP/1.0\r\nHost: localhost\r\n\r\n";
    let body = b"hello, world".to_vec();
    let first = make_response(request, Some(body.clone()));
    for _ in 0..16 {
        assert_eq!(make_response(request, Some(body.clone())), first);
        assert_eq!(requested_file(ROOT, request), Some(b"/srv/webroot/index.html".to_vec()));
    }
    assert_eq!(first, with_body(OK, &body));
}

#[test]
fn both_versions_are_answered_alike() {
    let body = b"x".to_vec();
    assert_eq!(
        make_response(b"GET /f HTTP/1.0\r\n", Some(body.clone())),
        make_response(b"GET /f HTTP/1.1\r\n", Some(body))
    );
}
