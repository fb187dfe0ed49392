use webserver::response::{build_response, create_msg_from_code, ResponseError, Status};

#[test]
fn ok_carries_the_body() {
    let out = create_msg_from_code(200, Some(b"hello".to_vec())).unwrap();
    assert_eq!(out, b"HTTP/1.0 200 OK\r\nServer: mio webserver\r\n\r\nhello".to_vec());
}

#[test]
fn ok_without_a_body_is_headers_only() {
    let out = create_msg_from_code(200, None).unwrap();
    assert_eq!(out, b"HTTP/1.0 200 OK\r\nServer: mio webserver\r\n\r\n".to_vec());
}

#[test]
fn bad_request_has_no_body() {
    let out = create_msg_from_code(400, Some(b"ignored".to_vec())).unwrap();
    assert_eq!(out, b"HTTP/1.0 400 Bad Request\r\nServer: mio webserver\r\n\r\n".to_vec());
}

#[test]
fn not_found_has_no_body() {
    let out = create_msg_from_code(404, None).unwrap();
    assert_eq!(out, b"HTTP/1.0 404 Not Found\r\nServer: mio webserver\r\n\r\n".to_vec());
}

#[test]
fn not_implemented_has_no_body() {
    let out = create_msg_from_code(501, None).unwrap();
    assert_eq!(out, b"HTTP/1.0 501 Not Implemented\r\nServer: mio webserver\r\n\r\n".to_vec());
}

#[test]
fn other_codes_are_refused() {
    for code in [0u16, 100, 199, 201, 204, 301, 403, 405, 500, 502, u16::MAX] {
        assert_eq!(create_msg_from_code(code, None), Err(ResponseError::UndefinedStatusCode));
        assert_eq!(
            create_msg_from_code(code, Some(b"x".to_vec())),
            Err(ResponseError::UndefinedStatusCode)
        );
    }
}

#[test]
fn codes_and_statuses_correspond() {
    for status in [Status::Success, Status::BadRequest, Status::NotFound, Status::NotImplemented] {
        assert_eq!(Status::from_code(status.code()), Some(status));
        assert_eq!(
            create_msg_from_code(status.code(), None).unwrap(),
            build_response(status, None)
        );
    }
    assert_eq!(Status::Success.code(), 200);
    assert_eq!(Status::BadRequest.code(), 400);
    assert_eq!(Status::NotFound.code(), 404);
    assert_eq!(Status::NotImplemented.code(), 501);
    assert_eq!(Status::from_code(418), None);
}
