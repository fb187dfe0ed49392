use regex::Regex;
use webserver::request::{parse_request, parse_request_line, Malformed, Request};

fn fields(request: &Request) -> (Vec<u8>, Vec<u8>, u8) {
    (request.method.clone(), request.path.clone(), request.minor_version)
}

fn parsed(input: &[u8]) -> (Vec<u8>, Vec<u8>, u8) {
    match parse_request(input) {
        Ok(request) => fields(&request),
        Err(reason) => panic!("refused as {:?}", reason),
    }
}

fn refused(input: &[u8]) -> Malformed {
    match parse_request(input) {
        Ok(request) => panic!("accepted as {:?}", request),
        Err(reason) => reason,
    }
}

#[test]
fn reads_a_get_for_version_one_zero() {
    assert_eq!(
        parsed(b"GET /index.html HTTP/1.0\r\n"),
        (b"GET".to_vec(), b"/index.html".to_vec(), 0)
    );
}

#[test]
fn reads_a_get_for_version_one_one() {
    assert_eq!(parsed(b"GET / HTTP/1.1\r\n"), (b"GET".to_vec(), b"/".to_vec(), 1));
}

#[test]
fn reads_other_methods() {
    assert_eq!(parsed(b"POST /f HTTP/1.0\r\n"), (b"POST".to_vec(), b"/f".to_vec(), 0));
    assert_eq!(parsed(b"get /f HTTP/1.0\r\n"), (b"get".to_vec(), b"/f".to_vec(), 0));
}

#[test]
fn ignores_headers_and_body() {
    let input = b"GET /a.txt HTTP/1.1\r\nHost: example\r\nAccept: */*\r\n\r\nbody\n";
    assert_eq!(parsed(input), (b"GET".to_vec(), b"/a.txt".to_vec(), 1));
}

#[test]
fn the_last_space_separates_method_and_path() {
    assert_eq!(parsed(b"GET /a b HTTP/1.0\r\n"), (b"GET /a".to_vec(), b"b".to_vec(), 0));
    assert_eq!(parsed(b"GET  /a HTTP/1.0\r\n"), (b"GET ".to_vec(), b"/a".to_vec(), 0));
}

#[test]
fn method_and_path_may_be_empty() {
    assert_eq!(parsed(b"  HTTP/1.0\r\n"), (Vec::new(), Vec::new(), 0));
    assert_eq!(parsed(b"GET  HTTP/1.1\r\n"), (b"GET".to_vec(), Vec::new(), 1));
    assert_eq!(parsed(b" /a HTTP/1.1\r\n"), (Vec::new(), b"/a".to_vec(), 1));
}

#[test]
fn a_carriage_return_may_stand_inside_the_line() {
    assert_eq!(parsed(b"GET /a\rb HTTP/1.0\r\n"), (b"GET".to_vec(), b"/a\rb".to_vec(), 0));
}

#[test]
fn text_beyond_ascii_is_read() {
    let input = "GET /caf\u{e9}.txt HTTP/1.0\r\n".as_bytes();
    assert_eq!(parsed(input), (b"GET".to_vec(), "/caf\u{e9}.txt".as_bytes().to_vec(), 0));
}

#[test]
fn a_single_newline_is_unterminated() {
    assert_eq!(refused(b"\n"), Malformed::UnterminatedLine);
}

#[test]
fn empty_input_is_unterminated() {
    assert_eq!(refused(b""), Malformed::UnterminatedLine);
}

#[test]
fn a_line_without_line_feed_is_unterminated() {
    assert_eq!(refused(b"GET / HTTP/1.0"), Malformed::UnterminatedLine);
    assert_eq!(refused(b"GET / HTTP/1.0\r"), Malformed::UnterminatedLine);
}

#[test]
fn a_line_feed_without_carriage_return_is_unterminated() {
    assert_eq!(refused(b"GET / HTTP/1.0\n"), Malformed::UnterminatedLine);
    assert_eq!(refused(b"GET / HTTP/1.0\n\r\n"), Malformed::UnterminatedLine);
}

#[test]
fn binary_garbage_is_not_text() {
    assert_eq!(refused(&[0xff, 0xfe, 0x00, 0x80]), Malformed::NotText);
    assert_eq!(refused(&[0xc3]), Malformed::NotText);
    assert_eq!(refused(&[0xed, 0xa0, 0x80, b'\r', b'\n']), Malformed::NotText);
}

#[test]
fn bytes_that_are_not_text_after_the_line_spoil_it() {
    let mut input = b"GET / HTTP/1.0\r\n".to_vec();
    input.push(0xff);
    assert_eq!(refused(&input), Malformed::NotText);
}

#[test]
fn other_versions_are_refused() {
    assert_eq!(refused(b"GET / HTTP/1.2\r\n"), Malformed::BadVersion);
    assert_eq!(refused(b"GET / HTTP/2.0\r\n"), Malformed::BadVersion);
    assert_eq!(refused(b"GET / HTTP/0.9\r\n"), Malformed::BadVersion);
    assert_eq!(refused(b"GET / http/1.0\r\n"), Malformed::BadVersion);
    assert_eq!(refused(b"GET / HTTP/1.\r\n"), Malformed::BadVersion);
    assert_eq!(refused(b"GET / HTTP/1.10\r\n"), Malformed::BadVersion);
    assert_eq!(refused(b"GET /\r\n"), Malformed::BadVersion);
    assert_eq!(refused(b"\r\n"), Malformed::BadVersion);
}

#[test]
fn the_dot_of_the_version_is_a_dot() {
    assert_eq!(refused(b"GET / HTTP/1x0\r\n"), Malformed::BadVersion);
    assert_eq!(refused(b"GET / HTTP/1 0\r\n"), Malformed::BadVersion);
}

#[test]
fn the_version_needs_a_space_before_it() {
    assert_eq!(refused(b"GET /HTTP/1.0\r\n"), Malformed::BadVersion);
    assert_eq!(refused(b"HTTP/1.0\r\n"), Malformed::BadVersion);
}

#[test]
fn a_line_without_a_path_lacks_its_separator() {
    assert_eq!(refused(b"GET HTTP/1.0\r\n"), Malformed::MissingSeparator);
    assert_eq!(refused(b" HTTP/1.0\r\n"), Malformed::MissingSeparator);
    assert_eq!(refused(b"/index.html HTTP/1.1\r\n"), Malformed::MissingSeparator);
}

#[test]
fn only_the_first_line_is_read() {
    assert_eq!(refused(b"\r\nGET / HTTP/1.0\r\n"), Malformed::BadVersion);
    assert_eq!(refused(b"hello\nGET / HTTP/1.0\r\n"), Malformed::UnterminatedLine);
    assert_eq!(
        parsed(b"GET /first HTTP/1.0\r\nGET /second HTTP/1.1\r\n"),
        (b"GET".to_vec(), b"/first".to_vec(), 0)
    );
}

#[test]
fn a_line_is_read_without_its_line_feed() {
    let request = parse_request_line(b"HEAD /x HTTP/1.1\r").unwrap();
    assert_eq!(fields(&request), (b"HEAD".to_vec(), b"/x".to_vec(), 1));
    assert_eq!(parse_request_line(b"").unwrap_err(), Malformed::UnterminatedLine);
    assert_eq!(parse_request_line(b"HEAD /x HTTP/1.1").unwrap_err(), Malformed::UnterminatedLine);
    assert_eq!(parse_request_line(b"HEAD /x HTTP/1.3\r").unwrap_err(), Malformed::BadVersion);
    assert_eq!(parse_request_line(b"HEAD HTTP/1.1\r").unwrap_err(), Malformed::MissingSeparator);
}

fn corpus() -> Vec<String> {
    let methods = ["GET", "POST", "", "G E T", "get", "DELETE\r"];
    let paths = ["/", "/index.html", "", "/a/../b", "x", "/\u{fc}ber", "/a\tb"];
    let versions = ["HTTP/1.0", "HTTP/1.1", "HTTP/1.2", "HTTP/1x0", "HTTP/2.0", "http/1.0", ""];
    let ends = ["\r\n", "\n", "\r", "", "\r\nHost: h\r\n\r\n", "\r\n\r\nGET /z HTTP/1.0\r\n"];
    let mut inputs = Vec::new();
    for method in methods {
        for path in paths {
            for version in versions {
                for end in ends {
                    inputs.push(format!("{} {} {}{}", method, path, version, end));
                    inputs.push(format!("{}{} {}{}", method, path, version, end));
                    inputs.push(format!("{} {}{}{}", method, path, version, end));
                }
            }
        }
    }
    inputs.push(String::new());
    inputs.push("\n".to_string());
    inputs.push("\r\n".to_string());
    inputs
}

#[test]
fn agrees_with_the_pattern_of_the_request_line() {
    let pattern = Regex::new(r"\A(.*) (.*) HTTP/1\.([0-1])\r\n").unwrap();
    let mut accepted = 0;
    let mut rejected = 0;
    for input in corpus() {
        match (parse_request(input.as_bytes()), pattern.captures(&input)) {
            (Ok(request), Some(groups)) => {
                assert_eq!(request.method, groups[1].as_bytes(), "method of {:?}", input);
                assert_eq!(request.path, groups[2].as_bytes(), "path of {:?}", input);
                assert_eq!(
                    request.minor_version.to_string(),
                    groups[3].to_string(),
                    "version of {:?}",
                    input
                );
                accepted += 1;
            },
            (Err(_), None) => {
                rejected += 1;
            },
            (ours, theirs) => panic!("{:?}: {:?} against {:?}", input, ours, theirs),
        }
    }
    assert!(accepted > 100);
    assert!(rejected > 100);
}

#[test]
fn what_is_accepted_matches_an_unanchored_search_too() {
    let pattern = Regex::new(r"(.*) (.*) HTTP/1.([0-1])\r\n.*").unwrap();
    let mut accepted = 0;
    for input in corpus() {
        if let Ok(request) = parse_request(input.as_bytes()) {
            let groups = pattern.captures(&input).unwrap();
            assert_eq!(request.method, groups[1].as_bytes(), "method of {:?}", input);
            assert_eq!(request.path, groups[2].as_bytes(), "path of {:?}", input);
            assert_eq!(request.minor_version.to_string(), groups[3].to_string());
            accepted += 1;
        }
    }
    assert!(accepted > 100);
}

fn scrambled(seed: &mut u64, alphabet: &[u8], longest: usize) -> Vec<u8> {
    let mut next = || {
        *seed = seed.wrapping_mul(6364136223846793005).wrapping_add(1442695040888963407);
        (*seed >> 33) as usize
    };
    let length = next() % (longest + 1);
    (0..length).map(|_| alphabet[next() % alphabet.len()]).collect()
}

#[test]
fn agrees_with_the_pattern_on_scrambled_lines() {
    let pattern = Regex::new(r"\A(.*) (.*) HTTP/1\.([0-1])\r\n").unwrap();
    let alphabet = b" GET/x.01\r\n";
    let tails: [&[u8]; 6] =
        [b" HTTP/1.0\r\n", b" HTTP/1.1\r\n", b" HTTP/1.2\r\n", b"HTTP/1.0\r\n", b" HTTP/1.0\n", b""];
    let mut seed = 7u64;
    let mut accepted = 0;
    for round in 0..30000 {
        let mut input = scrambled(&mut seed, alphabet, 9);
        input.extend_from_slice(tails[round % tails.len()]);
        input.extend_from_slice(&scrambled(&mut seed, alphabet, 4));
        let text = std::str::from_utf8(&input).unwrap();
        match (parse_request(&input), pattern.captures(text)) {
            (Ok(request), Some(groups)) => {
                assert_eq!(request.method, groups[1].as_bytes(), "method of {:?}", text);
                assert_eq!(request.path, groups[2].as_bytes(), "path of {:?}", text);
                assert_eq!(request.minor_version.to_string(), groups[3].to_string());
                accepted += 1;
            },
            (Err(_), None) => {},
            (ours, theirs) => panic!("{:?}: {:?} against {:?}", text, ours, theirs),
        }
    }
    assert!(accepted > 1000);
}
