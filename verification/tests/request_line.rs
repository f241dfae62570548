use phantom_proxy::line_parser::{parse_first_line, parse_request_line, ParseError, RequestLine};

fn line(method: &str, path: &str) -> RequestLine {
    RequestLine { method: method.to_string(), path: path.to_string() }
}

#[test]
fn request_line_gives_method_and_path() {
    assert_eq!(
        parse_request_line("GET /api/v1/example HTTP/1.1\r\nHost: x\r\n\r\n"),
        Ok(line("GET", "/api/v1/example"))
    );
}

#[test]
fn request_line_needs_no_version() {
    assert_eq!(parse_request_line("GET /\r\n"), Ok(line("GET", "/")));
}

#[test]
fn request_line_with_one_token_is_malformed() {
    assert_eq!(parse_request_line("GARBAGE"), Err(ParseError::MalformedRequestLine));
    assert_eq!(parse_request_line("GET\r\n/admin HTTP/1.1\r\n"), Err(ParseError::MalformedRequestLine));
}

#[test]
fn request_line_without_tokens_is_malformed() {
    assert_eq!(parse_request_line(""), Err(ParseError::MalformedRequestLine));
    assert_eq!(parse_request_line("\r\nGET / HTTP/1.1\r\n"), Err(ParseError::MalformedRequestLine));
    assert_eq!(parse_request_line("   \t \n"), Err(ParseError::MalformedRequestLine));
}

#[test]
fn request_line_path_is_taken_verbatim() {
    assert_eq!(
        parse_request_line("GET /a%20b/../c/?q=1#frag HTTP/1.1"),
        Ok(line("GET", "/a%20b/../c/?q=1#frag"))
    );
    assert_eq!(parse_request_line("get /Admin/ x"), Ok(line("get", "/Admin/")));
}

#[test]
fn first_line_of_raw_bytes_gives_method_and_path() {
    assert_eq!(
        parse_first_line(b"POST /y HTTP/1.1\r\nContent-Length: 5\r\n\r\nhello"),
        Ok(line("POST", "/y"))
    );
}

#[test]
fn first_line_of_raw_bytes_replaces_what_is_not_utf8() {
    assert_eq!(parse_first_line(b"GET /\xff\xfe HTTP/1.1\r\n\r\n"), Ok(line("GET", "/\u{fffd}\u{fffd}")));
    assert_eq!(parse_first_line(b"G\xc3\xa9T /caf\xc3\xa9 x"), Ok(line("G\u{e9}T", "/caf\u{e9}")));
    assert_eq!(parse_first_line(b"GET /\xe2\x82 HTTP/1.1"), Ok(line("GET", "/\u{fffd}")));
}

#[test]
fn first_line_of_raw_bytes_never_fails_on_encoding_alone() {
    assert_eq!(parse_first_line(b"\xff \xfe"), Ok(line("\u{fffd}", "\u{fffd}")));
    assert_eq!(parse_first_line(b"\xff\xfe"), Err(ParseError::MalformedRequestLine));
}

#[test]
fn first_line_of_raw_bytes_with_one_token_is_malformed() {
    assert_eq!(parse_first_line(b"GARBAGE"), Err(ParseError::MalformedRequestLine));
    assert_eq!(parse_first_line(b""), Err(ParseError::MalformedRequestLine));
}

#[test]
fn first_line_of_raw_bytes_splits_at_encoded_white_space() {
    assert_eq!(parse_first_line(b"GET\xc2\xa0/nbsp\xe3\x80\x80HTTP/1.1"), Ok(line("GET", "/nbsp")));
}
