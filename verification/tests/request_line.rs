use http_request::request_line::parse_request_line;
use http_request::{ParseError, RequestLine};

fn parts(method: &str, target: &str, version: &str) -> RequestLine {
    RequestLine {
        method: method.as_bytes().to_vec(),
        target: target.as_bytes().to_vec(),
        version: version.as_bytes().to_vec(),
    }
}

#[test]
fn request_line_round_trip() {
    assert_eq!(
        parse_request_line(b"GET /a/b?x=1 HTTP/1.1"),
        Ok(parts("GET", "/a/b?x=1", "HTTP/1.1"))
    );
}

#[test]
fn request_line_with_two_tokens_is_malformed() {
    assert_eq!(
        parse_request_line(b"GET /"),
        Err(ParseError::MalformedRequestLine)
    );
}

#[test]
fn request_line_with_one_token_is_malformed() {
    assert_eq!(
        parse_request_line(b"GET"),
        Err(ParseError::MalformedRequestLine)
    );
    assert_eq!(parse_request_line(b""), Err(ParseError::MalformedRequestLine));
}

#[test]
fn request_line_with_four_tokens_is_malformed() {
    assert_eq!(
        parse_request_line(b"GET / HTTP/1.1 extra"),
        Err(ParseError::MalformedRequestLine)
    );
    assert_eq!(
        parse_request_line(b"GET /a b HTTP/1.1"),
        Err(ParseError::MalformedRequestLine)
    );
}

#[test]
fn request_line_with_empty_token_is_malformed() {
    let malformed = Err(ParseError::MalformedRequestLine);
    assert_eq!(parse_request_line(b"GET  / HTTP/1.1"), malformed);
    assert_eq!(parse_request_line(b" / HTTP/1.1"), malformed);
    assert_eq!(parse_request_line(b"GET / "), malformed);
    assert_eq!(parse_request_line(b"GET /  HTTP/1.1"), malformed);
}

#[test]
fn unknown_upper_case_methods_are_accepted() {
    assert_eq!(
        parse_request_line(b"PURGE /cache HTTP/1.1"),
        Ok(parts("PURGE", "/cache", "HTTP/1.1"))
    );
    assert_eq!(
        parse_request_line(b"M-SEARCH * HTTP/1.1"),
        Ok(parts("M-SEARCH", "*", "HTTP/1.1"))
    );
}

#[test]
fn lower_case_method_is_malformed() {
    let malformed = Err(ParseError::MalformedRequestLine);
    assert_eq!(parse_request_line(b"get / HTTP/1.1"), malformed);
    assert_eq!(parse_request_line(b"Get / HTTP/1.1"), malformed);
}

#[test]
fn method_with_a_separator_is_malformed() {
    let malformed = Err(ParseError::MalformedRequestLine);
    assert_eq!(parse_request_line(b"GE(T / HTTP/1.1"), malformed);
    assert_eq!(parse_request_line(b"GET: / HTTP/1.1"), malformed);
    assert_eq!(parse_request_line(b"G\x01T / HTTP/1.1"), malformed);
}

#[test]
fn version_must_be_http_digit_dot_digit() {
    let malformed = Err(ParseError::MalformedRequestLine);
    assert_eq!(
        parse_request_line(b"GET / HTTP/1.0"),
        Ok(parts("GET", "/", "HTTP/1.0"))
    );
    assert_eq!(
        parse_request_line(b"GET / HTTP/2.0"),
        Ok(parts("GET", "/", "HTTP/2.0"))
    );
    assert_eq!(parse_request_line(b"GET / HTTP/1"), malformed);
    assert_eq!(parse_request_line(b"GET / HTTP/1.10"), malformed);
    assert_eq!(parse_request_line(b"GET / HTTP/x.1"), malformed);
    assert_eq!(parse_request_line(b"GET / http/1.1"), malformed);
    assert_eq!(parse_request_line(b"GET / HTTP-1.1"), malformed);
    assert_eq!(parse_request_line(b"GET / HTTP/1,1"), malformed);
}

#[test]
fn target_is_kept_as_sent() {
    assert_eq!(
        parse_request_line(b"GET /%7Euser/..//x?a=b&c=%20#frag HTTP/1.1"),
        Ok(parts("GET", "/%7Euser/..//x?a=b&c=%20#frag", "HTTP/1.1"))
    );
    let line = b"GET /caf\xc3\xa9\xff HTTP/1.1";
    let parsed = parse_request_line(line).unwrap();
    assert_eq!(parsed.target, b"/caf\xc3\xa9\xff".to_vec());
}

#[test]
fn target_with_whitespace_is_malformed() {
    let malformed = Err(ParseError::MalformedRequestLine);
    assert_eq!(parse_request_line(b"GET /a\tb HTTP/1.1"), malformed);
    assert_eq!(parse_request_line(b"GET /a\rb HTTP/1.1"), malformed);
    assert_eq!(parse_request_line(b"GET /a\x0bb HTTP/1.1"), malformed);
}
