use http_request::request::{parse_complete, parse_request};
use http_request::{Halt, ParseError, ParsedHTTPRequest, ParserConfig};

const EXAMPLE_HTTP_POST: &str = "POST / HTTP/1.1\r\nContent-Length: 19\r\nContent-Type: application/x-www-form-urlencoded;boundary=\"\"\r\n\r\nsomething=something\r\n\r\n";

fn limits() -> ParserConfig {
    ParserConfig::new(8192, 64, 65536, 5000)
}

#[test]
fn it_works() {
    let expected_request = ParsedHTTPRequest {
        method: "POST".as_bytes().to_vec(),
        version: "HTTP/1.1".as_bytes().to_vec(),
        path: "/".as_bytes().to_vec(),
        headers: Default::default(),
        body: None,
    };
    // The whole example is a request, not a request line.
    assert_eq!(
        ParsedHTTPRequest::new(EXAMPLE_HTTP_POST),
        Err(ParseError::MalformedRequestLine)
    );
    // Its first line is one.
    let first_line = &EXAMPLE_HTTP_POST[..15];
    let parsed_request = ParsedHTTPRequest::new(first_line).unwrap();
    assert_eq!(parsed_request.method, expected_request.method);
    assert_eq!(parsed_request.version, expected_request.version);
    assert_eq!(parsed_request.path, expected_request.path);
    assert_eq!(parsed_request.headers, expected_request.headers);
    assert_eq!(parsed_request.body, expected_request.body);
}

#[test]
fn whole_example_request_is_assembled() {
    let (request, consumed) = parse_complete(EXAMPLE_HTTP_POST.as_bytes(), &limits()).unwrap();
    assert_eq!(request.method, b"POST".to_vec());
    assert_eq!(request.path, b"/".to_vec());
    assert_eq!(request.version, b"HTTP/1.1".to_vec());
    assert_eq!(request.headers.len(), 2);
    assert_eq!(
        request.headers.get(b"Content-Length"),
        Some(&vec![b"19".to_vec()])
    );
    assert_eq!(
        request.headers.get(b"content-type"),
        Some(&vec![b"application/x-www-form-urlencoded;boundary=\"\"".to_vec()])
    );
    assert_eq!(request.body, Some(b"something=something".to_vec()));
    assert_eq!(consumed, EXAMPLE_HTTP_POST.len() - 4);
}

#[test]
fn content_length_body_is_read_exactly() {
    let input = b"POST /upload HTTP/1.1\r\nContent-Length: 5\r\n\r\nhello";
    let (request, consumed) = parse_complete(input, &limits()).unwrap();
    assert_eq!(request.body, Some(b"hello".to_vec()));
    assert_eq!(consumed, input.len());
}

#[test]
fn content_length_body_cut_short_is_truncated() {
    let input = b"POST /upload HTTP/1.1\r\nContent-Length: 5\r\n\r\nhel";
    assert_eq!(
        parse_complete(input, &limits()),
        Err(ParseError::TruncatedBody)
    );
    assert_eq!(
        parse_request(input, false, &limits()),
        Err(Halt::NeedMore)
    );
}

#[test]
fn new_takes_the_request_line() {
    let request = ParsedHTTPRequest::new("GET /a/b?x=1 HTTP/1.1").unwrap();
    assert_eq!(request.method, b"GET".to_vec());
    assert_eq!(request.path, b"/a/b?x=1".to_vec());
    assert_eq!(request.version, b"HTTP/1.1".to_vec());
    assert!(request.headers.is_empty());
    assert_eq!(request.body, None);
    let joined = [request.method, request.path, request.version].join(&b' ');
    assert_eq!(joined, b"GET /a/b?x=1 HTTP/1.1".to_vec());
}

#[test]
fn new_refuses_what_is_no_request_line() {
    let malformed = Err(ParseError::MalformedRequestLine);
    assert_eq!(ParsedHTTPRequest::new(""), malformed);
    assert_eq!(ParsedHTTPRequest::new("GET /"), malformed);
    assert_eq!(ParsedHTTPRequest::new("GET / HTTP/1.1 extra"), malformed);
    assert_eq!(ParsedHTTPRequest::new("GET  / HTTP/1.1"), malformed);
    assert_eq!(ParsedHTTPRequest::new("get / HTTP/1.1"), malformed);
    assert_eq!(ParsedHTTPRequest::new("GET / HTTP/1.x"), malformed);
    assert_eq!(ParsedHTTPRequest::new("GET / HTTP/1.1\r\n"), malformed);
    assert_eq!(ParsedHTTPRequest::new("GET / HTTP/1.1\nHost: x\n\n"), malformed);
}

#[test]
fn request_line_parts_reach_the_request() {
    let (request, consumed) =
        parse_complete(b"GET /a/b?x=1 HTTP/1.1\r\n\r\n", &limits()).unwrap();
    assert_eq!(request.method, b"GET".to_vec());
    assert_eq!(request.path, b"/a/b?x=1".to_vec());
    assert_eq!(request.version, b"HTTP/1.1".to_vec());
    assert!(request.headers.is_empty());
    assert_eq!(request.body, None);
    assert_eq!(consumed, 25);
}

#[test]
fn chunked_body_is_decoded() {
    let input = b"POST /wiki HTTP/1.1\r\nTransfer-Encoding: chunked\r\n\r\n4\r\nWiki\r\n0\r\n\r\n";
    let (request, consumed) = parse_complete(input, &limits()).unwrap();
    assert_eq!(request.body, Some(b"Wiki".to_vec()));
    assert_eq!(consumed, input.len());
}

#[test]
fn trailers_are_merged_into_the_headers() {
    let input = b"POST /wiki HTTP/1.1\r\nTransfer-Encoding: chunked\r\nX-Tag: head\r\n\r\n\
4\r\nWiki\r\n5\r\npedia\r\n0\r\nX-Checksum: abc\r\nX-Tag: tail\r\n\r\nNEXT";
    let (request, consumed) = parse_complete(input, &limits()).unwrap();
    assert_eq!(request.body, Some(b"Wikipedia".to_vec()));
    assert_eq!(consumed, input.len() - 4);
    assert_eq!(request.headers.len(), 3);
    assert_eq!(request.headers.name_at(0), &b"transfer-encoding".to_vec());
    assert_eq!(request.headers.name_at(1), &b"x-tag".to_vec());
    assert_eq!(request.headers.name_at(2), &b"x-checksum".to_vec());
    assert_eq!(
        request.headers.get(b"x-tag"),
        Some(&vec![b"head".to_vec(), b"tail".to_vec()])
    );
    assert_eq!(
        request.headers.get(b"x-checksum"),
        Some(&vec![b"abc".to_vec()])
    );
}

#[test]
fn trailers_count_against_the_header_limits() {
    let input = b"POST / HTTP/1.1\r\nTransfer-Encoding: chunked\r\nA: 1\r\n\r\n0\r\nB: 2\r\n\r\n";
    assert!(parse_complete(input, &ParserConfig::new(100, 3, 1000, 0)).is_ok());
    assert_eq!(
        parse_complete(input, &ParserConfig::new(100, 2, 1000, 0)),
        Err(ParseError::HeaderLimitExceeded)
    );
    assert!(parse_complete(input, &ParserConfig::new(100, 3, 34, 0)).is_ok());
    assert_eq!(
        parse_complete(input, &ParserConfig::new(100, 3, 33, 0)),
        Err(ParseError::HeaderLimitExceeded)
    );
}

#[test]
fn missing_version_is_a_malformed_request_line() {
    assert_eq!(
        parse_complete(b"GET /\r\n", &limits()),
        Err(ParseError::MalformedRequestLine)
    );
    assert_eq!(
        parse_complete(b"GET /\r\nHost: x\r\n\r\n", &limits()),
        Err(ParseError::MalformedRequestLine)
    );
}

#[test]
fn empty_first_line_is_a_malformed_request_line() {
    assert_eq!(
        parse_complete(b"\r\nGET / HTTP/1.1\r\n\r\n", &limits()),
        Err(ParseError::MalformedRequestLine)
    );
}

#[test]
fn content_length_with_transfer_encoding_is_ambiguous() {
    let input = b"POST / HTTP/1.1\r\nContent-Length: 4\r\nTransfer-Encoding: chunked\r\n\r\n\
4\r\nWiki\r\n0\r\n\r\n";
    assert_eq!(
        parse_complete(input, &limits()),
        Err(ParseError::AmbiguousFraming)
    );
    let other_order =
        b"POST / HTTP/1.1\r\nTransfer-Encoding: chunked\r\nContent-Length: 4\r\n\r\nWiki";
    assert_eq!(
        parse_complete(other_order, &limits()),
        Err(ParseError::AmbiguousFraming)
    );
}

#[test]
fn header_without_colon_is_malformed() {
    assert_eq!(
        parse_complete(b"GET / HTTP/1.1\r\nX-Broken\r\n\r\n", &limits()),
        Err(ParseError::MalformedHeaderLine)
    );
}

#[test]
fn too_many_headers_exceed_the_limit() {
    let cfg = ParserConfig::new(100, 2, 1000, 0);
    assert!(parse_complete(b"GET / HTTP/1.1\r\nA: 1\r\nB: 2\r\n\r\n", &cfg).is_ok());
    assert_eq!(
        parse_complete(b"GET / HTTP/1.1\r\nA: 1\r\nB: 2\r\nC: 3\r\n\r\n", &cfg),
        Err(ParseError::HeaderLimitExceeded)
    );
}

#[test]
fn too_many_headers_stop_the_parser_at_once() {
    let cfg = ParserConfig::new(100, 2, 1000, 0);
    let exceeded = Err(Halt::Failed(ParseError::HeaderLimitExceeded));
    let up_to_third = b"GET / HTTP/1.1\r\nA: 1\r\nB: 2\r\nC: 3\r\n";
    // The request is not complete, yet nothing more is asked for.
    assert_eq!(parse_request(up_to_third, false, &cfg), exceeded);
    let mut longer = up_to_third.to_vec();
    longer.extend_from_slice(b"D: 4\r\n\r\nbody and whatever else");
    assert_eq!(parse_request(&longer, false, &cfg), exceeded);
    assert_eq!(parse_request(&longer, true, &cfg), exceeded);
    // One byte less and the third line is not there yet.
    assert_eq!(
        parse_request(&up_to_third[..up_to_third.len() - 1], false, &cfg),
        Err(Halt::NeedMore)
    );
}

#[test]
fn no_input_at_all_is_truncated() {
    assert_eq!(
        parse_complete(b"", &limits()),
        Err(ParseError::TruncatedHeaders)
    );
    assert_eq!(parse_request(b"", false, &limits()), Err(Halt::NeedMore));
}

#[test]
fn input_ending_in_the_headers_is_truncated() {
    assert_eq!(
        parse_complete(b"GET / HTTP/1.1\r\nHost: x\r\n", &limits()),
        Err(ParseError::TruncatedHeaders)
    );
    assert_eq!(
        parse_complete(b"GET / HTTP/1.1", &limits()),
        Err(ParseError::TruncatedHeaders)
    );
}

#[test]
fn input_ending_in_the_trailers_is_truncated() {
    let input = b"POST / HTTP/1.1\r\nTransfer-Encoding: chunked\r\n\r\n0\r\nX: 1\r\n";
    assert_eq!(
        parse_complete(input, &limits()),
        Err(ParseError::TruncatedHeaders)
    );
}

#[test]
fn input_ending_in_a_chunk_is_truncated() {
    let input = b"POST / HTTP/1.1\r\nTransfer-Encoding: chunked\r\n\r\n4\r\nWi";
    assert_eq!(parse_complete(input, &limits()), Err(ParseError::TruncatedBody));
}

#[test]
fn bad_chunk_size_is_malformed() {
    let input = b"POST / HTTP/1.1\r\nTransfer-Encoding: chunked\r\n\r\nfour\r\nWiki\r\n0\r\n\r\n";
    assert_eq!(
        parse_complete(input, &limits()),
        Err(ParseError::MalformedChunkSize)
    );
}

#[test]
fn bad_content_length_is_invalid() {
    assert_eq!(
        parse_complete(b"POST / HTTP/1.1\r\nContent-Length: five\r\n\r\nhello", &limits()),
        Err(ParseError::InvalidContentLength)
    );
    assert_eq!(
        parse_complete(b"POST / HTTP/1.1\r\nContent-Length: -1\r\n\r\n", &limits()),
        Err(ParseError::InvalidContentLength)
    );
}

#[test]
fn request_line_over_the_line_limit_is_too_long() {
    let cfg = ParserConfig::new(10, 10, 1000, 0);
    assert_eq!(
        parse_complete(b"GET /a/long/path HTTP/1.1\r\n\r\n", &cfg),
        Err(ParseError::LineTooLong)
    );
    assert_eq!(
        parse_request(b"GET /a/long/pa", false, &cfg),
        Err(Halt::Failed(ParseError::LineTooLong))
    );
}

#[test]
fn body_is_framed_by_headers_not_by_method() {
    let (post, consumed) =
        parse_complete(b"POST /form HTTP/1.1\r\nHost: x\r\n\r\nname=value", &limits()).unwrap();
    assert_eq!(post.body, None);
    assert_eq!(consumed, 32);
    let (get, _) =
        parse_complete(b"GET /q HTTP/1.1\r\nContent-Length: 3\r\n\r\nabc", &limits()).unwrap();
    assert_eq!(get.body, Some(b"abc".to_vec()));
}

#[test]
fn empty_body_is_not_the_same_as_no_body() {
    let (request, _) =
        parse_complete(b"POST / HTTP/1.1\r\nContent-Length: 0\r\n\r\n", &limits()).unwrap();
    assert_eq!(request.body, Some(Vec::new()));
}

#[test]
fn body_may_hold_any_bytes() {
    let mut input = b"PUT /blob HTTP/1.1\r\nContent-Length: 6\r\n\r\n".to_vec();
    input.extend_from_slice(&[0x00, 0xff, b'\r', b'\n', 0x80, b'\n']);
    let (request, consumed) = parse_complete(&input, &limits()).unwrap();
    assert_eq!(request.body, Some(vec![0x00, 0xff, b'\r', b'\n', 0x80, b'\n']));
    assert_eq!(consumed, input.len());
}

#[test]
fn consumed_bytes_lead_to_the_next_request() {
    let input = b"POST /one HTTP/1.1\r\nContent-Length: 3\r\n\r\nabcGET /two HTTP/1.1\r\n\r\n";
    let (first, consumed) = parse_request(input, false, &limits()).unwrap();
    assert_eq!(first.path, b"/one".to_vec());
    assert_eq!(first.body, Some(b"abc".to_vec()));
    assert_eq!(consumed, 44);
    let (second, rest) = parse_request(&input[consumed..], false, &limits()).unwrap();
    assert_eq!(second.path, b"/two".to_vec());
    assert_eq!(second.body, None);
    assert_eq!(consumed + rest, input.len());
}

#[test]
fn every_proper_prefix_of_a_request_asks_for_more() {
    let inputs: [&[u8]; 3] = [
        b"GET /a HTTP/1.1\r\nHost: x\r\nAccept: */*\r\n\r\n",
        b"POST /b HTTP/1.1\r\nContent-Length: 5\r\n\r\nhello",
        b"POST /c HTTP/1.1\r\nTransfer-Encoding: chunked\r\n\r\n4\r\nWiki\r\n0\r\nT: 1\r\n\r\n",
    ];
    for input in inputs {
        let whole = parse_request(input, false, &limits());
        assert!(whole.is_ok());
        for cut in 0..input.len() {
            assert_eq!(
                parse_request(&input[..cut], false, &limits()),
                Err(Halt::NeedMore)
            );
        }
        assert_eq!(parse_request(input, true, &limits()), whole);
    }
}

#[test]
fn a_decision_is_never_changed_by_later_bytes() {
    let inputs: [&[u8]; 6] = [
        b"GET /a HTTP/1.1\r\nHost: x\r\n\r\nGET /next HTTP/1.1\r\n\r\n",
        b"POST /b HTTP/1.1\r\nContent-Length: 5\r\n\r\nhello and more",
        b"POST /c HTTP/1.1\r\nTransfer-Encoding: chunked\r\n\r\n4\r\nWiki\r\n0\r\n\r\nmore",
        b"GET /a HTTP/1.1\r\nbroken line\r\nHost: x\r\n\r\n",
        b"get /a HTTP/1.1\r\nHost: x\r\n\r\n",
        b"POST /c HTTP/1.1\r\nTransfer-Encoding: chunked\r\n\r\n4\r\nWikipedia\r\n0\r\n\r\n",
    ];
    for input in inputs {
        let mut decided = None;
        for cut in 0..=input.len() {
            let now = parse_request(&input[..cut], false, &limits());
            match &decided {
                None => {
                    if now != Err(Halt::NeedMore) {
                        decided = Some(now);
                    }
                }
                Some(before) => assert_eq!(&now, before),
            }
        }
        let decided = decided.unwrap();
        assert_eq!(parse_request(input, true, &limits()), decided);
    }
}

#[test]
fn parsed_requests_satisfy_the_invariant() {
    let (request, _) = parse_complete(EXAMPLE_HTTP_POST.as_bytes(), &limits()).unwrap();
    assert!(!request.method.is_empty());
    assert!(request.method.iter().all(|b| b.is_ascii_graphic()));
    assert!(!request.version.is_empty());
    assert!(request.version.iter().all(|b| b.is_ascii_graphic()));
    assert!(!request.path.is_empty());
    for i in 0..request.headers.len() {
        let name = request.headers.name_at(i);
        assert!(!name.is_empty());
        assert!(name.iter().all(|b| !b.is_ascii_uppercase()));
        for value in request.headers.values_at(i) {
            assert!(value.first() != Some(&b' ') && value.last() != Some(&b' '));
        }
    }
}

#[test]
fn error_names() {
    assert_eq!(ParseError::IoError.name(), "IoError");
    assert_eq!(ParseError::Timeout.name(), "Timeout");
    assert_eq!(ParseError::LineTooLong.name(), "LineTooLong");
    assert_eq!(ParseError::MalformedRequestLine.name(), "MalformedRequestLine");
    assert_eq!(ParseError::TruncatedHeaders.name(), "TruncatedHeaders");
    assert_eq!(ParseError::MalformedHeaderLine.name(), "MalformedHeaderLine");
    assert_eq!(ParseError::HeaderLimitExceeded.name(), "HeaderLimitExceeded");
    assert_eq!(ParseError::AmbiguousFraming.name(), "AmbiguousFraming");
    assert_eq!(ParseError::MalformedChunkSize.name(), "MalformedChunkSize");
    assert_eq!(ParseError::TruncatedBody.name(), "TruncatedBody");
    assert_eq!(ParseError::InvalidContentLength.name(), "InvalidContentLength");
}
