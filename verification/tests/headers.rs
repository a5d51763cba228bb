use http_request::header::{parse_field_line, read_headers};
use http_request::{Halt, HeaderMap, ParseError, ParserConfig};

fn limits(count: usize, bytes: usize) -> ParserConfig {
    ParserConfig::new(1024, count, bytes, 5000)
}

fn field(name: &str, value: &str) -> (Vec<u8>, Vec<u8>) {
    (name.as_bytes().to_vec(), value.as_bytes().to_vec())
}

fn values(list: &[&str]) -> Vec<Vec<u8>> {
    list.iter().map(|v| v.as_bytes().to_vec()).collect()
}

#[test]
fn header_line_gives_lower_case_name_and_trimmed_value() {
    assert_eq!(
        parse_field_line(b"Content-Type: text/html"),
        Ok(field("content-type", "text/html"))
    );
    assert_eq!(
        parse_field_line(b"X-Pad:  \t padded value \t "),
        Ok(field("x-pad", "padded value"))
    );
    assert_eq!(parse_field_line(b"Host:example.org"), Ok(field("host", "example.org")));
}

#[test]
fn header_value_may_be_empty_or_hold_colons() {
    assert_eq!(parse_field_line(b"X-Empty:"), Ok(field("x-empty", "")));
    assert_eq!(parse_field_line(b"X-Empty:   "), Ok(field("x-empty", "")));
    assert_eq!(
        parse_field_line(b"Host: example.org:8080"),
        Ok(field("host", "example.org:8080"))
    );
}

#[test]
fn header_value_keeps_its_case_and_inner_whitespace() {
    assert_eq!(
        parse_field_line(b"User-Agent: Mozilla/5.0  (X11;\tLinux)"),
        Ok(field("user-agent", "Mozilla/5.0  (X11;\tLinux)"))
    );
}

#[test]
fn header_line_without_colon_is_malformed() {
    assert_eq!(
        parse_field_line(b"X-Broken"),
        Err(ParseError::MalformedHeaderLine)
    );
}

#[test]
fn header_line_with_bad_name_is_malformed() {
    let malformed = Err(ParseError::MalformedHeaderLine);
    assert_eq!(parse_field_line(b": value"), malformed);
    assert_eq!(parse_field_line(b"Bad Name: value"), malformed);
    assert_eq!(parse_field_line(b"Bad\tName: value"), malformed);
    assert_eq!(parse_field_line(b"Name : value"), malformed);
    assert_eq!(parse_field_line(b"Na\x01me: value"), malformed);
    assert_eq!(parse_field_line(b"Na\x7fme: value"), malformed);
}

#[test]
fn folded_continuation_line_is_malformed() {
    let malformed = Err(ParseError::MalformedHeaderLine);
    assert_eq!(parse_field_line(b" continued: value"), malformed);
    assert_eq!(parse_field_line(b"\tcontinued value"), malformed);
    let input = b"X-Long: first\r\n second\r\n\r\n";
    assert_eq!(
        read_headers(input, 0, true, &limits(10, 1000), HeaderMap::new(), 0, 0),
        Err(Halt::Failed(ParseError::MalformedHeaderLine))
    );
}

#[test]
fn distinct_headers_give_as_many_entries() {
    let input = b"Host: example.org\r\nAccept: */*\r\nX-Trace-Id: 7\r\n\r\nrest";
    let (map, next, count, bytes) =
        read_headers(input, 0, false, &limits(10, 1000), HeaderMap::new(), 0, 0).unwrap();
    assert_eq!(map.len(), 3);
    assert_eq!(count, 3);
    assert_eq!(bytes, 17 + 11 + 13);
    assert_eq!(next, input.len() - 4);
    assert_eq!(map.name_at(0), &b"host".to_vec());
    assert_eq!(map.name_at(1), &b"accept".to_vec());
    assert_eq!(map.name_at(2), &b"x-trace-id".to_vec());
    assert_eq!(map.values_at(0), &values(&["example.org"]));
    assert_eq!(map.values_at(1), &values(&["*/*"]));
    assert_eq!(map.values_at(2), &values(&["7"]));
}

#[test]
fn repeated_names_accumulate_in_order() {
    let input = b"Accept: a\r\nHost: h\r\nACCEPT: b\r\naccept: c\r\n\r\n";
    let (map, _, count, _) =
        read_headers(input, 0, true, &limits(10, 1000), HeaderMap::new(), 0, 0).unwrap();
    assert_eq!(count, 4);
    assert_eq!(map.len(), 2);
    assert_eq!(map.name_at(0), &b"accept".to_vec());
    assert_eq!(map.name_at(1), &b"host".to_vec());
    assert_eq!(map.get(b"Accept"), Some(&values(&["a", "b", "c"])));
    assert_eq!(map.get(b"host"), Some(&values(&["h"])));
    assert_eq!(map.get(b"missing"), None);
}

#[test]
fn all_stored_names_are_lower_case() {
    let input = b"X-UPPER: 1\r\nx-lower: 2\r\nX-MiXeD-09: 3\r\n\r\n";
    let (map, _, _, _) =
        read_headers(input, 0, true, &limits(10, 1000), HeaderMap::new(), 0, 0).unwrap();
    for i in 0..map.len() {
        assert!(map.name_at(i).iter().all(|b| !b.is_ascii_uppercase()));
    }
    assert!(map.contains(b"x-upper"));
    assert!(map.contains(b"X-LOWER"));
    assert!(map.contains(b"x-mixed-09"));
}

#[test]
fn empty_header_section_is_just_the_empty_line() {
    let (map, next, count, bytes) =
        read_headers(b"\r\nbody", 0, false, &limits(10, 1000), HeaderMap::new(), 0, 0).unwrap();
    assert!(map.is_empty());
    assert_eq!((next, count, bytes), (2, 0, 0));
}

#[test]
fn input_ending_inside_the_headers_is_truncated() {
    let truncated = Err(Halt::Failed(ParseError::TruncatedHeaders));
    let cfg = limits(10, 1000);
    assert_eq!(
        read_headers(b"Host: x\r\n", 0, true, &cfg, HeaderMap::new(), 0, 0),
        truncated
    );
    assert_eq!(read_headers(b"", 0, true, &cfg, HeaderMap::new(), 0, 0), truncated);
    assert_eq!(
        read_headers(b"Host: x", 0, true, &cfg, HeaderMap::new(), 0, 0),
        truncated
    );
}

#[test]
fn input_pausing_inside_the_headers_asks_for_more() {
    let cfg = limits(10, 1000);
    assert_eq!(
        read_headers(b"Host: x\r\n", 0, false, &cfg, HeaderMap::new(), 0, 0),
        Err(Halt::NeedMore)
    );
    assert_eq!(
        read_headers(b"Host: x\r\nAcc", 0, false, &cfg, HeaderMap::new(), 0, 0),
        Err(Halt::NeedMore)
    );
}

#[test]
fn as_many_header_lines_as_the_limit_are_accepted() {
    let input = b"A: 1\r\nB: 2\r\nC: 3\r\n\r\n";
    let (map, _, count, _) =
        read_headers(input, 0, true, &limits(3, 1000), HeaderMap::new(), 0, 0).unwrap();
    assert_eq!(map.len(), 3);
    assert_eq!(count, 3);
}

#[test]
fn more_header_lines_than_the_limit_are_refused() {
    let input = b"A: 1\r\nB: 2\r\nC: 3\r\n\r\n";
    assert_eq!(
        read_headers(input, 0, true, &limits(2, 1000), HeaderMap::new(), 0, 0),
        Err(Halt::Failed(ParseError::HeaderLimitExceeded))
    );
}

#[test]
fn header_count_limit_stops_at_the_first_line_beyond_it() {
    let exceeded = Err(Halt::Failed(ParseError::HeaderLimitExceeded));
    let cfg = limits(2, 1000);
    // The third line has arrived, nothing after it: the answer is final.
    assert_eq!(
        read_headers(b"A: 1\r\nB: 2\r\nC: 3\r\n", 0, false, &cfg, HeaderMap::new(), 0, 0),
        exceeded
    );
    // Whatever follows the third line is never looked at.
    assert_eq!(
        read_headers(
            b"A: 1\r\nB: 2\r\nC: 3\r\nno colon here\r\n",
            0,
            false,
            &cfg,
            HeaderMap::new(),
            0,
            0
        ),
        exceeded
    );
    // The line beyond the limit is not examined either.
    assert_eq!(
        read_headers(b"A: 1\r\nB: 2\r\nbroken\r\n", 0, false, &cfg, HeaderMap::new(), 0, 0),
        exceeded
    );
    // Before the third line is complete there is nothing to refuse yet.
    assert_eq!(
        read_headers(b"A: 1\r\nB: 2\r\nC: ", 0, false, &cfg, HeaderMap::new(), 0, 0),
        Err(Halt::NeedMore)
    );
}

#[test]
fn header_bytes_limit_counts_lines_without_line_ends() {
    let input = b"A: 1\r\nBB: 22\r\n\r\n";
    let (_, _, _, bytes) =
        read_headers(input, 0, true, &limits(10, 10), HeaderMap::new(), 0, 0).unwrap();
    assert_eq!(bytes, 10);
    assert_eq!(
        read_headers(input, 0, true, &limits(10, 9), HeaderMap::new(), 0, 0),
        Err(Halt::Failed(ParseError::HeaderLimitExceeded))
    );
}

#[test]
fn limits_count_what_was_used_before() {
    let input = b"A: 1\r\n\r\n";
    let cfg = limits(3, 20);
    assert_eq!(
        read_headers(input, 0, true, &cfg, HeaderMap::new(), 3, 0),
        Err(Halt::Failed(ParseError::HeaderLimitExceeded))
    );
    assert_eq!(
        read_headers(input, 0, true, &cfg, HeaderMap::new(), 0, 17),
        Err(Halt::Failed(ParseError::HeaderLimitExceeded))
    );
    let (_, _, count, bytes) =
        read_headers(input, 0, true, &cfg, HeaderMap::new(), 2, 16).unwrap();
    assert_eq!((count, bytes), (3, 20));
}

#[test]
fn zero_header_limit_allows_only_an_empty_section() {
    let cfg = limits(0, 1000);
    assert!(read_headers(b"\r\n", 0, true, &cfg, HeaderMap::new(), 0, 0).is_ok());
    assert_eq!(
        read_headers(b"A: 1\r\n\r\n", 0, true, &cfg, HeaderMap::new(), 0, 0),
        Err(Halt::Failed(ParseError::HeaderLimitExceeded))
    );
}

#[test]
fn header_line_too_long_is_reported_as_such() {
    let cfg = ParserConfig::new(8, 10, 1000, 5000);
    assert_eq!(
        read_headers(b"A: 1\r\nLonger: value\r\n\r\n", 0, true, &cfg, HeaderMap::new(), 0, 0),
        Err(Halt::Failed(ParseError::LineTooLong))
    );
}

#[test]
fn header_map_insert_normalises_name_and_value() {
    let mut map = HeaderMap::new();
    assert!(map.insert(b"Set-Cookie", b"  a=1 "));
    assert!(map.insert(b"Host", b"h"));
    assert!(map.insert(b"SET-COOKIE", b"b=2\t"));
    assert_eq!(map.len(), 2);
    assert_eq!(map.get(b"set-cookie"), Some(&values(&["a=1", "b=2"])));
    assert_eq!(map.name_at(0), &b"set-cookie".to_vec());
    assert_eq!(map.name_at(1), &b"host".to_vec());
}

#[test]
fn header_map_insert_refuses_bad_names() {
    let mut map = HeaderMap::new();
    assert!(!map.insert(b"", b"v"));
    assert!(!map.insert(b"a b", b"v"));
    assert!(!map.insert(b"a:b", b"v"));
    assert!(!map.insert(b"a\nb", b"v"));
    assert!(map.is_empty());
    assert_eq!(map, HeaderMap::new());
}

#[test]
fn default_header_map_is_empty() {
    let map: HeaderMap = Default::default();
    assert_eq!(map.len(), 0);
    assert_eq!(map, HeaderMap::new());
}
