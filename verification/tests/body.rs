use http_request::body::{decide_framing, read_chunked, read_fixed};
use http_request::number::{parse_decimal, parse_hex};
use http_request::{BodyFramingDecision, Halt, HeaderMap, ParseError};

fn headers(fields: &[(&str, &str)]) -> HeaderMap {
    let mut map = HeaderMap::new();
    for (name, value) in fields {
        assert!(map.insert(name.as_bytes(), value.as_bytes()));
    }
    map
}

#[test]
fn no_framing_header_means_no_body() {
    assert_eq!(decide_framing(&headers(&[])), Ok(BodyFramingDecision::NoBody));
    assert_eq!(
        decide_framing(&headers(&[("Host", "x"), ("Content-Type", "text/plain")])),
        Ok(BodyFramingDecision::NoBody)
    );
}

#[test]
fn content_length_gives_a_fixed_length() {
    assert_eq!(
        decide_framing(&headers(&[("Content-Length", "5")])),
        Ok(BodyFramingDecision::FixedLength(5))
    );
    assert_eq!(
        decide_framing(&headers(&[("content-length", "0")])),
        Ok(BodyFramingDecision::FixedLength(0))
    );
    assert_eq!(
        decide_framing(&headers(&[("CONTENT-LENGTH", "0042")])),
        Ok(BodyFramingDecision::FixedLength(42))
    );
}

#[test]
fn content_length_that_is_no_number_is_invalid() {
    let invalid = Err(ParseError::InvalidContentLength);
    assert_eq!(decide_framing(&headers(&[("Content-Length", "abc")])), invalid);
    assert_eq!(decide_framing(&headers(&[("Content-Length", "-5")])), invalid);
    assert_eq!(decide_framing(&headers(&[("Content-Length", "+5")])), invalid);
    assert_eq!(decide_framing(&headers(&[("Content-Length", "")])), invalid);
    assert_eq!(decide_framing(&headers(&[("Content-Length", "5 5")])), invalid);
    assert_eq!(decide_framing(&headers(&[("Content-Length", "5, 5")])), invalid);
    assert_eq!(decide_framing(&headers(&[("Content-Length", "0x10")])), invalid);
    assert_eq!(decide_framing(&headers(&[("Content-Length", "1.5")])), invalid);
}

#[test]
fn content_length_too_large_for_the_machine_is_invalid() {
    assert_eq!(
        decide_framing(&headers(&[(
            "Content-Length",
            "340282366920938463463374607431768211456"
        )])),
        Err(ParseError::InvalidContentLength)
    );
}

#[test]
fn repeated_content_length_must_agree() {
    assert_eq!(
        decide_framing(&headers(&[("Content-Length", "7"), ("Content-Length", "7")])),
        Ok(BodyFramingDecision::FixedLength(7))
    );
    assert_eq!(
        decide_framing(&headers(&[("Content-Length", "7"), ("Content-Length", "8")])),
        Err(ParseError::InvalidContentLength)
    );
    assert_eq!(
        decide_framing(&headers(&[("Content-Length", "7"), ("Content-Length", "x")])),
        Err(ParseError::InvalidContentLength)
    );
}

#[test]
fn transfer_encoding_chunked_gives_chunked_framing() {
    assert_eq!(
        decide_framing(&headers(&[("Transfer-Encoding", "chunked")])),
        Ok(BodyFramingDecision::Chunked)
    );
    assert_eq!(
        decide_framing(&headers(&[("Transfer-Encoding", "gzip, Chunked")])),
        Ok(BodyFramingDecision::Chunked)
    );
    assert_eq!(
        decide_framing(&headers(&[("transfer-encoding", "gzip ,\tCHUNKED , x")])),
        Ok(BodyFramingDecision::Chunked)
    );
    assert_eq!(
        decide_framing(&headers(&[
            ("Transfer-Encoding", "gzip"),
            ("Transfer-Encoding", "chunked")
        ])),
        Ok(BodyFramingDecision::Chunked)
    );
}

#[test]
fn transfer_encoding_without_chunked_means_no_body() {
    assert_eq!(
        decide_framing(&headers(&[("Transfer-Encoding", "gzip")])),
        Ok(BodyFramingDecision::NoBody)
    );
    assert_eq!(
        decide_framing(&headers(&[("Transfer-Encoding", "chunkedx, xchunked")])),
        Ok(BodyFramingDecision::NoBody)
    );
    assert_eq!(
        decide_framing(&headers(&[("Transfer-Encoding", "chun ked")])),
        Ok(BodyFramingDecision::NoBody)
    );
}

#[test]
fn both_framing_headers_are_ambiguous() {
    assert_eq!(
        decide_framing(&headers(&[
            ("Content-Length", "4"),
            ("Transfer-Encoding", "chunked")
        ])),
        Err(ParseError::AmbiguousFraming)
    );
    // Whatever either of them says.
    assert_eq!(
        decide_framing(&headers(&[
            ("Transfer-Encoding", "gzip"),
            ("Content-Length", "nonsense")
        ])),
        Err(ParseError::AmbiguousFraming)
    );
}

#[test]
fn fixed_body_is_taken_exactly() {
    let input = b"....hello and more";
    assert_eq!(read_fixed(input, 4, false, 5), Ok((b"hello".to_vec(), 9)));
    assert_eq!(read_fixed(input, 4, true, 0), Ok((Vec::new(), 4)));
    assert_eq!(
        read_fixed(input, 4, true, 14),
        Ok((b"hello and more".to_vec(), 18))
    );
}

#[test]
fn fixed_body_cut_short() {
    assert_eq!(
        read_fixed(b"hel", 0, true, 5),
        Err(Halt::Failed(ParseError::TruncatedBody))
    );
    assert_eq!(read_fixed(b"hel", 0, false, 5), Err(Halt::NeedMore));
    assert_eq!(read_fixed(b"hel", 3, false, usize::MAX), Err(Halt::NeedMore));
}

#[test]
fn single_chunk_body() {
    let input = b"4\r\nWiki\r\n0\r\n\r\n";
    assert_eq!(read_chunked(input, 0, true, 100), Ok((b"Wiki".to_vec(), 12)));
}

#[test]
fn several_chunks_are_joined_in_order() {
    let input = b"4\r\nWiki\r\n5\r\npedia\r\nE\r\n in\r\n\r\nchunks.\r\n0\r\n\r\n";
    let (body, next) = read_chunked(input, 0, false, 100).unwrap();
    assert_eq!(body, b"Wikipedia in\r\n\r\nchunks.".to_vec());
    assert_eq!(next, input.len() - 2);
}

#[test]
fn chunk_sizes_are_hexadecimal_in_either_case() {
    let mut input = b"1a\r\n".to_vec();
    input.extend_from_slice(&[b'x'; 26]);
    input.extend_from_slice(b"\r\n1A\r\n");
    input.extend_from_slice(&[b'y'; 26]);
    input.extend_from_slice(b"\r\n000\r\n");
    let (body, next) = read_chunked(&input, 0, true, 100).unwrap();
    assert_eq!(body.len(), 52);
    assert_eq!(next, input.len());
}

#[test]
fn chunk_size_lines_may_end_with_bare_line_feeds() {
    assert_eq!(
        read_chunked(b"4\nWiki\r\n0\n\n", 0, true, 100),
        Ok((b"Wiki".to_vec(), 10))
    );
}

#[test]
fn chunk_data_must_be_followed_by_cr_lf_exactly() {
    let malformed = Err(Halt::Failed(ParseError::MalformedChunkSize));
    assert_eq!(read_chunked(b"4\r\nWiki\n0\r\n\r\n", 0, true, 100), malformed);
    assert_eq!(read_chunked(b"4\r\nWiki\n", 0, false, 100), malformed);
    assert_eq!(read_chunked(b"4\r\nWikiX", 0, false, 100), malformed);
    assert_eq!(read_chunked(b"4\r\nWiki\r", 0, false, 100), Err(Halt::NeedMore));
}

#[test]
fn empty_chunked_body() {
    assert_eq!(read_chunked(b"0\r\n\r\n", 0, true, 100), Ok((Vec::new(), 3)));
}

#[test]
fn chunk_size_that_is_no_hexadecimal_number_is_malformed() {
    let malformed = Err(Halt::Failed(ParseError::MalformedChunkSize));
    assert_eq!(read_chunked(b"zz\r\nWiki\r\n0\r\n\r\n", 0, true, 100), malformed);
    assert_eq!(read_chunked(b"\r\nWiki\r\n0\r\n\r\n", 0, true, 100), malformed);
    assert_eq!(read_chunked(b"4;ext=1\r\nWiki\r\n0\r\n\r\n", 0, true, 100), malformed);
    assert_eq!(read_chunked(b" 4\r\nWiki\r\n0\r\n\r\n", 0, true, 100), malformed);
    assert_eq!(read_chunked(b"-4\r\nWiki\r\n0\r\n\r\n", 0, true, 100), malformed);
    assert_eq!(
        read_chunked(b"100000000000000000000000000000000\r\n", 0, true, 100),
        malformed
    );
}

#[test]
fn chunk_data_must_be_followed_by_a_line_end() {
    let malformed = Err(Halt::Failed(ParseError::MalformedChunkSize));
    assert_eq!(read_chunked(b"4\r\nWikipedia\r\n0\r\n\r\n", 0, true, 100), malformed);
    assert_eq!(read_chunked(b"4\r\nWiki\rX0\r\n\r\n", 0, true, 100), malformed);
}

#[test]
fn input_ending_inside_a_chunked_body_is_truncated() {
    let truncated = Err(Halt::Failed(ParseError::TruncatedBody));
    assert_eq!(read_chunked(b"", 0, true, 100), truncated);
    assert_eq!(read_chunked(b"4\r\nWi", 0, true, 100), truncated);
    assert_eq!(read_chunked(b"4\r\nWiki", 0, true, 100), truncated);
    assert_eq!(read_chunked(b"4\r\nWiki\r", 0, true, 100), truncated);
    assert_eq!(read_chunked(b"4\r\nWiki\r\n", 0, true, 100), truncated);
    assert_eq!(read_chunked(b"4", 0, true, 100), truncated);
}

#[test]
fn input_pausing_inside_a_chunked_body_asks_for_more() {
    let input = b"4\r\nWiki\r\n0\r\n";
    for cut in 0..input.len() {
        assert_eq!(
            read_chunked(&input[..cut], 0, false, 100),
            Err(Halt::NeedMore)
        );
    }
    assert_eq!(read_chunked(input, 0, false, 100), Ok((b"Wiki".to_vec(), 12)));
}

#[test]
fn chunk_size_line_too_long() {
    assert_eq!(
        read_chunked(b"0000000004\r\nWiki\r\n0\r\n\r\n", 0, true, 8),
        Err(Halt::Failed(ParseError::LineTooLong))
    );
}

#[test]
fn decimal_numbers() {
    assert_eq!(parse_decimal(b"19"), Some(19));
    assert_eq!(parse_decimal(b"0"), Some(0));
    assert_eq!(parse_decimal(b"007"), Some(7));
    assert_eq!(parse_decimal(b"1234567890"), Some(1234567890));
    assert_eq!(parse_decimal(b""), None);
    assert_eq!(parse_decimal(b"12a"), None);
    assert_eq!(parse_decimal(b" 12"), None);
    assert_eq!(parse_decimal(b"ff"), None);
}

#[test]
fn decimal_numbers_at_the_edge_of_the_machine() {
    let max = usize::MAX.to_string();
    assert_eq!(parse_decimal(max.as_bytes()), Some(usize::MAX));
    let beyond = format!("{}0", max);
    assert_eq!(parse_decimal(beyond.as_bytes()), None);
    let just_beyond = (usize::MAX as u128 + 1).to_string();
    assert_eq!(parse_decimal(just_beyond.as_bytes()), None);
}

#[test]
fn hexadecimal_numbers() {
    assert_eq!(parse_hex(b"ff"), Some(255));
    assert_eq!(parse_hex(b"FF"), Some(255));
    assert_eq!(parse_hex(b"1A"), Some(26));
    assert_eq!(parse_hex(b"0"), Some(0));
    assert_eq!(parse_hex(b"10"), Some(16));
    assert_eq!(parse_hex(b"deadBEEF"), Some(0xdead_beef));
    assert_eq!(parse_hex(b""), None);
    assert_eq!(parse_hex(b"g"), None);
    assert_eq!(parse_hex(b"0x10"), None);
}

#[test]
fn hexadecimal_numbers_at_the_edge_of_the_machine() {
    let max = format!("{:x}", usize::MAX);
    assert_eq!(parse_hex(max.as_bytes()), Some(usize::MAX));
    let beyond = format!("1{}", "0".repeat(max.len()));
    assert_eq!(parse_hex(beyond.as_bytes()), None);
}
