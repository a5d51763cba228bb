use std::io::BufRead;

use http_request::line::next_line;
use http_request::{Halt, ParseError};

#[test]
fn line_ends_with_crlf() {
    let input = b"GET / HTTP/1.1\r\nHost: x\r\n";
    assert_eq!(next_line(input, 0, false, 100), Ok(Some((14, 16))));
    assert_eq!(&input[0..14], b"GET / HTTP/1.1");
    assert_eq!(next_line(input, 16, false, 100), Ok(Some((23, 25))));
    assert_eq!(&input[16..23], b"Host: x");
}

#[test]
fn line_ends_with_bare_lf() {
    let input = b"abc\ndef\n";
    assert_eq!(next_line(input, 0, true, 100), Ok(Some((3, 4))));
    assert_eq!(next_line(input, 4, true, 100), Ok(Some((7, 8))));
}

#[test]
fn empty_line_is_a_line() {
    assert_eq!(next_line(b"\r\nrest", 0, false, 100), Ok(Some((0, 2))));
    assert_eq!(next_line(b"\nrest", 0, false, 100), Ok(Some((0, 1))));
}

#[test]
fn clean_end_of_input_gives_none() {
    assert_eq!(next_line(b"", 0, true, 100), Ok(None));
    assert_eq!(next_line(b"abc\n", 4, true, 100), Ok(None));
}

#[test]
fn end_of_buffer_before_end_of_input_asks_for_more() {
    assert_eq!(next_line(b"", 0, false, 100), Err(Halt::NeedMore));
    assert_eq!(next_line(b"abc", 0, false, 100), Err(Halt::NeedMore));
    assert_eq!(next_line(b"abc\n", 4, false, 100), Err(Halt::NeedMore));
}

#[test]
fn unterminated_last_line_is_a_line_once_input_has_ended() {
    assert_eq!(next_line(b"abc", 0, true, 100), Ok(Some((3, 3))));
    // Without a line feed after it, a final carriage return is content.
    assert_eq!(next_line(b"abc\r", 0, true, 100), Ok(Some((4, 4))));
}

#[test]
fn line_of_exactly_the_maximum_is_accepted() {
    assert_eq!(next_line(b"abcde\r\n", 0, false, 5), Ok(Some((5, 7))));
    assert_eq!(next_line(b"abcde\n", 0, false, 5), Ok(Some((5, 6))));
    assert_eq!(next_line(b"abcde", 0, true, 5), Ok(Some((5, 5))));
}

#[test]
fn line_over_the_maximum_is_too_long() {
    let too_long = Err(Halt::Failed(ParseError::LineTooLong));
    assert_eq!(next_line(b"abcdef\r\n", 0, false, 5), too_long);
    assert_eq!(next_line(b"abcdef\n", 0, true, 5), too_long);
    assert_eq!(next_line(b"abcdef", 0, true, 5), too_long);
    assert_eq!(next_line(b"abcde\r", 0, true, 5), too_long);
}

#[test]
fn line_too_long_is_reported_before_its_end_arrives() {
    assert_eq!(
        next_line(b"abcdef", 0, false, 5),
        Err(Halt::Failed(ParseError::LineTooLong))
    );
    assert_eq!(
        next_line(b"abcdefghijklmnop", 0, false, 5),
        Err(Halt::Failed(ParseError::LineTooLong))
    );
}

#[test]
fn trailing_carriage_return_may_still_become_a_line_end() {
    // Five bytes and a CR: with a line feed next, the line is five bytes long.
    assert_eq!(next_line(b"abcde\r", 0, false, 5), Err(Halt::NeedMore));
    assert_eq!(next_line(b"abcde\r\n", 0, false, 5), Ok(Some((5, 7))));
    assert_eq!(
        next_line(b"abcde\rX", 0, false, 5),
        Err(Halt::Failed(ParseError::LineTooLong))
    );
}

#[test]
fn zero_maximum_allows_only_empty_lines() {
    assert_eq!(next_line(b"\r\n", 0, false, 0), Ok(Some((0, 2))));
    assert_eq!(
        next_line(b"a\r\n", 0, false, 0),
        Err(Halt::Failed(ParseError::LineTooLong))
    );
}

#[test]
fn carriage_return_inside_a_line_is_content() {
    assert_eq!(next_line(b"a\rb\r\n", 0, false, 100), Ok(Some((3, 5))));
}

#[test]
fn lines_are_cut_where_the_standard_library_cuts_them() {
    let inputs: [&[u8]; 8] = [
        b"",
        b"one line",
        b"one\ntwo\r\nthree",
        b"ends with line feed\n",
        b"ends with both\r\n",
        b"\n\n\r\n",
        b"carriage\rreturn inside\r\r\nand a lone one at the end\r",
        b"GET / HTTP/1.1\r\nHost: x\r\n\r\nbody",
    ];
    for input in inputs {
        let expected: Vec<Vec<u8>> = std::io::Cursor::new(input)
            .lines()
            .map(|line| line.unwrap().into_bytes())
            .collect();
        let mut found: Vec<Vec<u8>> = Vec::new();
        let mut pos = 0;
        while let Some((end, next)) = next_line(input, pos, true, usize::MAX).unwrap() {
            found.push(input[pos..end].to_vec());
            pos = next;
        }
        assert_eq!(found, expected);
        assert_eq!(pos, input.len());
    }
}
