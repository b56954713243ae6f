use multipart_stream::cursor::Cursor;
use multipart_stream::error::DecodeError;
use multipart_stream::fuzz::{do_fuzz, BOUNDARY};
use multipart_stream::head::{end_of_line, end_of_segment, find_field, find_param, parse_head};
use multipart_stream::mock::ServerRequest;
use multipart_stream::text::{append, eq_ignore_case, position, to_lower, trimmed, unquoted};
use multipart_stream::wire::{find, find_mark, starts_at, Mark};

#[test]
fn starts_at_compares_in_place() {
    assert!(starts_at(b"hello world", 6, b"world"));
    assert!(!starts_at(b"hello world", 5, b"world"));
    assert!(!starts_at(b"hello world", 7, b"world"));
    assert!(!starts_at(b"abc", 100, b"c"));
    assert!(starts_at(b"abc", 3, b""));
    assert!(!starts_at(b"abc", 4, b""));
    assert!(!starts_at(b"ab", 0, b"abc"));
}

#[test]
fn find_gives_the_first_occurrence() {
    assert_eq!(find(b"abcabc", 0, b"bc"), Some(1));
    assert_eq!(find(b"abcabc", 1, b"bc"), Some(1));
    assert_eq!(find(b"abcabc", 2, b"bc"), Some(4));
    assert_eq!(find(b"abcabc", 5, b"bc"), None);
    assert_eq!(find(b"abcabc", 0, b"cb"), None);
    assert_eq!(find(b"aab", 0, b"ab"), Some(1));
    assert_eq!(find(b"abc", 3, b""), Some(3));
    assert_eq!(find(b"abc", 4, b""), None);
    assert_eq!(find(b"", 0, b"a"), None);
}

#[test]
fn find_mark_gives_the_earlier_ending() {
    let sep = b"--B\r\n";
    let term = b"--B--";
    assert_eq!(find_mark(b"x--B\r\n--B--", 0, sep, term), Some((1, Mark::Separator)));
    assert_eq!(find_mark(b"x--B--y--B\r\n", 0, sep, term), Some((1, Mark::Terminator)));
    assert_eq!(find_mark(b"x--B--y--B\r\n", 2, sep, term), Some((7, Mark::Separator)));
    assert_eq!(find_mark(b"x--B-", 0, sep, term), None);
    assert_eq!(find_mark(b"--Bxx--B\r", 0, sep, term), None);
}

#[test]
fn letters_are_lowered() {
    assert_eq!(to_lower(b'A'), b'a');
    assert_eq!(to_lower(b'Z'), b'z');
    assert_eq!(to_lower(b'a'), b'a');
    assert_eq!(to_lower(b'@'), b'@');
    assert_eq!(to_lower(b'['), b'[');
    assert_eq!(to_lower(200), 200);
    assert!(eq_ignore_case(b"Content-Type", b"content-type"));
    assert!(!eq_ignore_case(b"Content-Type", b"content-typ"));
    assert!(!eq_ignore_case(b"Content_Type", b"content-type"));
    assert!(eq_ignore_case(b"", b""));
}

#[test]
fn position_of_a_byte() {
    assert_eq!(position(b"a:b:c", b':', 0), 1);
    assert_eq!(position(b"a:b:c", b':', 2), 3);
    assert_eq!(position(b"a:b:c", b':', 4), 5);
    assert_eq!(position(b"a:b:c", b'x', 0), 5);
    assert_eq!(position(b"abc", b'a', 9), 3);
}

#[test]
fn blanks_come_off_both_ends() {
    assert_eq!(trimmed(b"  a b\t "), b"a b");
    assert_eq!(trimmed(b"a"), b"a");
    assert_eq!(trimmed(b" \t "), b"");
    assert_eq!(trimmed(b""), b"");
    assert_eq!(trimmed(b"\r a"), b"\r a");
}

#[test]
fn one_pair_of_quotes_comes_off() {
    assert_eq!(unquoted(b"\"a\""), b"a");
    assert_eq!(unquoted(b"\"\"a\"\""), b"\"a\"");
    assert_eq!(unquoted(b"\"\""), b"");
    assert_eq!(unquoted(b"\""), b"\"");
    assert_eq!(unquoted(b"\"a"), b"\"a");
    assert_eq!(unquoted(b"a"), b"a");
}

#[test]
fn append_adds_at_the_end() {
    let mut v = vec![1, 2];
    append(&mut v, &[3, 4, 5]);
    assert_eq!(v, vec![1, 2, 3, 4, 5]);
    append(&mut v, &[]);
    assert_eq!(v, vec![1, 2, 3, 4, 5]);
}

#[test]
fn lines_and_segments_end_where_they_should() {
    assert_eq!(end_of_line(b"ab\r\ncd", 0), 2);
    assert_eq!(end_of_line(b"ab\r\ncd", 4), 6);
    assert_eq!(end_of_line(b"ab\rcd\n", 0), 6);
    assert_eq!(end_of_segment(b"a;b", 0), 1);
    assert_eq!(end_of_segment(b"a\";\"b;c", 0), 5);
    assert_eq!(end_of_segment(b"a\";b", 0), 4);
    assert_eq!(end_of_segment(b"a;b", 2), 3);
}

#[test]
fn fields_and_params_are_found() {
    let text = b"A: 1\r\nb:  two \r\na: 3";
    assert_eq!(find_field(text, b"a"), Some(&b"1"[..]));
    assert_eq!(find_field(text, b"B"), Some(&b"two"[..]));
    assert_eq!(find_field(text, b"c"), None);
    assert_eq!(find_field(b"", b"a"), None);
    assert_eq!(find_field(b"a b: 1", b"a"), None);
    let v = b"form-data; name=\"x\"; other = y ;name=z";
    assert_eq!(find_param(v, 0, b"name"), Some(&b"x"[..]));
    assert_eq!(find_param(v, 20, b"name"), Some(&b"z"[..]));
    assert_eq!(find_param(v, 0, b"OTHER"), Some(&b"y"[..]));
    assert_eq!(find_param(v, 0, b"form-data"), None);
    assert_eq!(find_param(v, 99, b"name"), None);
}

#[test]
fn parse_head_reads_a_block() {
    let p = parse_head(b"Content-Disposition: form-data; name=\"n\"; filename=\"f\"\r\nContent-Type: t/x").unwrap();
    assert_eq!(p.name, b"n".to_vec());
    assert_eq!(p.filename, Some(b"f".to_vec()));
    assert_eq!(p.content_type, Some(b"t/x".to_vec()));
    assert!(parse_head(b"Content-Type: t/x").is_none());
    assert!(parse_head(b"Content-Disposition: form-data").is_none());
    assert!(parse_head(b"").is_none());
}

#[test]
fn cursor_shows_and_consumes() {
    let data: Vec<u8> = (0..10000u32).map(|i| (i % 251) as u8).collect();
    let mut c = Cursor::new(ServerRequest::new(&data, ""));
    assert!(!c.is_ended());
    assert!(c.buffered().is_empty());
    let mut got = Vec::new();
    loop {
        let n = {
            let w = c.peek().unwrap();
            let n = w.len().min(100);
            got.extend_from_slice(&w[..n]);
            n
        };
        if n == 0 {
            break;
        }
        c.consume(n).unwrap();
    }
    assert_eq!(got, data);
    assert!(c.is_ended());
    assert!(c.peek().unwrap().is_empty());
    c.consume(0).unwrap();
}

#[test]
fn cursor_refuses_to_consume_more_than_it_holds() {
    let mut c = Cursor::new(ServerRequest::new(b"abcdef", ""));
    assert!(matches!(c.consume(1), Err(DecodeError::ProtocolViolation)));
    let n = c.peek().unwrap().len();
    assert!(n >= 1);
    assert!(matches!(c.consume(n + 1), Err(DecodeError::ProtocolViolation)));
    assert_eq!(c.buffered(), &b"abcdef"[..n]);
    c.consume(1).unwrap();
    assert_eq!(c.buffered(), &b"abcdef"[1..n]);
}

#[test]
fn cursor_fill_lengthens_the_window() {
    let mut c = Cursor::new(ServerRequest::new(b"abcdef", ""));
    let mut total = 0;
    loop {
        let n = c.fill().unwrap();
        total += n;
        assert_eq!(c.buffered(), &b"abcdef"[..total]);
        if n == 0 {
            break;
        }
    }
    assert_eq!(total, 6);
    assert!(c.is_ended());
    c.advance(2);
    assert_eq!(c.buffered(), b"cdef");
    assert_eq!(c.fill().unwrap(), 0);
    assert_eq!(c.buffered(), b"cdef");
}

#[test]
fn fuzz_entry_decodes_with_its_boundary() {
    assert_eq!(BOUNDARY, "--12--34--56");
    let d = do_fuzz(b"----12--34--56\r\nContent-Disposition: form-data; name=\"a\"\r\n\r\nhello\r\n----12--34--56--");
    assert!(d.error.is_none());
    assert_eq!(d.parts.len(), 1);
    assert_eq!(d.parts[0].body, b"hello".to_vec());
}

#[test]
fn fuzz_entry_on_short_and_odd_data() {
    let d = do_fuzz(b"--12--34--5");
    assert!(d.error.is_none());
    assert_eq!(d.parts.len(), 0);
    let d = do_fuzz(b"");
    assert!(d.error.is_none());
    assert_eq!(d.parts.len(), 0);
    let d = do_fuzz(b"--12--34--56\r\nContent-Disposition: form-data; name=\"a\"\r\n\r\nhello\r\n--12--34--56--");
    assert!(matches!(d.error, Some(DecodeError::BoundaryNotFound)));
    assert_eq!(d.parts.len(), 0);
    let d = do_fuzz(b"----12--34--56\r\n\r\n");
    assert!(matches!(d.error, Some(DecodeError::MalformedHeaders)));
    let d = do_fuzz(&[0xFFu8; 5000]);
    assert!(matches!(d.error, Some(DecodeError::BoundaryNotFound)));
}
