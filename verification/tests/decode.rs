use multipart_stream::decode::{decode, Decoded};
use multipart_stream::error::DecodeError;
use multipart_stream::mock::ServerRequest;
use multipart_stream::session::{MAX_HEAD, MAX_PREAMBLE};

fn run(body: &[u8], boundary: &str) -> Decoded {
    match decode(ServerRequest::new(body, boundary)) {
        Ok(d) => d,
        Err(_) => panic!("the request announces a boundary"),
    }
}

fn some(text: &[u8]) -> Option<Vec<u8>> {
    Some(text.to_vec())
}

#[test]
fn one_field_with_terminator() {
    let body = b"--12--34--56\r\nContent-Disposition: form-data; name=\"a\"\r\n\r\nhello\r\n--12--34--56--";
    let d = run(body, "12--34--56");
    assert!(d.error.is_none());
    assert_eq!(d.parts.len(), 1);
    assert_eq!(d.parts[0].part.name, b"a".to_vec());
    assert_eq!(d.parts[0].part.filename, None);
    assert_eq!(d.parts[0].part.content_type, None);
    assert_eq!(d.parts[0].body, b"hello".to_vec());
}

#[test]
fn boundary_token_that_starts_with_dashes() {
    let body = b"----12--34--56\r\nContent-Disposition: form-data; name=\"a\"\r\n\r\nhello\r\n----12--34--56--";
    let d = run(body, "--12--34--56");
    assert!(d.error.is_none());
    assert_eq!(d.parts.len(), 1);
    assert_eq!(d.parts[0].part.name, b"a".to_vec());
    assert_eq!(d.parts[0].body, b"hello".to_vec());
}

#[test]
fn body_shorter_than_boundary_has_no_parts() {
    let d = run(b"--12", "--12--34--56");
    assert!(d.error.is_none());
    assert_eq!(d.parts.len(), 0);
}

#[test]
fn body_one_byte_shorter_than_boundary_has_no_parts() {
    let d = run(b"abc", "abcd");
    assert!(d.error.is_none());
    assert_eq!(d.parts.len(), 0);
}

#[test]
fn body_as_long_as_boundary_without_delimiter_is_lost() {
    let d = run(b"abcd", "abcd");
    assert!(matches!(d.error, Some(DecodeError::BoundaryNotFound)));
    assert_eq!(d.parts.len(), 0);
}

#[test]
fn empty_body_has_no_parts() {
    let d = run(b"", "B");
    assert!(d.error.is_none());
    assert_eq!(d.parts.len(), 0);
}

#[test]
fn empty_body_and_empty_boundary_is_lost() {
    let d = run(b"", "");
    assert!(matches!(d.error, Some(DecodeError::BoundaryNotFound)));
    assert_eq!(d.parts.len(), 0);
}

#[test]
fn only_a_terminator_has_no_parts() {
    let d = run(b"--B--", "B");
    assert!(d.error.is_none());
    assert_eq!(d.parts.len(), 0);
}

#[test]
fn body_without_delimiter_is_lost() {
    let d = run(b"there is no delimiter in here at all", "B");
    assert!(matches!(d.error, Some(DecodeError::BoundaryNotFound)));
    assert_eq!(d.parts.len(), 0);
}

#[test]
fn missing_terminator_is_reported_after_the_part() {
    let body = b"--B\r\nContent-Disposition: form-data; name=\"a\"\r\n\r\nhello world";
    let d = run(body, "B");
    assert!(matches!(d.error, Some(DecodeError::BoundaryNotFound)));
    assert_eq!(d.parts.len(), 1);
    assert_eq!(d.parts[0].part.name, b"a".to_vec());
    assert_eq!(d.parts[0].body, b"hello world".to_vec());
}

#[test]
fn preamble_is_passed_over() {
    let body = b"this is a preamble\r\n--B\r\nContent-Disposition: form-data; name=\"a\"\r\n\r\nx\r\n--B--";
    let d = run(body, "B");
    assert!(d.error.is_none());
    assert_eq!(d.parts.len(), 1);
    assert_eq!(d.parts[0].body, b"x".to_vec());
}

#[test]
fn preamble_at_its_bound_is_passed_over() {
    let mut body = vec![b'x'; MAX_PREAMBLE];
    body.extend_from_slice(b"--B\r\nContent-Disposition: form-data; name=\"a\"\r\n\r\nx\r\n--B--");
    let d = run(&body, "B");
    assert!(d.error.is_none());
    assert_eq!(d.parts.len(), 1);
}

#[test]
fn preamble_beyond_its_bound_is_lost() {
    let mut body = vec![b'x'; MAX_PREAMBLE + 1];
    body.extend_from_slice(b"--B\r\nContent-Disposition: form-data; name=\"a\"\r\n\r\nx\r\n--B--");
    let d = run(&body, "B");
    assert!(matches!(d.error, Some(DecodeError::BoundaryNotFound)));
    assert_eq!(d.parts.len(), 0);
}

#[test]
fn two_parts_with_filename_and_content_type() {
    let body = b"--B\r\nContent-Disposition: form-data; name=\"text\"\r\n\r\nfirst\r\n--B\r\nContent-Disposition: form-data; name=\"file\"; filename=\"a;b.txt\"\r\nContent-Type: text/plain\r\n\r\nline one\r\nline two\r\n--B--\r\n";
    let d = run(body, "B");
    assert!(d.error.is_none());
    assert_eq!(d.parts.len(), 2);
    assert_eq!(d.parts[0].part.name, b"text".to_vec());
    assert_eq!(d.parts[0].part.filename, None);
    assert_eq!(d.parts[0].part.content_type, None);
    assert_eq!(d.parts[0].body, b"first".to_vec());
    assert_eq!(d.parts[1].part.name, b"file".to_vec());
    assert_eq!(d.parts[1].part.filename, some(b"a;b.txt"));
    assert_eq!(d.parts[1].part.content_type, some(b"text/plain"));
    assert_eq!(d.parts[1].body, b"line one\r\nline two".to_vec());
}

#[test]
fn empty_part_body() {
    let body = b"--B\r\nContent-Disposition: form-data; name=\"a\"\r\n\r\n\r\n--B--";
    let d = run(body, "B");
    assert!(d.error.is_none());
    assert_eq!(d.parts.len(), 1);
    assert_eq!(d.parts[0].body, Vec::<u8>::new());
}

#[test]
fn trailing_content_after_the_terminator_is_ignored() {
    let body = b"--B\r\nContent-Disposition: form-data; name=\"a\"\r\n\r\nx\r\n--B--\r\nepilogue\r\n--B\r\nContent-Disposition: form-data; name=\"b\"\r\n\r\ny\r\n--B--";
    let d = run(body, "B");
    assert!(d.error.is_none());
    assert_eq!(d.parts.len(), 1);
    assert_eq!(d.parts[0].part.name, b"a".to_vec());
}

#[test]
fn delimiter_with_another_ending_belongs_to_the_body() {
    let body = b"--B\r\nContent-Disposition: form-data; name=\"a\"\r\n\r\none\r\n--Bxx two\r\n--B-\r\n--B--";
    let d = run(body, "B");
    assert!(d.error.is_none());
    assert_eq!(d.parts.len(), 1);
    assert_eq!(d.parts[0].body, b"one\r\n--Bxx two\r\n--B-".to_vec());
}

#[test]
fn opening_delimiter_with_another_ending_is_preamble() {
    let body = b"--Bx\r\n--B\r\nContent-Disposition: form-data; name=\"a\"\r\n\r\none\r\n--B--";
    let d = run(body, "B");
    assert!(d.error.is_none());
    assert_eq!(d.parts.len(), 1);
    assert_eq!(d.parts[0].body, b"one".to_vec());
}

#[test]
fn header_names_in_any_case_and_other_headers() {
    let body = b"--B\r\nX-Other: 1\r\ncontent-type:   image/png  \r\nCONTENT-DISPOSITION:form-data;NAME=pic ; FileName=\"p.png\"\r\nno colon here\r\n\r\nx\r\n--B--";
    let d = run(body, "B");
    assert!(d.error.is_none());
    assert_eq!(d.parts.len(), 1);
    assert_eq!(d.parts[0].part.name, b"pic".to_vec());
    assert_eq!(d.parts[0].part.filename, some(b"p.png"));
    assert_eq!(d.parts[0].part.content_type, some(b"image/png"));
}

#[test]
fn only_one_layer_of_quotes_is_taken_off() {
    let body = b"--B\r\nContent-Disposition: form-data; name=\"\"a\"\"\r\n\r\nx\r\n--B--";
    let d = run(body, "B");
    assert!(d.error.is_none());
    assert_eq!(d.parts[0].part.name, b"\"a\"".to_vec());
}

#[test]
fn missing_content_disposition_is_malformed() {
    let body = b"--B\r\nContent-Type: text/plain\r\n\r\nx\r\n--B--";
    let d = run(body, "B");
    assert!(matches!(d.error, Some(DecodeError::MalformedHeaders)));
    assert_eq!(d.parts.len(), 0);
}

#[test]
fn missing_field_name_is_malformed() {
    let body = b"--B\r\nContent-Disposition: form-data; filename=\"f\"\r\n\r\nx\r\n--B--";
    let d = run(body, "B");
    assert!(matches!(d.error, Some(DecodeError::MalformedHeaders)));
    assert_eq!(d.parts.len(), 0);
}

#[test]
fn name_in_place_of_the_disposition_does_not_count() {
    let body = b"--B\r\nContent-Disposition: name=\"a\"\r\n\r\nx\r\n--B--";
    let d = run(body, "B");
    assert!(matches!(d.error, Some(DecodeError::MalformedHeaders)));
}

#[test]
fn empty_header_block_is_malformed() {
    let body = b"--B\r\n\r\nx\r\n--B--";
    let d = run(body, "B");
    assert!(matches!(d.error, Some(DecodeError::MalformedHeaders)));
    assert_eq!(d.parts.len(), 0);
}

#[test]
fn header_block_that_does_not_end_is_malformed() {
    let body = b"--B\r\nContent-Disposition: form-data; name=\"a\"\r\n";
    let d = run(body, "B");
    assert!(matches!(d.error, Some(DecodeError::MalformedHeaders)));
    assert_eq!(d.parts.len(), 0);
}

#[test]
fn malformed_second_part_keeps_the_first() {
    let body = b"--B\r\nContent-Disposition: form-data; name=\"a\"\r\n\r\nx\r\n--B\r\nX: y\r\n\r\nz\r\n--B--";
    let d = run(body, "B");
    assert!(matches!(d.error, Some(DecodeError::MalformedHeaders)));
    assert_eq!(d.parts.len(), 1);
    assert_eq!(d.parts[0].body, b"x".to_vec());
}

fn with_header_block_of(len: usize) -> Vec<u8> {
    // the block counts from the line break that ends the separator to the end
    // of the blank line
    let line = b"Content-Disposition: form-data; name=\"a\"\r\nX: ";
    let mut body = b"--B".to_vec();
    body.extend_from_slice(b"\r\n");
    body.extend_from_slice(line);
    let fill = len - 2 - line.len() - 4;
    body.extend(std::iter::repeat(b'y').take(fill));
    body.extend_from_slice(b"\r\n\r\n");
    body.extend_from_slice(b"x\r\n--B--");
    body
}

#[test]
fn header_block_at_its_bound_is_read() {
    let d = run(&with_header_block_of(MAX_HEAD), "B");
    assert!(d.error.is_none());
    assert_eq!(d.parts.len(), 1);
    assert_eq!(d.parts[0].body, b"x".to_vec());
}

#[test]
fn header_block_beyond_its_bound_is_malformed() {
    let d = run(&with_header_block_of(MAX_HEAD + 1), "B");
    assert!(matches!(d.error, Some(DecodeError::MalformedHeaders)));
    assert_eq!(d.parts.len(), 0);
}

#[test]
fn random_pieces_do_not_change_the_result() {
    let mut body = b"preamble\r\n--frontier\r\nContent-Disposition: form-data; name=\"one\"\r\n\r\n".to_vec();
    body.extend(std::iter::repeat(b"\r\n--frontie".iter().copied()).take(700).flatten());
    body.extend_from_slice(b"\r\n--frontier\r\nContent-Disposition: form-data; name=\"two\"; filename=\"f\"\r\nContent-Type: a/b\r\n\r\n");
    body.extend(std::iter::repeat(b'z').take(9000));
    body.extend_from_slice(b"\r\n--frontier--");
    for _ in 0..40 {
        let d = run(&body, "frontier");
        assert!(d.error.is_none());
        assert_eq!(d.parts.len(), 2);
        assert_eq!(d.parts[0].part.name, b"one".to_vec());
        assert_eq!(d.parts[0].body.len(), 700 * 11);
        assert!(d.parts[0].body.starts_with(b"\r\n--frontie\r\n--frontie"));
        assert_eq!(d.parts[1].part.name, b"two".to_vec());
        assert_eq!(d.parts[1].part.filename, some(b"f"));
        assert_eq!(d.parts[1].part.content_type, some(b"a/b"));
        assert_eq!(d.parts[1].body, vec![b'z'; 9000]);
    }
}

#[test]
fn empty_boundary_is_still_a_boundary() {
    let r = decode(ServerRequest::new(b"----", ""));
    match r {
        Ok(d) => {
            assert!(d.error.is_none());
            assert_eq!(d.parts.len(), 0);
        }
        Err(_) => panic!("the request announces a boundary"),
    }
}
