use multipart_stream::content_type::{boundary_of_headers, find_header, multipart_boundary};

fn of(value: &[u8]) -> Option<Vec<u8>> {
    multipart_boundary(value).map(|b| b.to_vec())
}

#[test]
fn plain_boundary() {
    assert_eq!(of(b"multipart/form-data; boundary=abc123"), Some(b"abc123".to_vec()));
}

#[test]
fn quoted_boundary() {
    assert_eq!(of(b"multipart/form-data; boundary=\"abc 123\""), Some(b"abc 123".to_vec()));
}

#[test]
fn boundary_ends_at_a_semicolon() {
    assert_eq!(
        of(b"multipart/form-data; boundary=abc; charset=utf-8"),
        Some(b"abc".to_vec())
    );
    assert_eq!(
        of(b"multipart/form-data; boundary=\"abc\"; charset=utf-8"),
        Some(b"abc".to_vec())
    );
}

#[test]
fn no_boundary() {
    assert_eq!(of(b"text/plain; charset=utf-8"), None);
    assert_eq!(of(b""), None);
    assert_eq!(of(b"multipart/form-data; Boundary=abc"), None);
    assert_eq!(of(b"boundary"), None);
}

#[test]
fn empty_boundary() {
    assert_eq!(of(b"multipart/form-data; boundary="), Some(Vec::new()));
    assert_eq!(of(b"boundary=;x"), Some(Vec::new()));
    assert_eq!(of(b"boundary=\"\""), Some(Vec::new()));
}

#[test]
fn lone_or_unpaired_quotes_stay() {
    assert_eq!(of(b"boundary=\""), Some(b"\"".to_vec()));
    assert_eq!(of(b"boundary=\"abc"), Some(b"\"abc".to_vec()));
    assert_eq!(of(b"boundary=abc\""), Some(b"abc\"".to_vec()));
    assert_eq!(of(b"boundary=\"a;b\""), Some(b"\"a".to_vec()));
}

#[test]
fn first_occurrence_counts() {
    assert_eq!(of(b"x-boundary=one; boundary=two"), Some(b"one".to_vec()));
}

fn header(name: &[u8], value: &[u8]) -> (Vec<u8>, Vec<u8>) {
    (name.to_vec(), value.to_vec())
}

#[test]
fn first_header_of_the_name_is_found_in_any_case() {
    let headers = vec![
        header(b"Host", b"example"),
        header(b"content-TYPE", b"one"),
        header(b"Content-Type", b"two"),
    ];
    assert_eq!(find_header(&headers, b"Content-Type"), Some(&b"one"[..]));
    assert_eq!(find_header(&headers, b"HOST"), Some(&b"example"[..]));
    assert_eq!(find_header(&headers, b"Content-Typ"), None);
    assert_eq!(find_header(&headers, b"Accept"), None);
    assert_eq!(find_header(&[], b"Host"), None);
}

#[test]
fn boundary_comes_from_the_first_content_type_header() {
    let headers = vec![
        header(b"Host", b"boundary=no"),
        header(b"CONTENT-type", b"multipart/form-data; boundary=\"abc\"; charset=x"),
        header(b"Content-Type", b"multipart/form-data; boundary=other"),
    ];
    assert_eq!(boundary_of_headers(&headers), Some(&b"abc"[..]));
}

#[test]
fn no_boundary_without_a_content_type_that_announces_one() {
    assert_eq!(boundary_of_headers(&[]), None);
    assert_eq!(boundary_of_headers(&[header(b"Host", b"boundary=x")]), None);
    let headers = vec![
        header(b"Content-Type", b"text/plain"),
        header(b"Content-Type", b"multipart/form-data; boundary=late"),
    ];
    assert_eq!(boundary_of_headers(&headers), None);
}
