use multipart_stream::error::DecodeError;
use multipart_stream::mock::ServerRequest;
use multipart_stream::session::{Session, State};

const TWO: &[u8] = b"--B\r\nContent-Disposition: form-data; name=\"a\"\r\n\r\nfirst body\r\n--B\r\nContent-Disposition: form-data; name=\"b\"\r\n\r\nsecond\r\n--B--";

fn drain(s: &mut Session<ServerRequest<'_>>) -> Vec<u8> {
    let mut out = Vec::new();
    loop {
        let n = {
            let w = s.peek_body().expect("the body is well formed");
            out.extend_from_slice(w);
            w.len()
        };
        if n == 0 {
            return out;
        }
        s.consume_body(n).expect("what was shown may be consumed");
    }
}

#[test]
fn parts_one_by_one() {
    let mut s = Session::with_body(ServerRequest::new(TWO, "B"), b"B");
    assert_eq!(s.current_state(), State::AwaitFirstBoundary);
    let a = s.next_part().unwrap().unwrap();
    assert_eq!(a.name, b"a".to_vec());
    assert_eq!(s.current_state(), State::ReadingBody);
    assert_eq!(drain(&mut s), b"first body".to_vec());
    let b = s.next_part().unwrap().unwrap();
    assert_eq!(b.name, b"b".to_vec());
    assert_eq!(drain(&mut s), b"second".to_vec());
    assert!(s.next_part().unwrap().is_none());
    assert_eq!(s.current_state(), State::Terminal);
}

#[test]
fn from_source_takes_the_boundary_of_the_request() {
    let mut s = match Session::from_source(ServerRequest::new(TWO, "B")) {
        Ok(s) => s,
        Err(_) => panic!("the request announces a boundary"),
    };
    let a = s.next_part().unwrap().unwrap();
    assert_eq!(a.name, b"a".to_vec());
}

#[test]
fn exhaustion_is_idempotent() {
    let mut s = Session::with_body(ServerRequest::new(b"--B--", "B"), b"B");
    for _ in 0..5 {
        assert!(s.next_part().unwrap().is_none());
        assert_eq!(s.current_state(), State::Terminal);
    }
}

#[test]
fn closed_session_has_no_more_parts() {
    let mut s = Session::with_body(ServerRequest::new(b"no delimiter", "B"), b"B");
    assert!(matches!(s.next_part(), Err(DecodeError::BoundaryNotFound)));
    assert_eq!(s.current_state(), State::Closed);
    for _ in 0..3 {
        assert!(s.next_part().unwrap().is_none());
        assert_eq!(s.current_state(), State::Closed);
    }
}

#[test]
fn next_part_skips_an_unread_body() {
    let mut s = Session::with_body(ServerRequest::new(TWO, "B"), b"B");
    s.next_part().unwrap().unwrap();
    let b = s.next_part().unwrap().unwrap();
    assert_eq!(b.name, b"b".to_vec());
    assert_eq!(drain(&mut s), b"second".to_vec());
}

#[test]
fn next_part_skips_a_body_read_in_part() {
    for taken in 0..=10usize {
        let mut s = Session::with_body(ServerRequest::new(TWO, "B"), b"B");
        s.next_part().unwrap().unwrap();
        let mut left = taken;
        while left > 0 {
            let n = s.peek_body().unwrap().len().min(left);
            assert!(n > 0);
            s.consume_body(n).unwrap();
            left -= n;
        }
        let b = s.next_part().unwrap().unwrap();
        assert_eq!(b.name, b"b".to_vec());
        assert_eq!(drain(&mut s), b"second".to_vec());
        assert!(s.next_part().unwrap().is_none());
    }
}

#[test]
fn consuming_more_than_shown_is_refused() {
    let mut s = Session::with_body(ServerRequest::new(TWO, "B"), b"B");
    s.next_part().unwrap().unwrap();
    assert!(matches!(s.consume_body(1), Err(DecodeError::ProtocolViolation)));
    let n = s.peek_body().unwrap().len();
    assert!(n > 0);
    assert!(matches!(s.consume_body(n + 1), Err(DecodeError::ProtocolViolation)));
    assert_eq!(s.current_state(), State::ReadingBody);
    s.consume_body(n).unwrap();
    assert!(matches!(s.consume_body(1), Err(DecodeError::ProtocolViolation)));
    let mut rest = TWO[49..49 + n].to_vec();
    rest.extend_from_slice(&drain(&mut s));
    assert_eq!(rest, b"first body".to_vec());
}

#[test]
fn consuming_nothing_is_always_accepted() {
    let mut s = Session::with_body(ServerRequest::new(TWO, "B"), b"B");
    s.consume_body(0).unwrap();
    assert_eq!(s.current_state(), State::AwaitFirstBoundary);
}

#[test]
fn nothing_is_shown_outside_a_part() {
    let mut s = Session::with_body(ServerRequest::new(TWO, "B"), b"B");
    assert_eq!(s.peek_body().unwrap().len(), 0);
    assert_eq!(s.current_state(), State::AwaitFirstBoundary);
    let mut out = Vec::new();
    s.read_body(&mut out).unwrap();
    assert!(out.is_empty());
    let a = s.next_part().unwrap().unwrap();
    assert_eq!(a.name, b"a".to_vec());
}

#[test]
fn read_body_appends_the_rest_of_the_body() {
    let mut s = Session::with_body(ServerRequest::new(TWO, "B"), b"B");
    s.next_part().unwrap().unwrap();
    let n = s.peek_body().unwrap().len().min(3);
    s.consume_body(n).unwrap();
    let mut out = b">".to_vec();
    s.read_body(&mut out).unwrap();
    let mut want = b">".to_vec();
    want.extend_from_slice(&b"first body"[n..]);
    assert_eq!(out, want);
    assert_eq!(s.peek_body().unwrap().len(), 0);
    assert_eq!(s.current_state(), State::ReadingBody);
}

#[test]
fn unclosed_body_is_shown_to_its_end_and_then_fails() {
    let body = b"--B\r\nContent-Disposition: form-data; name=\"a\"\r\n\r\nabc\r\n--B";
    let mut s = Session::with_body(ServerRequest::new(body, "B"), b"B");
    s.next_part().unwrap().unwrap();
    let mut out = Vec::new();
    assert!(matches!(s.read_body(&mut out), Err(DecodeError::BoundaryNotFound)));
    assert_eq!(out, b"abc\r\n--B".to_vec());
    assert_eq!(s.current_state(), State::Closed);
    assert!(s.next_part().unwrap().is_none());
}

#[test]
fn headers_cut_short_close_the_session() {
    let body = b"--B\r\nContent-Disposition: form-data; name=\"a\"";
    let mut s = Session::with_body(ServerRequest::new(body, "B"), b"B");
    assert!(matches!(s.next_part(), Err(DecodeError::MalformedHeaders)));
    assert_eq!(s.current_state(), State::Closed);
}
