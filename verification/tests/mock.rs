use multipart_stream::mock::{write_all, HttpBuffer, ServerRequest, StdoutTee};
use multipart_stream::source::{BodyRead, BodyWrite, HttpRequest};

#[test]
fn new_empty_holds_nothing() {
    let b = HttpBuffer::new_empty("bnd".to_string(), Some(7));
    assert!(b.buf.is_empty());
    assert_eq!(b.boundary, "bnd");
    assert_eq!(b.content_len, Some(7));
}

#[test]
fn with_buf_holds_what_it_is_given() {
    let b = HttpBuffer::with_buf(vec![1, 2, 3], "bnd".to_string(), None);
    assert_eq!(b.buf, vec![1, 2, 3]);
    assert_eq!(b.boundary, "bnd");
    assert_eq!(b.content_len, None);
}

#[test]
fn write_takes_a_prefix_of_at_least_one_byte() {
    let data: Vec<u8> = (0..=255u8).collect();
    let mut seen_short = false;
    for _ in 0..200 {
        let mut b = HttpBuffer::new_empty(String::new(), None);
        let n = b.write(&data).unwrap();
        assert!(1 <= n && n <= data.len());
        assert_eq!(b.buf, data[..n].to_vec());
        seen_short = seen_short || n < data.len();
    }
    assert!(seen_short);
}

#[test]
fn write_of_nothing_takes_nothing() {
    let mut b = HttpBuffer::with_buf(vec![9], String::new(), None);
    assert_eq!(b.write(&[]).unwrap(), 0);
    assert_eq!(b.buf, vec![9]);
    b.flush().unwrap();
    assert_eq!(b.buf, vec![9]);
}

#[test]
fn write_all_takes_everything() {
    let data: Vec<u8> = (0..2000u32).map(|i| (i % 251) as u8).collect();
    let mut b = HttpBuffer::with_buf(vec![7, 7], String::new(), None);
    write_all(&mut b, &data).unwrap();
    let mut want = vec![7, 7];
    want.extend_from_slice(&data);
    assert_eq!(b.buf, want);
}

#[test]
fn for_server_wraps_the_buffer() {
    let b = HttpBuffer::with_buf(b"hello".to_vec(), "bnd".to_string(), Some(5));
    let r = b.for_server();
    assert_eq!(r.data, b"hello");
    assert_eq!(r.boundary, "bnd");
    assert_eq!(r.content_len, Some(5));
}

#[test]
fn server_request_new_has_no_content_length() {
    let r = ServerRequest::new(b"abc", "bnd");
    assert_eq!(r.data, b"abc");
    assert_eq!(r.boundary, "bnd");
    assert_eq!(r.content_len, None);
    assert_eq!(r.multipart_boundary(), Some("bnd"));
    let body = r.body();
    assert_eq!(body.data, b"abc");
}

#[test]
fn read_delivers_a_prefix_of_at_least_one_byte() {
    let data: Vec<u8> = (0..=255u8).collect();
    let mut seen_short = false;
    for _ in 0..200 {
        let mut r = ServerRequest::new(&data, "");
        let mut out = [0xEEu8; 64];
        let n = r.read(&mut out).unwrap();
        assert!(1 <= n && n <= 64);
        assert_eq!(&out[..n], &data[..n]);
        assert_eq!(r.data, &data[n..]);
        seen_short = seen_short || n < 64;
    }
    assert!(seen_short);
}

#[test]
fn read_delivers_everything_in_order_and_then_nothing() {
    let data: Vec<u8> = (0..1000u32).map(|i| (i % 253) as u8).collect();
    let mut r = ServerRequest::new(&data, "");
    let mut got = Vec::new();
    loop {
        let mut out = [0u8; 37];
        let n = r.read(&mut out).unwrap();
        if n == 0 {
            break;
        }
        got.extend_from_slice(&out[..n]);
    }
    assert_eq!(got, data);
    let mut out = [0u8; 4];
    assert_eq!(r.read(&mut out).unwrap(), 0);
}

#[test]
fn read_into_no_room_delivers_nothing() {
    let mut r = ServerRequest::new(b"abc", "");
    let mut out = [0u8; 0];
    assert_eq!(r.read(&mut out).unwrap(), 0);
    assert_eq!(r.data, b"abc");
}

#[test]
fn read_is_bounded_by_what_is_left() {
    let mut r = ServerRequest::new(b"ab", "");
    let mut out = [0u8; 100];
    let n = r.read(&mut out).unwrap();
    assert!(1 <= n && n <= 2);
    assert_eq!(&out[..n], &b"ab"[..n]);
}

#[test]
fn tee_passes_everything_to_the_inner_writer() {
    let stdout = std::io::stdout();
    let inner = HttpBuffer::new_empty(String::new(), None);
    let mut tee = StdoutTee::new(inner, &stdout);
    let n = tee.write(b"tee says hello\n").unwrap();
    assert!(n <= 15);
    tee.flush().unwrap();
    assert_eq!(tee.write(b"").unwrap(), 0);
    let inner = tee.into_inner();
    assert_eq!(inner.buf, b"tee says hello\n".to_vec());
}

#[test]
fn store_takes_the_length_it_is_given() {
    let mut b = HttpBuffer::with_buf(vec![1], "bnd".to_string(), Some(4));
    assert_eq!(b.store(b"abcdef", 2), 2);
    assert_eq!(b.buf, b"\x01ab".to_vec());
    assert_eq!(b.store(b"abcdef", 0), 0);
    assert_eq!(b.buf, b"\x01ab".to_vec());
    assert_eq!(b.store(b"xyz", 9), 3);
    assert_eq!(b.buf, b"\x01abxyz".to_vec());
    assert_eq!(b.store(b"", 5), 0);
    assert_eq!(b.buf, b"\x01abxyz".to_vec());
    assert_eq!(b.boundary, "bnd");
    assert_eq!(b.content_len, Some(4));
}

#[test]
fn deliver_copies_the_length_it_is_given() {
    let b = HttpBuffer::with_buf(b"abcdef".to_vec(), "bnd".to_string(), Some(6));
    let mut r = b.for_server();
    let mut out = [9u8; 4];
    assert_eq!(r.deliver(&mut out, 2), 2);
    assert_eq!(out, [b'a', b'b', 9, 9]);
    assert_eq!(r.data, b"cdef");
    assert_eq!(r.deliver(&mut out, 0), 0);
    assert_eq!(out, [b'a', b'b', 9, 9]);
    assert_eq!(r.deliver(&mut out, 100), 4);
    assert_eq!(out, [b'c', b'd', b'e', b'f']);
    assert_eq!(r.data, b"");
    assert_eq!(r.deliver(&mut out, 3), 0);
    assert_eq!(out, [b'c', b'd', b'e', b'f']);
    assert_eq!(r.boundary, "bnd");
    assert_eq!(r.content_len, Some(6));
}

#[test]
fn deliver_is_bounded_by_what_is_left() {
    let mut r = ServerRequest::new(b"ab", "x");
    let mut out = [9u8; 4];
    assert_eq!(r.deliver(&mut out, 3), 2);
    assert_eq!(out, [b'a', b'b', 9, 9]);
    assert_eq!(r.data, b"");
}

#[test]
fn read_leaves_the_rest_of_the_buffer_alone() {
    let data: Vec<u8> = (0..=255u8).collect();
    for _ in 0..100 {
        let mut r = ServerRequest::new(&data, "x");
        let mut out = [0xEEu8; 64];
        let n = r.read(&mut out).unwrap();
        assert!(out[n..].iter().all(|b| *b == 0xEE));
        assert_eq!(r.boundary, "x");
        assert_eq!(r.content_len, None);
    }
    let mut r = ServerRequest::new(b"", "x");
    let mut out = [9u8; 4];
    assert_eq!(r.read(&mut out).unwrap(), 0);
    assert_eq!(out, [9, 9, 9, 9]);
}

#[test]
fn one_byte_has_one_way_to_be_read_and_written() {
    let mut r = ServerRequest::new(b"ab", "x");
    let mut out = [0u8; 1];
    assert_eq!(r.read(&mut out).unwrap(), 1);
    assert_eq!(out, [b'a']);
    assert_eq!(r.data, b"b");
    assert_eq!(r.boundary, "x");
    let mut b = HttpBuffer::new_empty("b".to_string(), None);
    assert_eq!(b.write(b"x").unwrap(), 1);
    assert_eq!(b.buf, vec![b'x']);
    assert_eq!(b.boundary, "b");
    assert_eq!(b.content_len, None);
}

#[test]
fn what_is_written_in_pieces_is_read_back_in_pieces() {
    let data: Vec<u8> = (0..5000u32).map(|i| (i % 241) as u8).collect();
    let mut b = HttpBuffer::new_empty("bnd".to_string(), Some(5000));
    write_all(&mut b, &data).unwrap();
    b.flush().unwrap();
    assert_eq!(b.boundary, "bnd");
    assert_eq!(b.content_len, Some(5000));
    let mut r = b.for_server().body();
    assert_eq!(r.boundary, "bnd");
    assert_eq!(r.content_len, Some(5000));
    let mut got = Vec::new();
    loop {
        let mut out = [0u8; 300];
        let n = r.read(&mut out).unwrap();
        if n == 0 {
            break;
        }
        got.extend_from_slice(&out[..n]);
    }
    assert_eq!(got, data);
    assert_eq!(r.boundary, "bnd");
}

#[test]
fn write_all_of_nothing_succeeds() {
    let mut b = HttpBuffer::with_buf(vec![1, 2], String::new(), None);
    write_all(&mut b, &[]).unwrap();
    assert_eq!(b.buf, vec![1, 2]);
}
