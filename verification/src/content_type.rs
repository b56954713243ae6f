//! The boundary that a `Content-Type` header announces.

use vstd::prelude::*;
use vstd::slice::slice_subrange;
use crate::head::type_key;
use crate::text::{eq_ignore_case, index_of, position, same_word, unquote, unquoted, SEMICOLON};
use crate::wire::{find, first_occurrence};

verus! {

/// `boundary=`
pub open spec fn boundary_key() -> Seq<u8> {
    seq![98, 111, 117, 110, 100, 97, 114, 121, 61]
}

/// The boundary that the header value `content_type` announces: what follows
/// the first `boundary=`, up to the next semicolon or else to the end, without
/// one pair of double quotes around it. None if `boundary=` does not occur.
pub open spec fn announced_boundary(content_type: Seq<u8>) -> Option<Seq<u8>> {
    match first_occurrence(content_type, 0, boundary_key()) {
        None => None,
        Some(at) => {
            let after = content_type.skip(at + boundary_key().len());
            Some(unquote(after.take(index_of(after, SEMICOLON, 0))))
        },
    }
}

/// The boundary that the value of a `Content-Type` header announces, if it
/// announces one.
pub fn multipart_boundary<'a>(content_type: &'a [u8]) -> (r: Option<&'a [u8]>)
    ensures
        r is Some <==> announced_boundary(content_type@) is Some,
        r matches Some(b) ==> announced_boundary(content_type@) == Some(b@),
{
    let key: [u8; 9] = [98, 111, 117, 110, 100, 97, 114, 121, 61];
    assert(key@ =~= boundary_key());
    let pat = key.as_slice();
    assert(pat@.len() == 9);
    match find(content_type, 0, pat) {
        None => None,
        Some(at) => {
            let total: usize = content_type.len();
            let after = slice_subrange(content_type, at + 9, total);
            assert(after@ =~= content_type@.skip(at + 9));
            let end = position(after, SEMICOLON, 0);
            let value = slice_subrange(after, 0, end);
            Some(unquoted(value))
        },
    }
}

/// The value of the first header, at or after index `from`, whose name is
/// `key` in any case. A header is a pair of a name and a value.
pub open spec fn header_value(headers: Seq<(Seq<u8>, Seq<u8>)>, key: Seq<u8>, from: int) -> Option<
    Seq<u8>,
>
    decreases headers.len() - from,
{
    if from < 0 || from >= headers.len() {
        None
    } else if same_word(headers[from].0, key) {
        Some(headers[from].1)
    } else {
        header_value(headers, key, from + 1)
    }
}

/// The boundary that the headers of a request announce: the one that the
/// value of the first header named `Content-Type`, in any case, announces.
pub open spec fn request_boundary(headers: Seq<(Seq<u8>, Seq<u8>)>) -> Option<Seq<u8>> {
    match header_value(headers, type_key(), 0) {
        None => None,
        Some(value) => announced_boundary(value),
    }
}

/// The value of the first header whose name is `key` in any case.
pub fn find_header<'a>(headers: &'a [(Vec<u8>, Vec<u8>)], key: &[u8]) -> (r: Option<&'a [u8]>)
    ensures
        r is Some <==> header_value(headers.deep_view(), key@, 0) is Some,
        r matches Some(v) ==> header_value(headers.deep_view(), key@, 0) == Some(v@),
{
    let ghost all = headers.deep_view();
    let mut i: usize = 0;
    while i < headers.len()
        invariant
            i <= headers@.len(),
            all == headers.deep_view(),
            all.len() == headers@.len(),
            header_value(all, key@, 0) == header_value(all, key@, i as int),
        decreases headers@.len() - i,
    {
        let header = &headers[i];
        assert(all[i as int].0 =~= header.0@);
        assert(all[i as int].1 =~= header.1@);
        if eq_ignore_case(header.0.as_slice(), key) {
            return Some(header.1.as_slice());
        }
        i += 1;
    }
    None
}

/// The boundary that the headers of a request announce, if they announce
/// one.
pub fn boundary_of_headers<'a>(headers: &'a [(Vec<u8>, Vec<u8>)]) -> (r: Option<&'a [u8]>)
    ensures
        r is Some <==> request_boundary(headers.deep_view()) is Some,
        r matches Some(b) ==> request_boundary(headers.deep_view()) == Some(b@),
{
    let key: [u8; 12] = [99, 111, 110, 116, 101, 110, 116, 45, 116, 121, 112, 101];
    assert(key@ =~= type_key());
    match find_header(headers, key.as_slice()) {
        None => None,
        Some(value) => multipart_boundary(value),
    }
}

} // verus!
