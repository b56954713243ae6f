//! The interfaces through which a request reaches the decoder.

use vstd::prelude::*;
use vstd::string::StringSliceAdditionalSpecFns;

verus! {

/// The error type of the standard library's readers and writers.
#[verifier::external_type_specification]
#[verifier::external_body]
pub struct ExIoError(std::io::Error);

/// A sequence of bytes, as contracts speak of it.
pub type Bytes = Seq<u8>;

/// A readable request body.
///
/// `pending` is the sequence of bytes that the body has yet to deliver. A read
/// hands out some prefix of it; how long a prefix is up to the body, except that
/// an empty one, into a buffer that has room, means the end of the stream.
pub trait BodyRead {
    /// The bytes not yet delivered.
    spec fn pending(&self) -> Bytes;

    /// Whether the body is one that never fails to deliver, such as one held
    /// in memory.
    spec fn steady(&self) -> bool;

    /// Copies the next bytes of the body to the front of `out` and returns how
    /// many were copied. A failed read delivers nothing.
    fn read(&mut self, out: &mut [u8]) -> (r: Result<usize, std::io::Error>)
        ensures
            final(out)@.len() == old(out)@.len(),
            final(self).steady() == old(self).steady(),
            old(self).steady() ==> r is Ok,
            match r {
                Ok(n) => {
                    &&& n <= old(out)@.len()
                    &&& n <= old(self).pending().len()
                    &&& final(out)@.take(n as int) == old(self).pending().take(n as int)
                    &&& final(self).pending() == old(self).pending().skip(n as int)
                    &&& (n == 0 ==> old(out)@.len() == 0 || old(self).pending().len() == 0)
                },
                Err(_) => final(self).pending() == old(self).pending(),
            },
    ;
}

/// A writable stream of bytes.
///
/// `written` is the sequence of bytes that the stream has taken so far. A
/// write appends some prefix of what it is given; how long a prefix is up to
/// the stream.
pub trait BodyWrite {
    /// The bytes taken so far.
    spec fn written(&self) -> Bytes;

    /// Whether all bytes taken so far have reached their destination: the
    /// stream holds none of them back.
    spec fn flushed(&self) -> bool;

    /// Takes the first bytes of `buf` and returns how many it took. A failed
    /// write takes nothing.
    fn write(&mut self, buf: &[u8]) -> (r: Result<usize, std::io::Error>)
        ensures
            match r {
                Ok(n) => {
                    &&& n <= buf@.len()
                    &&& final(self).written() == old(self).written() + buf@.take(n as int)
                },
                Err(_) => final(self).written() == old(self).written(),
            },
    ;

    /// Passes on what the stream may have held back. The bytes taken stay the
    /// same, and after a flush that succeeds none of them is held back.
    fn flush(&mut self) -> (r: Result<(), std::io::Error>)
        ensures
            final(self).written() == old(self).written(),
            r is Ok ==> final(self).flushed(),
    ;
}

/// A request that may carry a multipart body.
pub trait HttpRequest: Sized {
    /// The body of the request.
    type Body: BodyRead;

    /// The boundary that the request announces, as bytes, if it announces one.
    spec fn boundary(&self) -> Option<Seq<u8>>;

    /// The bytes of the request's body.
    spec fn content(&self) -> Seq<u8>;

    /// Whether the request's body is one that never fails to deliver.
    spec fn steady(&self) -> bool;

    /// The boundary that the request announces, if it announces one.
    fn multipart_boundary(&self) -> (r: Option<&str>)
        ensures
            r is Some <==> self.boundary() is Some,
            r matches Some(token) ==> self.boundary() == Some(token.spec_bytes()),
    ;

    /// Gives up the request for its body.
    fn body(self) -> (b: Self::Body)
        ensures
            b.pending() == self.content(),
            b.steady() == self.steady(),
    ;
}

} // verus!
