//! Transports for tests: a buffer that takes, and a request that delivers,
//! pieces of random size, as a network connection would.

use vstd::prelude::*;
use vstd::slice::slice_subrange;
use vstd::string::StringSliceAdditionalSpecFns;
use vstd::utf8::encode_utf8;
use rand::{rngs::ThreadRng, Rng};
use std::io::Write;
use crate::source::{BodyRead, BodyWrite, HttpRequest};
use crate::text::append;

verus! {

/// The handle to the thread-local generator of `rand`.
#[verifier::external_type_specification]
#[verifier::external_body]
pub struct ExThreadRng(ThreadRng);

/// The handle to the standard output of the process.
#[verifier::external_type_specification]
#[verifier::external_body]
pub struct ExStdout(std::io::Stdout);

/// The locked standard output of the process.
#[verifier::external_type_specification]
#[verifier::external_body]
pub struct ExStdoutLock<'a>(std::io::StdoutLock<'a>);

/// `rand::thread_rng`: the calling thread's generator. Nothing is claimed of it.
#[verifier::external_body]
fn thread_rng() -> ThreadRng {
    rand::thread_rng()
}

/// `Rng::gen_range` over `low..=high`: some number of that range, both ends
/// included. The call panics on an empty range, which `low <= high` rules out.
#[verifier::external_body]
fn gen_len(rng: &mut ThreadRng, low: usize, high: usize) -> (n: usize)
    requires
        low <= high,
    ensures
        low <= n <= high,
{
    rng.gen_range(low..=high)
}

/// `Stdout::lock`: the standard output, locked for as long as the result lives.
#[verifier::external_body]
fn lock_stdout<'s>(stdout: &'s std::io::Stdout) -> std::io::StdoutLock<'s> {
    stdout.lock()
}

/// `Write::write` on the locked standard output: takes some of `buf`, and
/// returns how many bytes it took, at most the length of `buf`.
#[verifier::external_body]
fn stdout_write(out: &mut std::io::StdoutLock<'_>, buf: &[u8]) -> (r: Result<usize, std::io::Error>)
    ensures
        r matches Ok(n) ==> n <= buf@.len(),
{
    out.write(buf)
}

/// `Write::flush` on the locked standard output.
#[verifier::external_body]
fn stdout_flush(out: &mut std::io::StdoutLock<'_>) -> Result<(), std::io::Error> {
    out.flush()
}

/// `io::Error::from` on `ErrorKind::WriteZero`: the error of a stream that takes nothing.
#[verifier::external_body]
fn write_zero() -> std::io::Error {
    std::io::Error::from(std::io::ErrorKind::WriteZero)
}

/// A writable buffer which stores the boundary and content length, if given.
#[derive(Debug)]
pub struct HttpBuffer {
    /// The buffer containing the raw bytes.
    pub buf: Vec<u8>,
    /// The multipart boundary.
    pub boundary: String,
    /// The value of the content-length header, if set.
    pub content_len: Option<u64>,
    rng: ThreadRng,
}

impl HttpBuffer {
    /// The boundary, as text.
    pub closed spec fn token(&self) -> Seq<char> {
        self.boundary@
    }

    /// The content length.
    pub closed spec fn length(&self) -> Option<u64> {
        self.content_len
    }

    /// An empty buffer with the given boundary and content length.
    pub fn new_empty(boundary: String, content_len: Option<u64>) -> (b: HttpBuffer)
        ensures
            b.written() == Seq::<u8>::empty(),
            b.token() == boundary@,
            b.length() == content_len,
    {
        Self::with_buf(Vec::new(), boundary, content_len)
    }

    /// A buffer that holds `buf`, with the given boundary and content length.
    pub fn with_buf(buf: Vec<u8>, boundary: String, content_len: Option<u64>) -> (b: Self)
        ensures
            b.written() == buf@,
            b.token() == boundary@,
            b.length() == content_len,
    {
        HttpBuffer { buf, boundary, content_len, rng: thread_rng() }
    }

    /// A request whose body is what this buffer holds, with the buffer's
    /// boundary and content length.
    pub fn for_server(&self) -> (r: ServerRequest<'_>)
        ensures
            r.pending() == self.written(),
            r.announced() == self.token(),
            r.length() == self.length(),
    {
        ServerRequest {
            data: self.buf.as_slice(),
            boundary: self.boundary.as_str(),
            content_len: self.content_len,
            rng: thread_rng(),
        }
    }

    /// Takes the first `len` bytes of `buf`, or all of `buf` if it is shorter,
    /// and returns how many it took.
    pub fn store(&mut self, buf: &[u8], len: usize) -> (n: usize)
        ensures
            n == if len <= buf@.len() { len as int } else { buf@.len() as int },
            final(self).written() == old(self).written() + buf@.take(n as int),
            final(self).token() == old(self).token(),
            final(self).length() == old(self).length(),
    {
        let n: usize = if len <= buf.len() {
            len
        } else {
            buf.len()
        };
        append(&mut self.buf, slice_subrange(buf, 0, n));
        n
    }
}

impl BodyWrite for HttpBuffer {
    closed spec fn written(&self) -> Seq<u8> {
        self.buf@
    }

    open spec fn flushed(&self) -> bool {
        true
    }

    /// Takes a random number of bytes from the front of `buf`, at least one if
    /// there is one. Boundary and content length stay as they are.
    fn write(&mut self, buf: &[u8]) -> (r: Result<usize, std::io::Error>)
        ensures
            r is Ok,
            r matches Ok(n) ==> (n == 0 <==> buf@.len() == 0),
            final(self).token() == old(self).token(),
            final(self).length() == old(self).length(),
    {
        if buf.len() == 0 {
            assert(self.buf@ + buf@.take(0) =~= self.buf@);
            return Ok(0);
        }
        let len: usize = gen_len(&mut self.rng, 1, buf.len());
        Ok(self.store(buf, len))
    }

    /// Does nothing: the buffer holds nothing back.
    fn flush(&mut self) -> (r: Result<(), std::io::Error>)
        ensures
            r is Ok,
            final(self).token() == old(self).token(),
            final(self).length() == old(self).length(),
    {
        Ok(())
    }
}

/// A request whose body is a byte slice, delivered in pieces of random length.
#[derive(Debug)]
pub struct ServerRequest<'a> {
    /// The part of the body that has not been read yet.
    pub data: &'a [u8],
    /// The multipart boundary.
    pub boundary: &'a str,
    /// The value of the content-length header, if set.
    pub content_len: Option<u64>,
    rng: ThreadRng,
}

impl<'a> ServerRequest<'a> {
    /// The boundary, as text.
    pub closed spec fn announced(&self) -> Seq<char> {
        self.boundary@
    }

    /// The content length.
    pub closed spec fn length(&self) -> Option<u64> {
        self.content_len
    }

    /// A request with the given body and boundary, and no content length.
    pub fn new(data: &'a [u8], boundary: &'a str) -> (r: Self)
        ensures
            r.pending() == data@,
            r.announced() == boundary@,
            r.length() is None,
    {
        ServerRequest { data, boundary, content_len: None, rng: thread_rng() }
    }

    /// Copies the next `len` bytes of the body to the front of `out`, or as
    /// many as the body has left and `out` has room for, and returns how many
    /// it copied. The rest of `out` stays as it is, and so do boundary and
    /// content length.
    pub fn deliver(&mut self, out: &mut [u8], len: usize) -> (n: usize)
        ensures
            n == least(len as int, old(out)@.len() as int, old(self).pending().len() as int),
            final(out)@.len() == old(out)@.len(),
            final(out)@.take(n as int) == old(self).pending().take(n as int),
            final(out)@.skip(n as int) == old(out)@.skip(n as int),
            n == 0 ==> final(out)@ == old(out)@,
            final(self).pending() == old(self).pending().skip(n as int),
            final(self).announced() == old(self).announced(),
            final(self).length() == old(self).length(),
    {
        let room: usize = if out.len() < len {
            out.len()
        } else {
            len
        };
        let n: usize = if self.data.len() < room {
            self.data.len()
        } else {
            room
        };
        let mut i: usize = 0;
        assert(out@.take(0) =~= self.data@.take(0));
        while i < n
            invariant
                i <= n <= self.data@.len(),
                n <= out@.len(),
                out@.len() == old(out)@.len(),
                *self == *old(self),
                out@.take(i as int) == self.data@.take(i as int),
                out@.skip(n as int) == old(out)@.skip(n as int),
            decreases n - i,
        {
            out[i] = self.data[i];
            i += 1;
            assert(out@.take(i as int) =~= self.data@.take(i as int));
            assert(out@.skip(n as int) =~= old(out)@.skip(n as int));
        }
        self.data = slice_subrange(self.data, n, self.data.len());
        assert(self.data@ =~= old(self).data@.skip(n as int));
        assert(n == 0 ==> out@ =~= out@.skip(0) && old(out)@ =~= old(out)@.skip(0));
        n
    }
}

/// The least of three numbers.
pub open spec fn least(a: int, b: int, c: int) -> int {
    if a <= b && a <= c {
        a
    } else if b <= c {
        b
    } else {
        c
    }
}

impl<'a> BodyRead for ServerRequest<'a> {
    closed spec fn pending(&self) -> Seq<u8> {
        self.data@
    }

    open spec fn steady(&self) -> bool {
        true
    }

    /// Copies a random number of bytes to the front of `out`: at least one, if
    /// `out` has room and the body has a byte left, and never more than the
    /// body has left. The rest of `out` stays as it is, and so do boundary and
    /// content length.
    fn read(&mut self, out: &mut [u8]) -> (r: Result<usize, std::io::Error>)
        ensures
            r matches Ok(n) && final(out)@.skip(n as int) == old(out)@.skip(n as int),
            r matches Ok(n) && (n == 0 ==> final(out)@ == old(out)@),
            final(self).announced() == old(self).announced(),
            final(self).length() == old(self).length(),
    {
        if out.len() == 0 {
            assert(self.data@.skip(0) =~= self.data@);
            assert(out@.take(0) =~= self.data@.take(0));
            return Ok(0);
        }
        let len: usize = gen_len(&mut self.rng, 1, out.len());
        Ok(self.deliver(out, len))
    }
}

impl<'a> HttpRequest for ServerRequest<'a> {
    type Body = Self;

    open spec fn boundary(&self) -> Option<Seq<u8>> {
        Some(encode_utf8(self.announced()))
    }

    open spec fn content(&self) -> Seq<u8> {
        self.pending()
    }

    open spec fn steady(&self) -> bool {
        true
    }

    /// The boundary of the request; there always is one.
    fn multipart_boundary(&self) -> (r: Option<&str>)
        ensures
            r matches Some(token) && token@ == self.announced(),
    {
        Some(self.boundary)
    }

    /// The request itself.
    fn body(self) -> (b: Self)
        ensures
            b == self,
    {
        self
    }
}

/// Writes all of `buf` to `sink`, in as many writes as it takes. A sink that
/// takes nothing of what is left fails the call, and so does any write that
/// fails, an interrupted one too: its failure is handed up, and the call is
/// not tried again. Nothing to write is always written.
pub fn write_all<W: BodyWrite>(sink: &mut W, buf: &[u8]) -> (r: Result<(), std::io::Error>)
    ensures
        buf@.len() == 0 ==> r is Ok,
        match r {
            Ok(_) => final(sink).written() == old(sink).written() + buf@,
            Err(_) => exists|k: int|
                0 <= k <= buf@.len() && final(sink).written() == old(sink).written()
                    + #[trigger] buf@.take(k),
        },
{
    let mut done: usize = 0;
    assert(sink.written() + buf@.take(0) =~= sink.written());
    while done < buf.len()
        invariant
            done <= buf@.len(),
            sink.written() == old(sink).written() + buf@.take(done as int),
        decreases buf@.len() - done,
    {
        let rest = slice_subrange(buf, done, buf.len());
        match sink.write(rest) {
            Ok(n) => {
                if n == 0 {
                    return Err(write_zero());
                }
                assert(buf@.take(done as int) + rest@.take(n as int) =~= buf@.take(done + n));
                done += n;
            },
            Err(e) => {
                return Err(e);
            },
        }
    }
    assert(buf@.take(done as int) =~= buf@);
    Ok(())
}

/// A writer that passes what it is given to an inner writer and to the
/// standard output as well.
pub struct StdoutTee<'s, W> {
    inner: W,
    stdout: std::io::StdoutLock<'s>,
}

impl<'s, W: BodyWrite> StdoutTee<'s, W> {
    /// The inner writer.
    pub closed spec fn inner(&self) -> W {
        self.inner
    }

    /// The bytes that the inner writer has taken.
    pub open spec fn written(&self) -> Seq<u8> {
        self.inner().written()
    }

    /// A tee over `inner` and the standard output, which it locks. Nothing is
    /// done to `inner`.
    pub fn new(inner: W, stdout: &'s std::io::Stdout) -> (t: Self)
        ensures
            t.inner() == inner,
    {
        Self { inner, stdout: lock_stdout(stdout) }
    }

    /// Writes all of `buf` to the inner writer, then offers it to the standard
    /// output, and returns how much of it the standard output took.
    pub fn write(&mut self, buf: &[u8]) -> (r: Result<usize, std::io::Error>)
        ensures
            match r {
                Ok(n) => n <= buf@.len() && final(self).written() == old(self).written() + buf@,
                Err(_) => exists|k: int|
                    0 <= k <= buf@.len() && final(self).written() == old(self).written()
                        + #[trigger] buf@.take(k),
            },
    {
        match write_all(&mut self.inner, buf) {
            Ok(_) => {},
            Err(e) => {
                return Err(e);
            },
        }
        let r = stdout_write(&mut self.stdout, buf);
        assert(buf@.take(buf@.len() as int) =~= buf@);
        r
    }

    /// Flushes the inner writer, then the standard output.
    pub fn flush(&mut self) -> (r: Result<(), std::io::Error>)
        ensures
            final(self).written() == old(self).written(),
            r is Ok ==> final(self).flushed(),
    {
        match self.inner.flush() {
            Ok(_) => {},
            Err(e) => {
                return Err(e);
            },
        }
        stdout_flush(&mut self.stdout)
    }

    /// Gives up the tee for its inner writer.
    pub fn into_inner(self) -> (w: W)
        ensures
            w == self.inner(),
    {
        self.inner
    }

    /// Whether the inner writer holds back none of the bytes that it has taken.
    pub open spec fn flushed(&self) -> bool {
        self.inner().flushed()
    }
}

} // verus!
