//! A buffer over a request body: look at the bytes that have arrived, then say
//! how many of them are done with.

use vstd::prelude::*;
use vstd::slice::slice_subrange;
use crate::error::DecodeError;
use crate::source::BodyRead;

verus! {

/// How many bytes one refill asks the body for.
pub const READ_CHUNK: usize = 4096;

/// The length of consumed prefix from which a refill first reclaims it.
pub const HIGH_WATER: usize = 4096;

/// A body together with the bytes read from it and not yet consumed.
///
/// The bytes of the body form one sequence, the stream: what has been consumed,
/// then the window of buffered bytes, then what the body has yet to deliver.
/// Refills lengthen the window at its end and consuming shortens it at its
/// front; neither changes the stream.
pub struct Cursor<R> {
    source: R,
    buf: Vec<u8>,
    start: usize,
    ended: bool,
    scratch: Vec<u8>,
    passed: Ghost<Seq<u8>>,
}

impl<R: BodyRead> Cursor<R> {
    /// The invariant that every operation keeps.
    pub closed spec fn wf(&self) -> bool {
        &&& self.start <= self.buf@.len()
        &&& self.scratch@.len() == READ_CHUNK
        &&& self.ended ==> self.source.pending().len() == 0
    }

    /// The bytes consumed so far.
    pub closed spec fn passed(&self) -> Seq<u8> {
        self.passed@
    }

    /// How many bytes have been consumed: the index in the stream at which the
    /// window starts.
    pub open spec fn offset(&self) -> int {
        self.passed().len() as int
    }

    /// The bytes buffered and not yet consumed.
    pub closed spec fn window(&self) -> Seq<u8> {
        self.buf@.subrange(self.start as int, self.buf@.len() as int)
    }

    /// The bytes that the body has yet to deliver.
    pub closed spec fn unread(&self) -> Seq<u8> {
        self.source.pending()
    }

    /// Whether the body has reported its end.
    pub closed spec fn ended(&self) -> bool {
        self.ended
    }

    /// Whether the body is one that never fails to deliver.
    pub closed spec fn steady(&self) -> bool {
        self.source.steady()
    }

    /// All bytes of the body, from its first to its last.
    pub open spec fn stream(&self) -> Seq<u8> {
        self.passed() + self.window() + self.unread()
    }

    /// A bound on the refills that can still bring something.
    pub open spec fn fuel(&self) -> nat {
        self.unread().len() + if self.ended() { 0nat } else { 1nat }
    }

    /// How the window lies in the stream: it starts where the consumed bytes
    /// end, and once the body has ended it reaches the stream's end.
    pub proof fn lemma_layout(&self)
        requires
            self.wf(),
        ensures
            self.offset() + self.window().len() <= self.stream().len(),
            self.window() == self.stream().subrange(
                self.offset(),
                self.offset() + self.window().len(),
            ),
            self.ended() ==> self.offset() + self.window().len() == self.stream().len(),
    {
        assert(self.window() =~= self.stream().subrange(
            self.offset(),
            self.offset() + self.window().len(),
        ));
    }

    /// A cursor at the start of `source`, with nothing buffered.
    pub fn new(source: R) -> (c: Self)
        ensures
            c.wf(),
            c.passed() == Seq::<u8>::empty(),
            c.window() == Seq::<u8>::empty(),
            c.unread() == source.pending(),
            c.steady() == source.steady(),
            !c.ended(),
    {
        let scratch: Vec<u8> = vec![0u8; READ_CHUNK];
        Cursor {
            source,
            buf: Vec::new(),
            start: 0,
            ended: false,
            scratch,
            passed: Ghost(Seq::empty()),
        }
    }

    /// The window.
    pub fn buffered(&self) -> (w: &[u8])
        requires
            self.wf(),
        ensures
            w@ == self.window(),
    {
        slice_subrange(self.buf.as_slice(), self.start, self.buf.len())
    }

    /// Whether the body has reported its end.
    pub fn is_ended(&self) -> (b: bool)
        ensures
            b == self.ended(),
    {
        self.ended
    }

    /// Asks the body for more bytes and appends them to the window. Returns how
    /// many came; none comes only when the body has ended.
    pub fn fill(&mut self) -> (r: Result<usize, std::io::Error>)
        requires
            old(self).wf(),
        ensures
            final(self).wf(),
            final(self).passed() == old(self).passed(),
            final(self).stream() == old(self).stream(),
            final(self).steady() == old(self).steady(),
            old(self).steady() ==> r is Ok,
            match r {
                Ok(n) => {
                    &&& n <= old(self).unread().len()
                    &&& final(self).window() == old(self).window() + old(self).unread().take(
                        n as int,
                    )
                    &&& final(self).unread() == old(self).unread().skip(n as int)
                    &&& final(self).ended() == (n == 0)
                },
                Err(_) => {
                    &&& final(self).window() == old(self).window()
                    &&& final(self).unread() == old(self).unread()
                    &&& final(self).ended() == old(self).ended()
                },
            },
    {
        if self.ended {
            return Ok(0);
        }
        if self.start > 0 && (self.start == self.buf.len() || self.start >= HIGH_WATER) {
            let rest = self.buf.split_off(self.start);
            self.buf = rest;
            self.start = 0;
            assert(self.window() =~= old(self).window());
        }
        let ghost before = self.source.pending();
        let got = self.source.read(self.scratch.as_mut_slice());
        match got {
            Ok(n) => {
                if n == 0 {
                    self.ended = true;
                    assert(self.unread() =~= old(self).unread().skip(0));
                    assert(self.window() =~= old(self).window() + old(self).unread().take(0));
                } else {
                    let ghost w0 = self.window();
                    let chunk = slice_subrange(self.scratch.as_slice(), 0, n);
                    let mut k: usize = 0;
                    while k < n
                        invariant
                            k <= n == chunk@.len(),
                            self.start <= self.buf@.len(),
                            self.start == old(self).start || self.start == 0,
                            self.window() == w0 + chunk@.take(k as int),
                            self.scratch@.len() == READ_CHUNK,
                            self.ended == old(self).ended,
                            self.passed == old(self).passed,
                            self.source.pending() == before.skip(n as int),
                            self.source.steady() == old(self).source.steady(),
                        decreases n - k,
                    {
                        let ghost held = self.buf@;
                        let ghost shown = self.window();
                        self.buf.push(chunk[k]);
                        assert(self.buf@ == held.push(chunk@[k as int]));
                        assert(self.window() =~= shown.push(chunk@[k as int]));
                        assert(chunk@.take(k + 1) =~= chunk@.take(k as int).push(chunk@[k as int]));
                        k += 1;
                        assert(self.window() =~= w0 + chunk@.take(k as int));
                    }
                    assert(chunk@.take(n as int) =~= before.take(n as int));
                    assert(self.stream() =~= old(self).stream());
                }
                Ok(n)
            },
            Err(e) => Err(e),
        }
    }

    /// Marks the first `n` bytes of the window as consumed.
    pub fn advance(&mut self, n: usize)
        requires
            old(self).wf(),
            n <= old(self).window().len(),
        ensures
            final(self).wf(),
            final(self).passed() == old(self).passed() + old(self).window().take(n as int),
            final(self).window() == old(self).window().skip(n as int),
            final(self).unread() == old(self).unread(),
            final(self).ended() == old(self).ended(),
            final(self).steady() == old(self).steady(),
            final(self).stream() == old(self).stream(),
    {
        let ghost taken = self.window().take(n as int);
        let held: usize = self.buf.len();
        assert(self.start + n <= held);
        self.start = self.start + n;
        self.passed = Ghost(self.passed@ + taken);
        assert(self.window() =~= old(self).window().skip(n as int));
        assert(self.stream() =~= old(self).stream());
    }

    /// The window, after a refill if it was empty. The result is empty only at
    /// the end of the stream.
    pub fn peek(&mut self) -> (r: Result<&[u8], std::io::Error>)
        requires
            old(self).wf(),
        ensures
            final(self).wf(),
            final(self).passed() == old(self).passed(),
            final(self).stream() == old(self).stream(),
            final(self).steady() == old(self).steady(),
            old(self).steady() ==> r is Ok,
            match r {
                Ok(w) => {
                    &&& w@ == final(self).window()
                    &&& w@ == old(self).stream().subrange(
                        old(self).offset(),
                        old(self).offset() + w@.len(),
                    )
                    &&& w@.len() == 0 <==> old(self).offset() == old(self).stream().len()
                },
                Err(_) => {
                    &&& final(self).window() == old(self).window()
                    &&& final(self).ended() == old(self).ended()
                },
            },
    {
        if self.start == self.buf.len() && !self.ended {
            match self.fill() {
                Ok(_) => {},
                Err(e) => {
                    return Err(e);
                },
            }
        }
        proof {
            self.lemma_layout();
        }
        Ok(self.buffered())
    }

    /// Marks the first `n` bytes of the window as consumed. Asking for more
    /// than the window holds is refused, and changes nothing.
    pub fn consume(&mut self, n: usize) -> (r: Result<(), DecodeError>)
        requires
            old(self).wf(),
        ensures
            final(self).wf(),
            final(self).stream() == old(self).stream(),
            final(self).steady() == old(self).steady(),
            final(self).unread() == old(self).unread(),
            final(self).ended() == old(self).ended(),
            match r {
                Ok(_) => {
                    &&& n <= old(self).window().len()
                    &&& final(self).passed() == old(self).passed() + old(self).window().take(
                        n as int,
                    )
                    &&& final(self).window() == old(self).window().skip(n as int)
                },
                Err(e) => {
                    &&& n > old(self).window().len()
                    &&& e is ProtocolViolation
                    &&& final(self).passed() == old(self).passed()
                    &&& final(self).window() == old(self).window()
                },
            },
    {
        if n > self.buf.len() - self.start {
            return Err(DecodeError::ProtocolViolation);
        }
        self.advance(n);
        Ok(())
    }
}

} // verus!
