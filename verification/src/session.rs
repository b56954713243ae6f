//! The decoding session: from the first boundary through each part's headers
//! and body to the terminal boundary.

use vstd::prelude::*;
use vstd::slice::{slice_subrange, slice_to_vec};
use vstd::string::StringSliceAdditionalSpecFns;
use crate::cursor::Cursor;
use crate::error::{DecodeError, SourceUnavailable};
use crate::head::{head_of, parse_head, Part, PartView};
use crate::source::{BodyRead, HttpRequest};
use crate::text::append;
use crate::wire::{
    blank_line, clear, closing, find, find_mark, first_mark, first_occurrence,
    lemma_first_mark_skip, lemma_first_mark_some, lemma_first_occurrence_is,
    lemma_first_occurrence_none,
    lemma_first_occurrence_some, lemma_mark_in_window, lemma_search_in_window, no_occurrence,
    opening, separator, terminator, Mark, CR, DASH, LF,
};

verus! {

/// The first mark must start within this many bytes of the body's start; what
/// stands before it is preamble and is passed over.
pub const MAX_PREAMBLE: usize = 65536;

/// A header block, with the blank line that ends it, is at most this long.
pub const MAX_HEAD: usize = 16384;

/// Where a session stands.
#[derive(Clone, Copy, Debug, PartialEq, Eq, Structural)]
pub enum State {
    /// Nothing has been decoded; the opening delimiter is yet to be found.
    AwaitFirstBoundary,
    /// A separator has been passed; a header block follows.
    ReadingHeaders,
    /// A part has been handed out; its body is being read.
    ReadingBody,
    /// The terminator has been found.
    Terminal,
    /// Decoding has failed and has stopped.
    Closed,
}

/// Where the search for the next header block ends.
pub enum Sought {
    /// A header block follows; the index is that of the line break which ends
    /// the separator before it.
    Headers(int),
    /// No part follows.
    End,
    /// The delimiter that has to come does not.
    Lost,
}

/// What the next request for a part yields.
pub enum Step {
    /// A part; its body starts at `body_at`.
    Yield { part: PartView, body_at: int },
    /// No part: the body is done.
    End,
    /// The body is missing a delimiter.
    Lost,
    /// The part's header block is malformed.
    Malformed,
}

/// The search that comes before a header block, for a session in `state` at
/// index `offset` of the body `s`.
pub open spec fn seek(s: Seq<u8>, boundary: Seq<u8>, state: State, offset: int) -> Sought {
    match state {
        State::AwaitFirstBoundary => if s.len() < boundary.len() {
            Sought::End
        } else {
            match first_mark(s, 0, opening(boundary)) {
                None => Sought::Lost,
                Some((i, m)) => if i > MAX_PREAMBLE {
                    Sought::Lost
                } else if m == Mark::Terminator {
                    Sought::End
                } else {
                    Sought::Headers(i + opening(boundary).len())
                },
            }
        },
        State::ReadingBody => match first_mark(s, offset, closing(boundary)) {
            None => Sought::Lost,
            Some((i, m)) => if m == Mark::Terminator {
                Sought::End
            } else {
                Sought::Headers(i + closing(boundary).len())
            },
        },
        State::ReadingHeaders => Sought::Headers(offset),
        State::Terminal | State::Closed => Sought::End,
    }
}

/// The header block after the line break at index `at`: its text, without that
/// line break and without the blank line that ends the block, and the index at
/// which the body starts. None if no blank line follows within `MAX_HEAD`
/// bytes.
pub open spec fn head_block(s: Seq<u8>, at: int) -> Option<(Seq<u8>, int)> {
    match first_occurrence(s, at, blank_line()) {
        None => None,
        Some(e) => if e + 4 - at > MAX_HEAD {
            None
        } else if at + 2 <= e {
            Some((s.subrange(at + 2, e), e + 4))
        } else {
            Some((Seq::empty(), e + 4))
        },
    }
}

/// What reading the header block after the line break at index `at` yields.
pub open spec fn head_step(s: Seq<u8>, at: int) -> Step {
    match head_block(s, at) {
        None => Step::Malformed,
        Some((text, body_at)) => match head_of(text) {
            None => Step::Malformed,
            Some(part) => Step::Yield { part, body_at },
        },
    }
}

/// What the next request for a part yields, for a session in `state` at index
/// `offset` of the body `s`.
pub open spec fn step(s: Seq<u8>, boundary: Seq<u8>, state: State, offset: int) -> Step {
    match seek(s, boundary, state, offset) {
        Sought::Lost => Step::Lost,
        Sought::End => Step::End,
        Sought::Headers(at) => head_step(s, at),
    }
}

/// Where the body of the part that is being read ends: at the first mark of the
/// closing delimiter, or, where none comes, at the end of the stream.
pub open spec fn body_end(s: Seq<u8>, boundary: Seq<u8>, offset: int) -> int {
    match first_mark(s, offset, closing(boundary)) {
        Some((j, _)) => j,
        None => s.len() as int,
    }
}

/// The closing delimiter, with one of its endings, stands at `offset`.
pub open spec fn at_delimiter(s: Seq<u8>, boundary: Seq<u8>, offset: int) -> bool {
    first_mark(s, offset, closing(boundary)) matches Some((j, _)) && j == offset
}

/// A decoder of one multipart body.
pub struct Session<R> {
    cursor: Cursor<R>,
    boundary: Vec<u8>,
    open_sep: Vec<u8>,
    open_term: Vec<u8>,
    part_sep: Vec<u8>,
    part_term: Vec<u8>,
    blank: Vec<u8>,
    state: State,
    granted: usize,
}

impl<R: BodyRead> Session<R> {
    /// The invariant of the parts that never change.
    pub closed spec fn wf_fixed(&self) -> bool {
        &&& self.cursor.wf()
        &&& self.open_sep@ == separator(opening(self.boundary@))
        &&& self.open_term@ == terminator(opening(self.boundary@))
        &&& self.part_sep@ == separator(closing(self.boundary@))
        &&& self.part_term@ == terminator(closing(self.boundary@))
        &&& self.blank@ == blank_line()
    }

    /// The invariant that every operation keeps.
    pub closed spec fn wf(&self) -> bool {
        &&& self.wf_fixed()
        &&& self.state == State::AwaitFirstBoundary ==> self.cursor.offset() == 0
        &&& self.state != State::ReadingBody ==> self.granted == 0
        &&& self.granted <= self.cursor.window().len()
        &&& clear(
            self.cursor.stream(),
            self.cursor.offset(),
            self.cursor.offset() + self.granted,
            closing(self.boundary@),
        )
    }

    /// All bytes of the body, from its first to its last.
    pub closed spec fn stream(&self) -> Seq<u8> {
        self.cursor.stream()
    }

    /// How many bytes of the body the session has passed.
    pub closed spec fn offset(&self) -> int {
        self.cursor.offset()
    }

    /// The boundary token.
    pub closed spec fn boundary(&self) -> Seq<u8> {
        self.boundary@
    }

    /// Where the session stands.
    pub closed spec fn state(&self) -> State {
        self.state
    }

    /// Whether the body is one that never fails to deliver.
    pub closed spec fn steady(&self) -> bool {
        self.cursor.steady()
    }

    /// How many bytes of the current part's body the caller may consume.
    pub closed spec fn granted(&self) -> int {
        self.granted as int
    }

    /// What the next call of `next_part` yields, unless the body fails to
    /// deliver.
    pub open spec fn upcoming(&self) -> Step {
        step(self.stream(), self.boundary(), self.state(), self.offset())
    }

    /// Where the session stands.
    pub fn current_state(&self) -> (s: State)
        ensures
            s == self.state(),
    {
        self.state
    }

    /// A session at the start of `body`, whose parts `boundary` delimits.
    pub fn with_body(body: R, boundary: &[u8]) -> (s: Self)
        ensures
            s.wf(),
            s.stream() == body.pending(),
            s.steady() == body.steady(),
            s.boundary() == boundary@,
            s.state() == State::AwaitFirstBoundary,
            s.offset() == 0,
    {
        let mut open_sep: Vec<u8> = Vec::new();
        let mut part_sep: Vec<u8> = Vec::new();
        part_sep.push(CR);
        part_sep.push(LF);
        open_sep.push(DASH);
        open_sep.push(DASH);
        part_sep.push(DASH);
        part_sep.push(DASH);
        let mut i: usize = 0;
        while i < boundary.len()
            invariant
                i <= boundary@.len(),
                open_sep@ == opening(boundary@.take(i as int)),
                part_sep@ == closing(boundary@.take(i as int)),
            decreases boundary@.len() - i,
        {
            open_sep.push(boundary[i]);
            part_sep.push(boundary[i]);
            i += 1;
            assert(open_sep@ =~= opening(boundary@.take(i as int)));
            assert(part_sep@ =~= closing(boundary@.take(i as int)));
        }
        assert(boundary@.take(i as int) =~= boundary@);
        let mut open_term = open_sep.clone();
        let mut part_term = part_sep.clone();
        assert(open_term@ =~= open_sep@);
        assert(part_term@ =~= part_sep@);
        open_sep.push(CR);
        open_sep.push(LF);
        part_sep.push(CR);
        part_sep.push(LF);
        open_term.push(DASH);
        open_term.push(DASH);
        part_term.push(DASH);
        part_term.push(DASH);
        let mut blank: Vec<u8> = Vec::new();
        blank.push(CR);
        blank.push(LF);
        blank.push(CR);
        blank.push(LF);
        let held = slice_to_vec(boundary);
        let cursor = Cursor::new(body);
        assert(open_sep@ =~= separator(opening(held@)));
        assert(open_term@ =~= terminator(opening(held@)));
        assert(part_sep@ =~= separator(closing(held@)));
        assert(part_term@ =~= terminator(closing(held@)));
        assert(blank@ =~= blank_line());
        assert(cursor.stream() =~= body.pending());
        Session {
            cursor,
            boundary: held,
            open_sep,
            open_term,
            part_sep,
            part_term,
            blank,
            state: State::AwaitFirstBoundary,
            granted: 0,
        }
    }

    /// A session over the body of `source`, delimited by the boundary that the
    /// request announces. A request that announces none is handed back.
    pub fn from_source<S: HttpRequest<Body = R>>(source: S) -> (r: Result<
        Self,
        SourceUnavailable<S>,
    >)
        ensures
            match r {
                Ok(s) => {
                    &&& source.boundary() == Some(s.boundary())
                    &&& s.wf()
                    &&& s.stream() == source.content()
                    &&& s.steady() == source.steady()
                    &&& s.state() == State::AwaitFirstBoundary
                    &&& s.offset() == 0
                },
                Err(back) => source.boundary() is None && back.source == source,
            },
    {
        let token: Vec<u8> = match source.multipart_boundary() {
            None => { return Err(SourceUnavailable { source }); },
            Some(t) => slice_to_vec(t.as_bytes()),
        };
        let body = source.body();
        Ok(Self::with_body(body, token.as_slice()))
    }
}

impl<R: BodyRead> Session<R> {
    /// Stops the session.
    fn close(&mut self)
        requires
            old(self).wf_fixed(),
        ensures
            final(self).wf(),
            final(self).state() == State::Closed,
            final(self).stream() == old(self).stream(),
            final(self).boundary() == old(self).boundary(),
            final(self).steady() == old(self).steady(),
            final(self).offset() == old(self).offset(),
    {
        self.state = State::Closed;
        self.granted = 0;
    }

    /// Finds the opening delimiter. Returns whether a header block follows.
    fn seek_opening(&mut self) -> (r: Result<bool, DecodeError>)
        requires
            old(self).wf(),
            old(self).state() == State::AwaitFirstBoundary,
        ensures
            final(self).wf(),
            final(self).stream() == old(self).stream(),
            final(self).boundary() == old(self).boundary(),
            final(self).steady() == old(self).steady(),
            match r {
                Ok(more) => if more {
                    &&& seek(old(self).stream(), old(self).boundary(), old(self).state(), 0)
                        == Sought::Headers(final(self).offset())
                    &&& final(self).state() == State::ReadingHeaders
                } else {
                    &&& seek(old(self).stream(), old(self).boundary(), old(self).state(), 0)
                        == Sought::End
                    &&& final(self).state() == State::Terminal
                },
                Err(e) => {
                    &&& final(self).state() == State::Closed
                    &&& e matches DecodeError::BoundaryNotFound ==> seek(
                        old(self).stream(),
                        old(self).boundary(),
                        old(self).state(),
                        0,
                    ) == Sought::Lost
                    &&& e is Io || e is BoundaryNotFound
                    &&& e is Io ==> !old(self).steady()
                },
            },
    {
        let ghost s = self.stream();
        let ghost delimiter = opening(self.boundary@);
        let mut scanned: usize = 0;
        loop
            invariant
                self.wf(),
                self.state == State::AwaitFirstBoundary,
                old(self).state() == State::AwaitFirstBoundary,
                self.stream() == s,
                s == old(self).stream(),
                self.boundary == old(self).boundary,
                self.steady() == old(self).steady(),
                delimiter == opening(self.boundary@),
                scanned <= MAX_PREAMBLE,
                clear(s, 0, scanned as int, delimiter),
            decreases self.cursor.fuel(),
        {
            let ended = self.cursor.is_ended();
            let w = self.cursor.buffered();
            let held: usize = w.len();
            let found = find_mark(w, scanned, self.open_sep.as_slice(), self.open_term.as_slice());
            proof {
                self.cursor.lemma_layout();
                lemma_mark_in_window(s, 0, w@, scanned as int, delimiter);
            }
            match found {
                Some((i, m)) => {
                    if i > MAX_PREAMBLE {
                        self.close();
                        return Err(DecodeError::BoundaryNotFound);
                    }
                    match m {
                        Mark::Terminator => {
                            self.state = State::Terminal;
                            return Ok(false);
                        },
                        Mark::Separator => {
                            let skip: usize = i + (self.open_sep.len() - 2);
                            self.cursor.advance(skip);
                            self.state = State::ReadingHeaders;
                            return Ok(true);
                        },
                    }
                },
                None => {
                    if ended {
                        if held < self.boundary.len() {
                            self.state = State::Terminal;
                            return Ok(false);
                        }
                        self.close();
                        return Err(DecodeError::BoundaryNotFound);
                    }
                    let keep: usize = self.open_sep.len() - 1;
                    if held > keep && held - keep > scanned {
                        if held - keep > MAX_PREAMBLE {
                            proof {
                                if first_mark(s, 0, delimiter) is Some {
                                    lemma_first_mark_some(s, 0, delimiter);
                                }
                            }
                            self.close();
                            return Err(DecodeError::BoundaryNotFound);
                        }
                        scanned = held - keep;
                    }
                    match self.cursor.fill() {
                        Ok(_) => {},
                        Err(e) => {
                            self.close();
                            return Err(DecodeError::Io(e));
                        },
                    }
                },
            }
        }
    }

    /// Passes over what is left of the current part's body and finds the
    /// delimiter after it. Returns whether a header block follows.
    fn seek_closing(&mut self) -> (r: Result<bool, DecodeError>)
        requires
            old(self).wf(),
            old(self).state() == State::ReadingBody,
        ensures
            final(self).wf(),
            final(self).stream() == old(self).stream(),
            final(self).boundary() == old(self).boundary(),
            final(self).steady() == old(self).steady(),
            match r {
                Ok(more) => if more {
                    &&& seek(
                        old(self).stream(),
                        old(self).boundary(),
                        old(self).state(),
                        old(self).offset(),
                    ) == Sought::Headers(final(self).offset())
                    &&& final(self).state() == State::ReadingHeaders
                    &&& final(self).offset() > old(self).offset()
                } else {
                    &&& seek(
                        old(self).stream(),
                        old(self).boundary(),
                        old(self).state(),
                        old(self).offset(),
                    ) == Sought::End
                    &&& final(self).state() == State::Terminal
                },
                Err(e) => {
                    &&& final(self).state() == State::Closed
                    &&& e matches DecodeError::BoundaryNotFound ==> seek(
                        old(self).stream(),
                        old(self).boundary(),
                        old(self).state(),
                        old(self).offset(),
                    ) == Sought::Lost
                    &&& e is Io || e is BoundaryNotFound
                    &&& e is Io ==> !old(self).steady()
                },
            },
    {
        let ghost s = self.stream();
        let ghost delimiter = closing(self.boundary@);
        let ghost start = self.offset();
        self.granted = 0;
        loop
            invariant
                self.wf(),
                self.state == State::ReadingBody,
                old(self).state() == State::ReadingBody,
                self.granted == 0,
                self.stream() == s,
                s == old(self).stream(),
                self.boundary == old(self).boundary,
                self.steady() == old(self).steady(),
                delimiter == closing(self.boundary@),
                start == old(self).offset(),
                start <= self.offset(),
                first_mark(s, self.offset(), delimiter) == first_mark(s, start, delimiter),
            decreases self.cursor.fuel(),
        {
            let ended = self.cursor.is_ended();
            let w = self.cursor.buffered();
            let held: usize = w.len();
            let found = find_mark(w, 0, self.part_sep.as_slice(), self.part_term.as_slice());
            proof {
                self.cursor.lemma_layout();
                lemma_mark_in_window(s, self.offset(), w@, 0, delimiter);
            }
            match found {
                Some((i, m)) => {
                    match m {
                        Mark::Terminator => {
                            self.state = State::Terminal;
                            return Ok(false);
                        },
                        Mark::Separator => {
                            let skip: usize = i + (self.part_sep.len() - 2);
                            self.cursor.advance(skip);
                            self.state = State::ReadingHeaders;
                            return Ok(true);
                        },
                    }
                },
                None => {
                    if ended {
                        self.close();
                        return Err(DecodeError::BoundaryNotFound);
                    }
                    let keep: usize = self.part_sep.len() - 1;
                    if held > keep {
                        proof {
                            lemma_first_mark_skip(
                                s,
                                self.offset(),
                                self.offset() + held - keep,
                                delimiter,
                            );
                        }
                        self.cursor.advance(held - keep);
                    }
                    match self.cursor.fill() {
                        Ok(_) => {},
                        Err(e) => {
                            self.close();
                            return Err(DecodeError::Io(e));
                        },
                    }
                },
            }
        }
    }

    /// Reads the header block at which the session stands.
    fn read_head(&mut self) -> (r: Result<Part, DecodeError>)
        requires
            old(self).wf(),
            old(self).state() == State::ReadingHeaders,
        ensures
            final(self).wf(),
            final(self).stream() == old(self).stream(),
            final(self).boundary() == old(self).boundary(),
            final(self).steady() == old(self).steady(),
            match r {
                Ok(p) => {
                    &&& head_step(old(self).stream(), old(self).offset()) == (Step::Yield {
                        part: p@,
                        body_at: final(self).offset(),
                    })
                    &&& final(self).state() == State::ReadingBody
                    &&& final(self).offset() > old(self).offset()
                    &&& final(self).granted() == 0
                },
                Err(e) => {
                    &&& final(self).state() == State::Closed
                    &&& e matches DecodeError::MalformedHeaders ==> head_step(
                        old(self).stream(),
                        old(self).offset(),
                    ) == Step::Malformed
                    &&& e is Io || e is MalformedHeaders
                    &&& e is Io ==> !old(self).steady()
                },
            },
    {
        let ghost s = self.stream();
        let ghost at = self.offset();
        let mut scanned: usize = 0;
        loop
            invariant
                self.wf(),
                self.state == State::ReadingHeaders,
                self.stream() == s,
                s == old(self).stream(),
                self.offset() == at == old(self).offset(),
                self.boundary == old(self).boundary,
                self.steady() == old(self).steady(),
                no_occurrence(s, at, at + scanned, blank_line()),
            decreases self.cursor.fuel(),
        {
            let ended = self.cursor.is_ended();
            let w = self.cursor.buffered();
            let held: usize = w.len();
            let found = find(w, scanned, self.blank.as_slice());
            proof {
                self.cursor.lemma_layout();
                lemma_search_in_window(s, at, w@, scanned as int, blank_line());
            }
            match found {
                Some(e) => {
                    proof {
                        lemma_first_occurrence_is(s, at, blank_line(), at + e);
                    }
                    if e + 4 > MAX_HEAD {
                        self.close();
                        return Err(DecodeError::MalformedHeaders);
                    }
                    let text = if e >= 2 {
                        slice_subrange(w, 2, e)
                    } else {
                        slice_subrange(w, 0, 0)
                    };
                    assert(head_block(s, at) == Some((text@, at + e + 4))) by {
                        if e >= 2 {
                            assert(text@ =~= s.subrange(at + 2, at + e));
                        } else {
                            assert(text@ =~= Seq::<u8>::empty());
                        }
                    }
                    match parse_head(text) {
                        None => {
                            self.close();
                            return Err(DecodeError::MalformedHeaders);
                        },
                        Some(part) => {
                            self.cursor.advance(e + 4);
                            self.state = State::ReadingBody;
                            return Ok(part);
                        },
                    }
                },
                None => {
                    if ended || held >= MAX_HEAD {
                        proof {
                            if first_occurrence(s, at, blank_line()) is Some {
                                lemma_first_occurrence_some(s, at, blank_line());
                            }
                        }
                        self.close();
                        return Err(DecodeError::MalformedHeaders);
                    }
                    if held > 3 && held - 3 > scanned {
                        scanned = held - 3;
                    }
                    match self.cursor.fill() {
                        Ok(_) => {},
                        Err(e) => {
                            self.close();
                            return Err(DecodeError::Io(e));
                        },
                    }
                },
            }
        }
    }

    /// Moves to the next part and returns what its header block says of it;
    /// `None` once the terminator has been found. What is left of the previous
    /// part's body is passed over first. Any failure closes the session, and a
    /// closed session has no more parts.
    pub fn next_part(&mut self) -> (r: Result<Option<Part>, DecodeError>)
        requires
            old(self).wf(),
        ensures
            final(self).wf(),
            final(self).stream() == old(self).stream(),
            final(self).boundary() == old(self).boundary(),
            final(self).steady() == old(self).steady(),
            old(self).state() == State::Terminal || old(self).state() == State::Closed ==> r matches Ok(
                None,
            ),
            match r {
                Ok(Some(p)) => {
                    &&& old(self).upcoming() == (Step::Yield {
                        part: p@,
                        body_at: final(self).offset(),
                    })
                    &&& final(self).state() == State::ReadingBody
                    &&& final(self).offset() > old(self).offset()
                    &&& final(self).granted() == 0
                },
                Ok(None) => {
                    &&& old(self).upcoming() == Step::End
                    &&& final(self).state() == if old(self).state() == State::Closed {
                        State::Closed
                    } else {
                        State::Terminal
                    }
                },
                Err(e) => {
                    &&& final(self).state() == State::Closed
                    &&& match e {
                        DecodeError::Io(_) => !old(self).steady(),
                        DecodeError::MalformedHeaders => old(self).upcoming() == Step::Malformed,
                        DecodeError::BoundaryNotFound => old(self).upcoming() == Step::Lost,
                        DecodeError::ProtocolViolation => false,
                    }
                },
            },
    {
        let sought = match self.state {
            State::Terminal | State::Closed => { return Ok(None); },
            State::AwaitFirstBoundary => self.seek_opening(),
            State::ReadingBody => self.seek_closing(),
            State::ReadingHeaders => Ok(true),
        };
        match sought {
            Err(e) => Err(e),
            Ok(false) => Ok(None),
            Ok(true) => match self.read_head() {
                Ok(part) => Ok(Some(part)),
                Err(e) => Err(e),
            },
        }
    }
}

impl<R: BodyRead> Session<R> {
    /// Shows the next bytes of the current part's body, reading from the
    /// request as far as it takes to show at least one. The bytes shown end
    /// before the delimiter that closes the part. None are shown when the
    /// delimiter comes next, and none outside a part.
    ///
    /// A body that ends without the delimiter is shown to its end; after that
    /// the call fails, and the session is closed.
    pub fn peek_body(&mut self) -> (r: Result<&[u8], DecodeError>)
        requires
            old(self).wf(),
        ensures
            final(self).wf(),
            final(self).stream() == old(self).stream(),
            final(self).boundary() == old(self).boundary(),
            final(self).steady() == old(self).steady(),
            final(self).offset() == old(self).offset(),
            match r {
                Ok(w) => {
                    &&& final(self).state() == old(self).state()
                    &&& final(self).granted() == w@.len()
                    &&& old(self).offset() + w@.len() <= body_end(
                        old(self).stream(),
                        old(self).boundary(),
                        old(self).offset(),
                    )
                    &&& w@ == old(self).stream().subrange(
                        old(self).offset(),
                        old(self).offset() + w@.len(),
                    )
                    &&& w@.len() == 0 <==> old(self).state() != State::ReadingBody || at_delimiter(
                        old(self).stream(),
                        old(self).boundary(),
                        old(self).offset(),
                    )
                },
                Err(e) => {
                    &&& final(self).state() == State::Closed
                    &&& old(self).state() == State::ReadingBody
                    &&& e matches DecodeError::BoundaryNotFound ==> {
                        &&& first_mark(
                            old(self).stream(),
                            old(self).offset(),
                            closing(old(self).boundary()),
                        ) is None
                        &&& old(self).offset() == old(self).stream().len()
                    }
                    &&& e is Io || e is BoundaryNotFound
                    &&& e is Io ==> !old(self).steady()
                },
            },
    {
        let ghost s = self.stream();
        let ghost delimiter = closing(self.boundary@);
        let ghost at = self.offset();
        let mut limit: usize = 0;
        if self.state == State::ReadingBody {
            self.granted = 0;
            loop
                invariant_except_break
                    self.wf(),
                    self.state == State::ReadingBody,
                    old(self).state() == State::ReadingBody,
                    self.granted == 0,
                    self.stream() == s,
                    s == old(self).stream(),
                    self.offset() == at,
                    at == old(self).offset(),
                    self.boundary == old(self).boundary,
                self.steady() == old(self).steady(),
                    delimiter == closing(self.boundary@),
                ensures
                    self.wf_fixed(),
                    self.state == State::ReadingBody,
                    self.granted == 0,
                    self.stream() == s,
                    self.offset() == at,
                    self.boundary == old(self).boundary,
                self.steady() == old(self).steady(),
                    limit <= self.cursor.window().len(),
                    clear(s, at, at + limit, delimiter),
                    first_mark(s, at, delimiter) matches Some((j, _)) ==> (limit == 0 <==> j == at),
                    first_mark(s, at, delimiter) is None ==> limit > 0,
                decreases self.cursor.fuel(),
            {
                let ended = self.cursor.is_ended();
                let w = self.cursor.buffered();
                let held: usize = w.len();
                let found = find_mark(w, 0, self.part_sep.as_slice(), self.part_term.as_slice());
                proof {
                    self.cursor.lemma_layout();
                    lemma_mark_in_window(s, at, w@, 0, delimiter);
                    if first_mark(s, at, delimiter) is Some {
                        lemma_first_mark_some(s, at, delimiter);
                    }
                }
                match found {
                    Some((i, _)) => {
                        limit = i;
                        break ;
                    },
                    None => {
                        let keep: usize = self.part_sep.len() - 1;
                        if ended {
                            if held == 0 {
                                self.close();
                                return Err(DecodeError::BoundaryNotFound);
                            }
                            limit = held;
                            break ;
                        } else if held > keep {
                            limit = held - keep;
                            break ;
                        }
                        match self.cursor.fill() {
                            Ok(_) => {},
                            Err(e) => {
                                self.close();
                                return Err(DecodeError::Io(e));
                            },
                        }
                    },
                }
            }
            self.granted = limit;
        }
        proof {
            self.cursor.lemma_layout();
            if first_mark(s, at, delimiter) is Some {
                lemma_first_mark_some(s, at, delimiter);
            }
        }
        let shown = slice_subrange(self.cursor.buffered(), 0, limit);
        assert(shown@ =~= s.subrange(at, at + limit));
        Ok(shown)
    }

    /// Passes over the first `n` of the bytes that the last `peek_body` showed.
    /// Asking for more than were shown is refused, and changes nothing.
    ///
    /// However much of a body is passed over, the next request for a part
    /// yields the same.
    pub fn consume_body(&mut self, n: usize) -> (r: Result<(), DecodeError>)
        requires
            old(self).wf(),
        ensures
            final(self).wf(),
            final(self).stream() == old(self).stream(),
            final(self).boundary() == old(self).boundary(),
            final(self).steady() == old(self).steady(),
            final(self).state() == old(self).state(),
            final(self).upcoming() == old(self).upcoming(),
            match r {
                Ok(_) => {
                    &&& n <= old(self).granted()
                    &&& final(self).offset() == old(self).offset() + n
                    &&& final(self).granted() == old(self).granted() - n
                },
                Err(e) => {
                    &&& n > old(self).granted()
                    &&& e is ProtocolViolation
                    &&& final(self).offset() == old(self).offset()
                    &&& final(self).granted() == old(self).granted()
                },
            },
    {
        if n > self.granted {
            return Err(DecodeError::ProtocolViolation);
        }
        proof {
            lemma_first_mark_skip(
                self.stream(),
                self.offset(),
                self.offset() + n,
                closing(self.boundary@),
            );
        }
        self.cursor.advance(n);
        self.granted = self.granted - n;
        Ok(())
    }
}

impl<R: BodyRead> Session<R> {
    /// The session stands within the stream.
    pub proof fn lemma_offset_in_stream(&self)
        requires
            self.wf(),
        ensures
            0 <= self.offset() <= self.stream().len(),
    {
        self.cursor.lemma_layout();
    }

    /// Appends what is left of the current part's body to `out` and stops
    /// before the delimiter that closes the part. Outside a part it does
    /// nothing.
    ///
    /// A body that ends without the delimiter is appended to its end; the call
    /// then fails, and the session is closed.
    pub fn read_body(&mut self, out: &mut Vec<u8>) -> (r: Result<(), DecodeError>)
        requires
            old(self).wf(),
        ensures
            final(self).wf(),
            final(self).stream() == old(self).stream(),
            final(self).boundary() == old(self).boundary(),
            final(self).steady() == old(self).steady(),
            old(self).state() != State::ReadingBody ==> {
                &&& r is Ok
                &&& final(out)@ == old(out)@
                &&& final(self).state() == old(self).state()
                &&& final(self).offset() == old(self).offset()
            },
            old(self).state() == State::ReadingBody ==> match r {
                Ok(_) => {
                    &&& first_mark(
                        old(self).stream(),
                        old(self).offset(),
                        closing(old(self).boundary()),
                    ) is Some
                    &&& final(self).state() == State::ReadingBody
                    &&& final(self).offset() == body_end(
                        old(self).stream(),
                        old(self).boundary(),
                        old(self).offset(),
                    )
                    &&& final(out)@ == old(out)@ + old(self).stream().subrange(
                        old(self).offset(),
                        final(self).offset(),
                    )
                },
                Err(e) => {
                    &&& final(self).state() == State::Closed
                    &&& e is Io || e is BoundaryNotFound
                    &&& e is Io ==> !old(self).steady()
                    &&& e is BoundaryNotFound ==> {
                        &&& first_mark(
                            old(self).stream(),
                            old(self).offset(),
                            closing(old(self).boundary()),
                        ) is None
                        &&& final(out)@ == old(out)@ + old(self).stream().subrange(
                            old(self).offset(),
                            old(self).stream().len() as int,
                        )
                    }
                },
            },
    {
        let ghost s = self.stream();
        let ghost b = self.boundary();
        let ghost start = self.offset();
        let ghost end = body_end(s, b, start);
        proof {
            self.lemma_offset_in_stream();
            lemma_body_end_bounds(s, b, start);
        }
        loop
            invariant
                self.wf(),
                self.stream() == s,
                s == old(self).stream(),
                self.boundary() == b,
                b == old(self).boundary(),
                self.steady() == old(self).steady(),
                start == old(self).offset(),
                self.state() == old(self).state(),
                0 <= start <= self.offset() <= end <= s.len(),
                end == body_end(s, b, start),
                first_mark(s, self.offset(), closing(b)) == first_mark(s, start, closing(b)),
                self.state() != State::ReadingBody ==> self.offset() == start,
                out@ == old(out)@ + s.subrange(start, self.offset()),
            decreases s.len() - self.offset(),
        {
            let ghost at = self.offset();
            let n: usize = match self.peek_body() {
                Ok(w) => {
                    append(out, w);
                    w.len()
                },
                Err(e) => {
                    proof {
                        if e is BoundaryNotFound {
                            assert(s.subrange(start, at) =~= s.subrange(start, s.len() as int));
                        }
                    }
                    return Err(e);
                },
            };
            if n == 0 {
                proof {
                    if at == start {
                        assert(out@ =~= old(out)@);
                    }
                }
                return Ok(());
            }
            proof {
                lemma_skip_within_body(s, b, at, at + n);
                assert(s.subrange(start, at) + s.subrange(at, at + n) =~= s.subrange(
                    start,
                    at + n,
                ));
            }
            match self.consume_body(n) {
                Ok(_) => {},
                Err(e) => {
                    return Err(e);
                },
            }
        }
    }
}

/// The body of a part ends at or after the place from which it is sought, and
/// within the stream.
pub proof fn lemma_body_end_bounds(s: Seq<u8>, boundary: Seq<u8>, offset: int)
    requires
        0 <= offset <= s.len(),
    ensures
        offset <= body_end(s, boundary, offset) <= s.len(),
        clear(s, offset, body_end(s, boundary, offset), closing(boundary)),
{
    let delimiter = closing(boundary);
    if first_mark(s, offset, delimiter) is Some {
        lemma_first_mark_some(s, offset, delimiter);
    } else {
        lemma_first_occurrence_none(s, offset, separator(delimiter));
        lemma_first_occurrence_none(s, offset, terminator(delimiter));
    }
}

/// However much of a part's body has been passed, the delimiter that closes it
/// is found at the same place: a search from `b` finds what a search from `a`
/// finds, for any two places `a <= b` of one body.
pub proof fn lemma_skip_within_body(s: Seq<u8>, boundary: Seq<u8>, a: int, b: int)
    requires
        0 <= a <= b <= body_end(s, boundary, a),
        a <= s.len(),
    ensures
        first_mark(s, b, closing(boundary)) == first_mark(s, a, closing(boundary)),
        body_end(s, boundary, b) == body_end(s, boundary, a),
        step(s, boundary, State::ReadingBody, b) == step(s, boundary, State::ReadingBody, a),
{
    lemma_body_end_bounds(s, boundary, a);
    lemma_first_mark_skip(s, a, b, closing(boundary));
}

} // verus!
