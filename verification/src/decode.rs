//! Decoding a whole body at once: every part with its body, and how the body
//! ends.

use vstd::prelude::*;
use crate::error::{DecodeError, SourceUnavailable};
use crate::head::{Part, PartView};
use crate::session::{
    body_end, lemma_body_end_bounds, step, Session, State, Step,
};
use crate::source::{BodyRead, HttpRequest};
use crate::wire::{closing, first_mark};

verus! {

/// A part together with the bytes of its body.
#[derive(Debug)]
pub struct Entry {
    pub part: Part,
    pub body: Vec<u8>,
}

/// An `Entry` as plain values.
pub struct EntryView {
    pub part: PartView,
    pub body: Seq<u8>,
}

impl View for Entry {
    type V = EntryView;

    open spec fn view(&self) -> EntryView {
        EntryView { part: self.part@, body: self.body@ }
    }
}

/// How a body ends.
#[derive(Clone, Copy, Debug, PartialEq, Eq, Structural)]
pub enum Outcome {
    /// With its terminator, or before decoding could start.
    Complete,
    /// Without a delimiter that had to come.
    Lost,
    /// In a malformed header block.
    Malformed,
}

/// What decoding a body gave: the parts that were read, in order, and the
/// failure that ended decoding, if one did. After a failure the last part may
/// be one whose body the failure cut short.
#[derive(Debug)]
pub struct Decoded {
    pub parts: Vec<Entry>,
    pub error: Option<DecodeError>,
}

/// The entries as plain values.
pub open spec fn views(parts: Seq<Entry>) -> Seq<EntryView> {
    parts.map_values(|e: Entry| e@)
}

/// How a body ended, given the failure that ended decoding, if any.
pub open spec fn outcome_of(error: Option<DecodeError>) -> Outcome {
    match error {
        Some(DecodeError::MalformedHeaders) => Outcome::Malformed,
        Some(_) => Outcome::Lost,
        None => Outcome::Complete,
    }
}

/// The parts that follow in the body `s` for a session in `state` at index
/// `offset`, and how the body ends. A part whose body no delimiter closes is
/// still given, with the rest of the stream for its body; the body is then
/// lost.
pub open spec fn parts_from(s: Seq<u8>, boundary: Seq<u8>, state: State, offset: int) -> (
    Seq<EntryView>,
    Outcome,
)
    decreases s.len() - offset,
{
    match step(s, boundary, state, offset) {
        Step::End => (Seq::empty(), Outcome::Complete),
        Step::Lost => (Seq::empty(), Outcome::Lost),
        Step::Malformed => (Seq::empty(), Outcome::Malformed),
        Step::Yield { part, body_at } => {
            let end = body_end(s, boundary, body_at);
            let entry = EntryView { part, body: s.subrange(body_at, end) };
            if first_mark(s, body_at, closing(boundary)) is None {
                (seq![entry], Outcome::Lost)
            } else if offset < body_at <= end <= s.len() {
                let rest = parts_from(s, boundary, State::ReadingBody, end);
                (seq![entry] + rest.0, rest.1)
            } else {
                // not reached: a body starts after the place the search began
                // at, and ends within the stream
                (seq![entry], Outcome::Lost)
            }
        },
    }
}

/// The parts of the body `s` that `boundary` delimits, and how the body ends.
pub open spec fn parse(boundary: Seq<u8>, s: Seq<u8>) -> (Seq<EntryView>, Outcome) {
    parts_from(s, boundary, State::AwaitFirstBoundary, 0)
}

/// `d` holds what the body `s` decodes to. Of a decoding that the body's
/// failure to deliver has cut short, this says nothing.
pub open spec fn decodes(d: Decoded, boundary: Seq<u8>, s: Seq<u8>) -> bool {
    !(d.error matches Some(DecodeError::Io(_))) ==> {
        &&& !(d.error matches Some(DecodeError::ProtocolViolation))
        &&& (views(d.parts@), outcome_of(d.error)) == parse(boundary, s)
    }
}

/// Chunking invariance: what a body decodes to depends on its bytes alone. Two
/// decodings of the same bytes with the same boundary, however the bytes came
/// in, give the same parts in the same order and end the same way, unless the
/// body failed to deliver in one of them.
pub proof fn lemma_chunking_invariance(a: Decoded, b: Decoded, boundary: Seq<u8>, s: Seq<u8>)
    requires
        decodes(a, boundary, s),
        decodes(b, boundary, s),
        !(a.error matches Some(DecodeError::Io(_))),
        !(b.error matches Some(DecodeError::Io(_))),
    ensures
        views(a.parts@) == views(b.parts@),
        outcome_of(a.error) == outcome_of(b.error),
{
}

/// Reads all parts that are left, each with its body.
pub fn read_all<R: BodyRead>(session: &mut Session<R>) -> (d: Decoded)
    requires
        old(session).wf(),
    ensures
        final(session).wf(),
        final(session).stream() == old(session).stream(),
        final(session).boundary() == old(session).boundary(),
        final(session).steady() == old(session).steady(),
        old(session).steady() ==> !(d.error matches Some(DecodeError::Io(_))),
        !(d.error matches Some(DecodeError::Io(_))) ==> {
            &&& !(d.error matches Some(DecodeError::ProtocolViolation))
            &&& (views(d.parts@), outcome_of(d.error)) == parts_from(
                old(session).stream(),
                old(session).boundary(),
                old(session).state(),
                old(session).offset(),
            )
        },
{
    let ghost s = session.stream();
    let ghost b = session.boundary();
    let ghost total = parts_from(s, b, session.state(), session.offset());
    let mut parts: Vec<Entry> = Vec::new();
    assert(views(parts@) + total.0 =~= total.0);
    loop
        invariant
            session.wf(),
            session.stream() == s,
            s == old(session).stream(),
            session.boundary() == b,
            b == old(session).boundary(),
            session.steady() == old(session).steady(),
            total == parts_from(
                old(session).stream(),
                old(session).boundary(),
                old(session).state(),
                old(session).offset(),
            ),
            total.0 == views(parts@) + parts_from(s, b, session.state(), session.offset()).0,
            total.1 == parts_from(s, b, session.state(), session.offset()).1,
        decreases s.len() - session.offset(),
    {
        let ghost before = views(parts@);
        proof {
            session.lemma_offset_in_stream();
        }
        match session.next_part() {
            Ok(None) => {
                assert(before + Seq::<EntryView>::empty() =~= before);
                return Decoded { parts, error: None };
            },
            Err(e) => {
                assert(before + Seq::<EntryView>::empty() =~= before);
                return Decoded { parts, error: Some(e) };
            },
            Ok(Some(part)) => {
                let ghost body_at = session.offset();
                proof {
                    session.lemma_offset_in_stream();
                    lemma_body_end_bounds(s, b, body_at);
                }
                let mut body: Vec<u8> = Vec::new();
                let got = session.read_body(&mut body);
                let entry = Entry { part, body };
                parts.push(entry);
                assert(views(parts@) =~= before.push(entry@));
                match got {
                    Ok(_) => {
                        assert(entry@.body =~= s.subrange(body_at, body_end(s, b, body_at)));
                        assert(total.0 =~= views(parts@) + parts_from(
                            s,
                            b,
                            session.state(),
                            session.offset(),
                        ).0);
                    },
                    Err(e) => {
                        proof {
                            if e is BoundaryNotFound {
                                assert(entry@.body =~= s.subrange(body_at, s.len() as int));
                                assert(total.0 =~= views(parts@));
                            }
                        }
                        return Decoded { parts, error: Some(e) };
                    },
                }
            },
        }
    }
}

/// Decodes the body of `source`: all its parts, each with its body. A request
/// that announces no boundary is handed back.
pub fn decode<S: HttpRequest>(source: S) -> (r: Result<Decoded, SourceUnavailable<S>>)
    ensures
        match r {
            Ok(d) => {
                &&& source.boundary() matches Some(boundary) && decodes(
                    d,
                    boundary,
                    source.content(),
                )
                &&& source.steady() ==> !(d.error matches Some(DecodeError::Io(_)))
            },
            Err(back) => source.boundary() is None && back.source == source,
        },
{
    match Session::from_source(source) {
        Err(back) => Err(back),
        Ok(mut session) => Ok(read_all(&mut session)),
    }
}

} // verus!
