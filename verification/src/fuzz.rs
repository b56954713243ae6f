//! The entry point for fuzzing: decodes arbitrary bytes as a body.

use vstd::prelude::*;
use vstd::pervasive::unreached;
use vstd::string::StringSliceAdditionalSpecFns;
use crate::decode::{decode, outcome_of, parse, views, Decoded, EntryView};
use crate::encode::{encode, fits, lemma_round_trip};
use crate::error::DecodeError;
use crate::mock::ServerRequest;
use crate::source::HttpRequest;
use crate::text::free_of;
use crate::wire::CR;

verus! {

/// The boundary that the bytes under test are decoded with.
pub const BOUNDARY: &'static str = "--12--34--56";

/// Decodes `data` as a body that `BOUNDARY` delimits, piece by piece in pieces
/// of random size, and reads every part to its end. Data shorter than the
/// boundary has no parts and is not looked at.
pub fn do_fuzz(data: &[u8]) -> (d: Decoded)
    ensures
        (views(d.parts@), outcome_of(d.error)) == parse(BOUNDARY.spec_bytes(), data@),
        d.error is None || d.error == Some(DecodeError::MalformedHeaders) || d.error == Some(
            DecodeError::BoundaryNotFound,
        ),
{
    if data.len() < BOUNDARY.len() {
        let d = Decoded { parts: Vec::new(), error: None };
        assert(views(d.parts@) =~= Seq::<EntryView>::empty());
        return d;
    }
    let req = ServerRequest::new(data, BOUNDARY);
    match decode(req) {
        Ok(d) => d,
        Err(_) => unreached(),
    }
}

/// The boundary holds no carriage return.
pub proof fn lemma_boundary_plain()
    ensures
        free_of(BOUNDARY.spec_bytes(), CR),
{
    reveal_strlit("--12--34--56");
    vstd::string::is_ascii_spec_bytes(BOUNDARY);
}

/// Lossless round trip through the entry point: what `do_fuzz` returns for
/// the encoding of parts with `BOUNDARY` is those parts, in their order, and
/// no failure. This holds of parts that each fit a body: see `fits`. `d` is
/// what `do_fuzz` returned.
pub proof fn lemma_fuzz_round_trip(parts: Seq<EntryView>, d: Decoded)
    requires
        forall|i: int| 0 <= i < parts.len() ==> fits(BOUNDARY.spec_bytes(), #[trigger] parts[i]),
        (views(d.parts@), outcome_of(d.error)) == parse(
            BOUNDARY.spec_bytes(),
            encode(BOUNDARY.spec_bytes(), parts),
        ),
        d.error is None || d.error == Some(DecodeError::MalformedHeaders) || d.error == Some(
            DecodeError::BoundaryNotFound,
        ),
    ensures
        views(d.parts@) == parts,
        d.error is None,
{
    lemma_boundary_plain();
    lemma_round_trip(BOUNDARY.spec_bytes(), parts);
}

} // verus!
