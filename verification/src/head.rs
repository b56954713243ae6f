//! The header block of a part: its lines, and what they say of the part.

use vstd::prelude::*;
use vstd::slice::{slice_subrange, slice_to_vec};
use crate::text::{
    eq_ignore_case, index_of, position, same_word, trim, trimmed, unquote, unquoted, COLON,
    EQUALS, QUOTE, SEMICOLON,
};
use crate::wire::{find, first_occurrence, lemma_first_occurrence_some, CR, LF};

verus! {

/// What the header block of a part says of it.
#[derive(Debug)]
pub struct Part {
    /// The name of the form field.
    pub name: Vec<u8>,
    /// The name of the uploaded file, if the part gives one.
    pub filename: Option<Vec<u8>>,
    /// The content type that the part declares, if it declares one.
    pub content_type: Option<Vec<u8>>,
}

/// A `Part` as plain values.
pub struct PartView {
    pub name: Seq<u8>,
    pub filename: Option<Seq<u8>>,
    pub content_type: Option<Seq<u8>>,
}

impl View for Part {
    type V = PartView;

    open spec fn view(&self) -> PartView {
        PartView {
            name: self.name@,
            filename: match self.filename {
                Some(f) => Some(f@),
                None => None,
            },
            content_type: match self.content_type {
                Some(t) => Some(t@),
                None => None,
            },
        }
    }
}

/// `content-disposition`
pub open spec fn disposition_key() -> Seq<u8> {
    seq![
        99, 111, 110, 116, 101, 110, 116, 45, 100, 105, 115, 112, 111, 115, 105,
        116, 105, 111, 110,
    ]
}

/// `content-type`
pub open spec fn type_key() -> Seq<u8> {
    seq![99, 111, 110, 116, 101, 110, 116, 45, 116, 121, 112, 101]
}

/// `name`
pub open spec fn name_key() -> Seq<u8> {
    seq![110, 97, 109, 101]
}

/// `filename`
pub open spec fn filename_key() -> Seq<u8> {
    seq![102, 105, 108, 101, 110, 97, 109, 101]
}

/// Where the line that starts at `from` ends: at its line break, or at the end
/// of the text.
pub open spec fn line_end(text: Seq<u8>, from: int) -> int {
    match first_occurrence(text, from, seq![CR, LF]) {
        Some(k) => k,
        None => text.len() as int,
    }
}

/// The value of the first line, at or after the line that starts at `from`,
/// whose name is `key` in any case. A line's name is what stands before its
/// first colon, its value what stands after it, without the blanks around it.
pub open spec fn field(text: Seq<u8>, from: int, key: Seq<u8>) -> Option<Seq<u8>>
    decreases text.len() - from,
{
    if from < 0 || from > text.len() {
        None
    } else {
        let end = line_end(text, from);
        let line = text.subrange(from, end);
        let colon = index_of(line, COLON, 0);
        if colon < line.len() && same_word(line.take(colon), key) {
            Some(trim(line.skip(colon + 1)))
        } else if from <= end && end + 2 <= text.len() {
            field(text, end + 2, key)
        } else {
            None
        }
    }
}

/// Where the segment that starts at `from` ends: at the first semicolon that
/// stands outside double quotes, or at the end of the value. `quoted` says
/// whether `from` stands inside quotes.
pub open spec fn segment_end(v: Seq<u8>, from: int, quoted: bool) -> int
    decreases v.len() - from,
{
    if from < 0 || from >= v.len() {
        v.len() as int
    } else if v[from] == QUOTE {
        segment_end(v, from + 1, !quoted)
    } else if v[from] == SEMICOLON && !quoted {
        from
    } else {
        segment_end(v, from + 1, quoted)
    }
}

/// The value of the first parameter, at or after the segment that starts at
/// `from`, whose name is `key` in any case. A parameter is a segment with an
/// equals sign: its name stands before the first one and its value after it,
/// both without the blanks around them, the value without one pair of quotes.
pub open spec fn param(v: Seq<u8>, from: int, key: Seq<u8>) -> Option<Seq<u8>>
    decreases v.len() - from,
{
    if from < 0 || from > v.len() {
        None
    } else {
        let end = segment_end(v, from, false);
        let seg = v.subrange(from, end);
        let eq = index_of(seg, EQUALS, 0);
        if eq < seg.len() && same_word(trim(seg.take(eq)), key) {
            Some(unquote(trim(seg.skip(eq + 1))))
        } else if from <= end < v.len() {
            param(v, end + 1, key)
        } else {
            None
        }
    }
}

/// What a header block says of its part, if it names the part's field: the
/// parameters `name` and `filename` of its `Content-Disposition` line, after
/// the disposition itself, and the value of its `Content-Type` line.
pub open spec fn head_of(text: Seq<u8>) -> Option<PartView> {
    match field(text, 0, disposition_key()) {
        None => None,
        Some(v) => {
            let rest = segment_end(v, 0, false) + 1;
            match param(v, rest, name_key()) {
                None => None,
                Some(name) => Some(
                    PartView {
                        name,
                        filename: param(v, rest, filename_key()),
                        content_type: field(text, 0, type_key()),
                    },
                ),
            }
        },
    }
}

/// A stretch without quotes, and outside quotes without semicolons, does not
/// end a segment.
pub proof fn lemma_segment_end_run(v: Seq<u8>, from: int, i: int, quoted: bool)
    requires
        0 <= from <= i <= v.len(),
        forall|j: int| from <= j < i ==> v[j] != QUOTE && (quoted || v[j] != SEMICOLON),
    ensures
        segment_end(v, from, quoted) == segment_end(v, i, quoted),
    decreases i - from,
{
    if from < i {
        lemma_segment_end_run(v, from + 1, i, quoted);
    }
}

/// A line ends at or after its start, within the text.
pub proof fn lemma_line_end_bounds(text: Seq<u8>, from: int)
    requires
        0 <= from <= text.len(),
    ensures
        from <= line_end(text, from) <= text.len(),
        line_end(text, from) < text.len() ==> line_end(text, from) + 2 <= text.len(),
{
    if first_occurrence(text, from, seq![CR, LF]) is Some {
        lemma_first_occurrence_some(text, from, seq![CR, LF]);
    }
}

/// Where the line that starts at `from` ends.
pub fn end_of_line(text: &[u8], from: usize) -> (r: usize)
    requires
        from <= text@.len(),
    ensures
        r == line_end(text@, from as int),
        from <= r <= text@.len(),
        r < text@.len() ==> r + 2 <= text@.len(),
{
    proof {
        lemma_line_end_bounds(text@, from as int);
    }
    let brk: [u8; 2] = [CR, LF];
    assert(brk@ =~= seq![CR, LF]);
    match find(text, from, brk.as_slice()) {
        Some(k) => k,
        None => text.len(),
    }
}

/// The value of the first line whose name is `key` in any case.
pub fn find_field<'a>(text: &'a [u8], key: &[u8]) -> (r: Option<&'a [u8]>)
    ensures
        r is Some <==> field(text@, 0, key@) is Some,
        r matches Some(v) ==> field(text@, 0, key@) == Some(v@),
{
    let mut from: usize = 0;
    loop
        invariant
            from <= text@.len(),
            field(text@, 0, key@) == field(text@, from as int, key@),
        decreases text@.len() - from,
    {
        let end = end_of_line(text, from);
        let line = slice_subrange(text, from, end);
        let colon = position(line, COLON, 0);
        if colon < line.len() {
            let name = slice_subrange(line, 0, colon);
            if eq_ignore_case(name, key) {
                let rest = slice_subrange(line, colon + 1, line.len());
                return Some(trimmed(rest));
            }
        }
        if end >= text.len() {
            return None;
        }
        from = end + 2;
    }
}

/// Where the segment that starts at `from` ends.
pub fn end_of_segment(v: &[u8], from: usize) -> (r: usize)
    requires
        from <= v@.len(),
    ensures
        r == segment_end(v@, from as int, false),
        from <= r <= v@.len(),
{
    let mut i: usize = from;
    let mut quoted: bool = false;
    while i < v.len() && (v[i] != SEMICOLON || quoted)
        invariant
            from <= i <= v@.len(),
            segment_end(v@, from as int, false) == segment_end(v@, i as int, quoted),
        decreases v@.len() - i,
    {
        if v[i] == QUOTE {
            quoted = !quoted;
        }
        i += 1;
    }
    i
}

/// The value of the first parameter, at or after the segment that starts at
/// `from`, whose name is `key` in any case.
pub fn find_param<'a>(v: &'a [u8], from: usize, key: &[u8]) -> (r: Option<&'a [u8]>)
    ensures
        r is Some <==> param(v@, from as int, key@) is Some,
        r matches Some(x) ==> param(v@, from as int, key@) == Some(x@),
{
    if from > v.len() {
        return None;
    }
    let mut at: usize = from;
    loop
        invariant
            at <= v@.len(),
            param(v@, from as int, key@) == param(v@, at as int, key@),
        decreases v@.len() - at,
    {
        let end = end_of_segment(v, at);
        let seg = slice_subrange(v, at, end);
        let eq = position(seg, EQUALS, 0);
        if eq < seg.len() {
            let name = trimmed(slice_subrange(seg, 0, eq));
            if eq_ignore_case(name, key) {
                let rest = slice_subrange(seg, eq + 1, seg.len());
                return Some(unquoted(trimmed(rest)));
            }
        }
        if end >= v.len() {
            return None;
        }
        at = end + 1;
    }
}

/// Reads a header block. `None` means that the block does not name the part's
/// field.
pub fn parse_head(text: &[u8]) -> (r: Option<Part>)
    ensures
        r is Some <==> head_of(text@) is Some,
        r matches Some(p) ==> head_of(text@) == Some(p@),
{
    let disposition: [u8; 19] = [
        99, 111, 110, 116, 101, 110, 116, 45, 100, 105, 115, 112, 111, 115, 105,
        116, 105, 111, 110,
    ];
    let kind: [u8; 12] = [99, 111, 110, 116, 101, 110, 116, 45, 116, 121, 112, 101];
    let name: [u8; 4] = [110, 97, 109, 101];
    let filename: [u8; 8] = [102, 105, 108, 101, 110, 97, 109, 101];
    assert(disposition@ =~= disposition_key());
    assert(kind@ =~= type_key());
    assert(name@ =~= name_key());
    assert(filename@ =~= filename_key());
    match find_field(text, disposition.as_slice()) {
        None => None,
        Some(v) => {
            let first = end_of_segment(v, 0);
            if first >= v.len() {
                return None;
            }
            let rest: usize = first + 1;
            match find_param(v, rest, name.as_slice()) {
                None => None,
                Some(n) => {
                    let file = match find_param(v, rest, filename.as_slice()) {
                        Some(f) => Some(slice_to_vec(f)),
                        None => None,
                    };
                    let declared = match find_field(text, kind.as_slice()) {
                        Some(t) => Some(slice_to_vec(t)),
                        None => None,
                    };
                    Some(Part { name: slice_to_vec(n), filename: file, content_type: declared })
                },
            }
        },
    }
}

} // verus!
