//! A reference encoder, and the proof that decoding undoes it.

use vstd::prelude::*;
use crate::decode::{parse, parts_from, views, Entry, EntryView, Outcome};
use crate::head::{
    disposition_key, field, filename_key, head_of, lemma_segment_end_run, line_end, name_key,
    param, segment_end, type_key, Part, PartView,
};
use crate::session::{body_end, head_block, seek, step, Sought, State, Step, MAX_HEAD};
use crate::text::{
    append, free_of, is_trimmed, lemma_index_of_is, lemma_trim_after_space,
    lemma_trim_of_trimmed, same_word, unquote, COLON, EQUALS, QUOTE, SEMICOLON, SPACE,
};
use crate::wire::{
    blank_line, clear, closing, ending, first_mark, first_occurrence,
    lemma_first_mark_is, lemma_first_mark_skip, lemma_first_occurrence_absent,
    lemma_first_occurrence_is, lemma_first_occurrence_none, lemma_occurs_byte,
    lemma_occurs_in_window, lemma_occurs_intro, no_occurrence, occurs_at, opening, Mark, CR, DASH,
    LF,
};

verus! {

/// `Content-Disposition: `
pub open spec fn line_prefix() -> Seq<u8> {
    seq![67, 111, 110, 116, 101, 110, 116, 45, 68, 105, 115, 112, 111, 115, 105, 116, 105, 111, 110, 58, 32]
}

/// `form-data; name="`
pub open spec fn value_prefix() -> Seq<u8> {
    seq![102, 111, 114, 109, 45, 100, 97, 116, 97, 59, 32, 110, 97, 109, 101, 61, 34]
}

/// `; filename="`
pub open spec fn filename_prefix() -> Seq<u8> {
    seq![59, 32, 102, 105, 108, 101, 110, 97, 109, 101, 61, 34]
}

/// A line break and `Content-Type: `
pub open spec fn type_prefix() -> Seq<u8> {
    seq![13, 10, 67, 111, 110, 116, 101, 110, 116, 45, 84, 121, 112, 101, 58, 32]
}

/// The parameter that gives a part's file name, if it has one.
pub open spec fn file_param(p: PartView) -> Seq<u8> {
    match p.filename {
        Some(f) => filename_prefix() + f + seq![QUOTE],
        None => Seq::empty(),
    }
}

/// The value of a part's `Content-Disposition` line.
pub open spec fn disposition_value(p: PartView) -> Seq<u8> {
    value_prefix() + p.name + seq![QUOTE] + file_param(p)
}

/// A part's `Content-Disposition` line.
pub open spec fn disposition_line(p: PartView) -> Seq<u8> {
    line_prefix() + disposition_value(p)
}

/// A part's `Content-Type` line, if it declares a type, with the line break
/// before it.
pub open spec fn type_line(p: PartView) -> Seq<u8> {
    match p.content_type {
        Some(t) => type_prefix() + t,
        None => Seq::empty(),
    }
}

/// The header block of a part as the encoder writes it, without the blank line
/// that ends it.
pub open spec fn head_text(p: PartView) -> Seq<u8> {
    disposition_line(p) + type_line(p)
}

/// What a part's names must be like for a header block to carry them: no
/// double quote in the field name or the file name, no carriage return in
/// any of them, and no blank at either end of the content type.
pub open spec fn writable(p: PartView) -> bool {
    &&& free_of(p.name, QUOTE)
    &&& free_of(p.name, CR)
    &&& p.filename matches Some(f) ==> free_of(f, QUOTE) && free_of(f, CR)
    &&& p.content_type matches Some(t) ==> free_of(t, CR) && is_trimmed(t)
}

/// The parameters of a written `Content-Disposition` value are read back as
/// they were written.
pub proof fn lemma_params_read_back(p: PartView)
    requires
        writable(p),
    ensures
        segment_end(disposition_value(p), 0, false) == 9,
        param(disposition_value(p), 10, name_key()) == Some(p.name),
        param(disposition_value(p), 10, filename_key()) == p.filename,
{
    let v = disposition_value(p);
    let n = p.name.len() as int;
    let e = 18 + n;
    assert(value_prefix().len() == 17);
    // the disposition itself
    lemma_segment_end_run(v, 0, 9, false);
    assert(v[9] == SEMICOLON);
    // the segment with the field name
    lemma_segment_end_run(v, 10, 16, false);
    assert(v[16] == QUOTE);
    assert(segment_end(v, 16, false) == segment_end(v, 17, true));
    assert forall|j: int| 17 <= j < 17 + n implies v[j] != QUOTE by {
        assert(v[j] == p.name[j - 17]);
    }
    lemma_segment_end_run(v, 17, 17 + n, true);
    assert(v[17 + n] == QUOTE);
    assert(segment_end(v, 17 + n, true) == segment_end(v, e, false));
    assert(e < v.len() ==> v[e] == SEMICOLON) by {
        if p.filename is Some {
            assert(v[e] == filename_prefix()[0]);
        }
    }
    assert(segment_end(v, e, false) == e);
    assert(segment_end(v, 10, false) == e);
    let seg = v.subrange(10, e);
    lemma_index_of_is(seg, EQUALS, 0, 5);
    assert(seg.take(5) =~= seq![SPACE] + name_key());
    lemma_trim_after_space(name_key());
    let quoted = seq![QUOTE] + p.name + seq![QUOTE];
    assert(seg.skip(6) =~= quoted);
    lemma_trim_of_trimmed(quoted);
    assert(unquote(quoted) =~= p.name);
    assert(param(v, 10, name_key()) == Some(p.name));
    // the segment with the file name
    assert(!same_word(name_key(), filename_key()));
    match p.filename {
        None => {
            assert(e == v.len());
            assert(param(v, 10, filename_key()) == p.filename);
        },
        Some(f) => {
            let m = f.len() as int;
            assert(filename_prefix().len() == 12);
            assert(v.len() == e + 13 + m);
            assert forall|j: int| e + 1 <= j < e + 11 implies v[j] != QUOTE && v[j] != SEMICOLON by {
                assert(v[j] == filename_prefix()[j - e]);
            }
            lemma_segment_end_run(v, e + 1, e + 11, false);
            assert(v[e + 11] == QUOTE) by {
                assert(v[e + 11] == filename_prefix()[11]);
            }
            assert(segment_end(v, e + 11, false) == segment_end(v, e + 12, true));
            assert forall|j: int| e + 12 <= j < e + 12 + m implies v[j] != QUOTE by {
                assert(v[j] == f[j - e - 12]);
            }
            lemma_segment_end_run(v, e + 12, e + 12 + m, true);
            assert(v[e + 12 + m] == QUOTE);
            assert(segment_end(v, e + 12 + m, true) == segment_end(v, e + 13 + m, false));
            assert(segment_end(v, e + 1, false) == v.len());
            let seg2 = v.subrange(e + 1, v.len() as int);
            assert forall|j: int| 0 <= j < 9 implies seg2[j] != EQUALS by {
                assert(seg2[j] == filename_prefix()[j + 1]);
            }
            assert(seg2[9] == EQUALS) by {
                assert(seg2[9] == filename_prefix()[10]);
            }
            lemma_index_of_is(seg2, EQUALS, 0, 9);
            assert(seg2.take(9) =~= seq![SPACE] + filename_key()) by {
                assert forall|j: int| 0 <= j < 9 implies seg2.take(9)[j] == (seq![SPACE]
                    + filename_key())[j] by {
                    assert(seg2[j] == filename_prefix()[j + 1]);
                }
            }
            lemma_trim_after_space(filename_key());
            let quoted2 = seq![QUOTE] + f + seq![QUOTE];
            assert(seg2.skip(10) =~= quoted2) by {
                assert(seg2[10] == filename_prefix()[11]);
            }
            lemma_trim_of_trimmed(quoted2);
            assert(unquote(quoted2) =~= f);
            assert(param(v, e + 1, filename_key()) == Some(f));
            assert(param(v, 10, filename_key()) == p.filename);
        },
    }
}

/// A written `Content-Disposition` line holds no carriage return.
pub proof fn lemma_disposition_line_plain(p: PartView)
    requires
        writable(p),
    ensures
        free_of(disposition_line(p), CR),
        disposition_line(p).len() >= 39,
{
    let l = disposition_line(p);
    let n = p.name.len() as int;
    assert(line_prefix().len() == 21);
    assert(value_prefix().len() == 17);
    assert(filename_prefix().len() == 12);
    assert forall|j: int| 0 <= j < l.len() implies l[j] != CR by {
        if j < 21 {
            assert(l[j] == line_prefix()[j]);
        } else if j < 38 {
            assert(l[j] == value_prefix()[j - 21]);
        } else if j < 38 + n {
            assert(l[j] == p.name[j - 38]);
        } else if j == 38 + n {
            assert(l[j] == QUOTE);
        } else {
            let f = p.filename->0;
            if j < 51 + n {
                assert(l[j] == filename_prefix()[j - 39 - n]);
            } else if j < 51 + n + f.len() {
                assert(l[j] == f[j - 51 - n]);
            } else {
                assert(l[j] == QUOTE);
            }
        }
    }
}

/// No line break stands in a stretch without carriage returns.
pub proof fn lemma_no_break_without_cr(s: Seq<u8>, a: int, b: int)
    requires
        0 <= a,
        forall|j: int| a <= j < b && j < s.len() ==> s[j] != CR,
    ensures
        no_occurrence(s, a, b, seq![CR, LF]),
{
    assert forall|j: int| a <= j < b implies !occurs_at(s, j, seq![CR, LF]) by {
        if occurs_at(s, j, seq![CR, LF]) {
            lemma_occurs_byte(s, j, seq![CR, LF], 0);
        }
    }
}

/// The lines of a written header block are read back as they were written.
pub proof fn lemma_fields_read_back(p: PartView)
    requires
        writable(p),
    ensures
        field(head_text(p), 0, disposition_key()) == Some(disposition_value(p)),
        field(head_text(p), 0, type_key()) == p.content_type,
{
    let h = head_text(p);
    let l = disposition_line(p);
    let v = disposition_value(p);
    let brk = seq![CR, LF];
    let ll = l.len() as int;
    lemma_disposition_line_plain(p);
    assert(line_prefix().len() == 21);
    assert(type_prefix().len() == 16);
    assert(value_prefix().len() == 17);
    assert forall|j: int| 0 <= j < l.len() implies h[j] == l[j] by {}
    // the first line ends where the disposition line ends
    lemma_no_break_without_cr(h, 0, l.len() as int);
    match p.content_type {
        Some(t) => {
            assert(h.subrange(ll, ll + 2) =~= brk) by {
                assert(h[ll] == type_prefix()[0]);
                assert(h[ll + 1] == type_prefix()[1]);
            }
            lemma_occurs_intro(h, ll, brk);
            lemma_first_occurrence_is(h, 0, brk, ll);
        },
        None => {
            assert(h =~= l);
            lemma_first_occurrence_absent(h, 0, brk);
        },
    }
    assert(line_end(h, 0) == l.len());
    assert(h.subrange(0, l.len() as int) =~= l);
    assert forall|j: int| 0 <= j < 19 implies l[j] != COLON by {
        assert(l[j] == line_prefix()[j]);
    }
    assert(l[19] == COLON) by {
        assert(l[19] == line_prefix()[19]);
    }
    lemma_index_of_is(l, COLON, 0, 19);
    assert(same_word(l.take(19), disposition_key())) by {
        assert forall|j: int| 0 <= j < 19 implies l.take(19)[j] == line_prefix()[j] by {
            assert(l[j] == line_prefix()[j]);
        }
    }
    assert(l.skip(20) =~= seq![SPACE] + v) by {
        assert(l[20] == line_prefix()[20]);
    }
    assert(is_trimmed(v)) by {
        assert(v[0] == value_prefix()[0]);
        let last = v[v.len() - 1];
        assert(last == QUOTE);
    }
    lemma_trim_after_space(v);
    assert(field(h, 0, disposition_key()) == Some(v));
    // the line with the content type
    assert(!same_word(l.take(19), type_key()));
    match p.content_type {
        Some(t) => {
            let at = ll + 2;
            assert forall|j: int| at <= j < h.len() implies h[j] != CR by {
                if j < ll + 16 {
                    assert(h[j] == type_prefix()[j - ll]);
                } else {
                    assert(h[j] == t[j - ll - 16]);
                }
            }
            lemma_no_break_without_cr(h, at, h.len() as int);
            lemma_first_occurrence_absent(h, at, brk);
            assert(line_end(h, at) == h.len());
            let line = h.subrange(at, h.len() as int);
            assert forall|j: int| 0 <= j < 14 implies line[j] == type_prefix()[j + 2] by {}
            lemma_index_of_is(line, COLON, 0, 12);
            assert(same_word(line.take(12), type_key())) by {
                assert forall|j: int| 0 <= j < 12 implies line.take(12)[j] == type_prefix()[j
                    + 2] by {
                    assert(line[j] == type_prefix()[j + 2]);
                }
            }
            assert(line.skip(13) =~= seq![SPACE] + t) by {
                assert(line[13] == type_prefix()[15]);
            }
            lemma_trim_after_space(t);
            assert(field(h, at, type_key()) == Some(t));
            assert(field(h, 0, type_key()) == p.content_type);
        },
        None => {
            assert(field(h, 0, type_key()) == p.content_type);
        },
    }
}

/// A written header block is read back as the part it was written for.
pub proof fn lemma_head_reads_back(p: PartView)
    requires
        writable(p),
    ensures
        head_of(head_text(p)) == Some(p),
{
    lemma_fields_read_back(p);
    lemma_params_read_back(p);
}

/// What stands after a delimiter in an encoded body, from part `i` on: for
/// each part a line break, its header block, a blank line, its body and the
/// closing delimiter; after the last one `--`.
pub open spec fn encode_from(boundary: Seq<u8>, parts: Seq<EntryView>, i: int) -> Seq<u8>
    decreases parts.len() - i,
{
    if i < 0 || i >= parts.len() {
        seq![DASH, DASH]
    } else {
        seq![CR, LF] + head_text(parts[i].part) + blank_line() + parts[i].body + closing(boundary)
            + encode_from(boundary, parts, i + 1)
    }
}

/// The body that carries `parts`, delimited by `boundary`.
pub open spec fn encode(boundary: Seq<u8>, parts: Seq<EntryView>) -> Seq<u8> {
    opening(boundary) + encode_from(boundary, parts, 0)
}

/// An entry that a body delimited by `boundary` can carry: its names can be
/// written, its header block is within the bound, and its body does not hold
/// the closing delimiter.
pub open spec fn fits(boundary: Seq<u8>, e: EntryView) -> bool {
    &&& writable(e.part)
    &&& head_text(e.part).len() + 6 <= MAX_HEAD
    &&& first_occurrence(e.body, 0, closing(boundary)) is None
}

/// Parts that a body delimited by `boundary` can carry: the boundary holds no
/// carriage return, and each entry fits.
pub open spec fn encodable(boundary: Seq<u8>, parts: Seq<EntryView>) -> bool {
    &&& free_of(boundary, CR)
    &&& forall|i: int| 0 <= i < parts.len() ==> fits(boundary, #[trigger] parts[i])
}

/// How the delimiter before part `i` ends: as a separator if there is such a
/// part, else as a terminator.
pub open spec fn mark_before(parts: Seq<EntryView>, i: int) -> Mark {
    if 0 <= i < parts.len() {
        Mark::Separator
    } else {
        Mark::Terminator
    }
}

/// What is encoded from part `i` on starts with the ending of the delimiter
/// before it.
pub proof fn lemma_encode_from_starts(boundary: Seq<u8>, parts: Seq<EntryView>, i: int)
    ensures
        encode_from(boundary, parts, i).len() >= 2,
        encode_from(boundary, parts, i).take(2) == ending(mark_before(parts, i)),
{
    assert(encode_from(boundary, parts, i).take(2) =~= ending(mark_before(parts, i)));
}

/// In a written header block a carriage return stands only where the line
/// with the content type begins.
pub proof fn lemma_head_text_breaks(p: PartView, k: int)
    requires
        writable(p),
        0 <= k < head_text(p).len(),
        head_text(p)[k] == CR,
    ensures
        p.content_type is Some,
        k == disposition_line(p).len(),
        k + 2 < head_text(p).len(),
        head_text(p)[k + 2] != CR,
{
    let h = head_text(p);
    let l = disposition_line(p);
    let ll = l.len() as int;
    lemma_disposition_line_plain(p);
    assert(type_prefix().len() == 16);
    if k < ll {
        assert(h[k] == l[k]);
    } else {
        let t = p.content_type->0;
        if k < ll + 16 {
            assert(h[k] == type_prefix()[k - ll]);
            assert(h[ll + 2] == type_prefix()[2]);
        } else {
            assert(h[k] == t[k - ll - 16]);
        }
    }
}

/// A written header block, between the line break that ends the separator and
/// its blank line, is read back whole.
pub proof fn lemma_head_block_reads_back(s: Seq<u8>, q: int, p: PartView)
    requires
        writable(p),
        head_text(p).len() + 6 <= MAX_HEAD,
        0 <= q,
        q + head_text(p).len() + 6 <= s.len(),
        s.subrange(q, q + head_text(p).len() + 6) == seq![CR, LF] + head_text(p) + blank_line(),
    ensures
        head_block(s, q) == Some((head_text(p), q + head_text(p).len() + 6)),
{
    let h = head_text(p);
    let n = h.len() as int;
    let x = seq![CR, LF] + h + blank_line();
    let e = q + 2 + n;
    lemma_disposition_line_plain(p);
    assert(line_prefix().len() == 21);
    assert forall|r: int| 0 <= r < x.len() implies s[q + r] == x[r] by {
        assert(s.subrange(q, q + n + 6)[r] == s[q + r]);
    }
    assert(s.subrange(e, e + 4) =~= blank_line()) by {
        assert forall|r: int| 0 <= r < 4 implies s.subrange(e, e + 4)[r] == blank_line()[r] by {
            assert(s[q + (2 + n + r)] == x[2 + n + r]);
        }
    }
    lemma_occurs_intro(s, e, blank_line());
    assert forall|j: int| q <= j < e implies !occurs_at(s, j, blank_line()) by {
        if occurs_at(s, j, blank_line()) {
            lemma_occurs_byte(s, j, blank_line(), 0);
            lemma_occurs_byte(s, j, blank_line(), 2);
            let r = j - q;
            assert(s[q + r] == x[r]);
            assert(s[q + (r + 2)] == x[r + 2]);
            if r == 0 {
                assert(x[2] == h[0]);
                assert(h[0] == line_prefix()[0]);
            } else if r == 1 {
            } else {
                assert(x[r] == h[r - 2]);
                lemma_head_text_breaks(p, r - 2);
                assert(x[r + 2] == h[r]);
            }
        }
    }
    lemma_first_occurrence_is(s, q, blank_line(), e);
    assert(s.subrange(q + 2, e) =~= h) by {
        assert forall|r: int| 0 <= r < n implies s.subrange(q + 2, e)[r] == h[r] by {
            assert(s[q + (r + 2)] == x[r + 2]);
        }
    }
}

/// A written body, with the closing delimiter and its ending after it, is
/// read back whole: the first mark stands where the body ends.
pub proof fn lemma_body_reads_back(s: Seq<u8>, a: int, body: Seq<u8>, boundary: Seq<u8>, m: Mark)
    requires
        0 <= a,
        free_of(boundary, CR),
        first_occurrence(body, 0, closing(boundary)) is None,
        a + body.len() + closing(boundary).len() + 2 <= s.len(),
        s.subrange(a, a + body.len() + closing(boundary).len() + 2) == body + closing(boundary)
            + ending(m),
    ensures
        first_mark(s, a, closing(boundary)) == Some((a + body.len(), m)),
        clear(s, a, a + body.len(), closing(boundary)),
{
    let c = closing(boundary);
    let n = body.len() as int;
    let x = body + c + ending(m);
    assert forall|r: int| 0 <= r < x.len() implies s[a + r] == x[r] by {
        assert(s.subrange(a, a + x.len())[r] == s[a + r]);
    }
    lemma_first_occurrence_none(body, 0, c);
    assert(s.subrange(a, a + n) =~= body) by {
        assert forall|r: int| 0 <= r < n implies s.subrange(a, a + n)[r] == body[r] by {
            assert(s[a + r] == x[r]);
        }
    }
    assert forall|j: int| a <= j < a + n implies !occurs_at(s, j, c) by {
        if occurs_at(s, j, c) {
            let r = j - a;
            if r + c.len() <= n {
                lemma_occurs_in_window(s, a, body, r, c);
            } else {
                let k = n - r;
                lemma_occurs_byte(s, j, c, k);
                assert(s[a + n] == x[n]);
                assert(x[n] == c[0]);
                if k >= 4 {
                    assert(c[k] == boundary[k - 4]);
                }
            }
        }
    }
    assert(s.subrange(a + n, a + n + c.len() + 2) =~= c + ending(m)) by {
        assert forall|r: int| 0 <= r < c.len() + 2 implies s.subrange(a + n, a + n + c.len() + 2)[r]
            == (c + ending(m))[r] by {
            assert(s[a + (n + r)] == x[n + r]);
        }
    }
    lemma_occurs_intro(s, a + n, c + ending(m));
    lemma_first_mark_is(s, a, c, a + n, m);
}

/// What is encoded from part `i` on, after a delimiter that the session finds
/// from where it stands, is decoded to the parts from `i` on.
pub proof fn lemma_round_trip_from(
    s: Seq<u8>,
    boundary: Seq<u8>,
    parts: Seq<EntryView>,
    i: int,
    q: int,
    state: State,
    offset: int,
)
    requires
        encodable(boundary, parts),
        0 <= i <= parts.len(),
        0 <= offset <= q <= s.len(),
        s.subrange(q, s.len() as int) == encode_from(boundary, parts, i),
        seek(s, boundary, state, offset) == if i < parts.len() {
            Sought::Headers(q)
        } else {
            Sought::End
        },
    ensures
        parts_from(s, boundary, state, offset) == (parts.skip(i), Outcome::Complete),
    decreases parts.len() - i,
{
    if i >= parts.len() {
        assert(parts.skip(i) =~= Seq::<EntryView>::empty());
    } else {
        let entry = parts[i];
        let p = entry.part;
        let h = head_text(p);
        let c = closing(boundary);
        let rest = encode_from(boundary, parts, i + 1);
        let tail = s.subrange(q, s.len() as int);
        let body_at = q + h.len() + 6;
        let end = body_at + entry.body.len();
        let m = mark_before(parts, i + 1);
        assert(fits(boundary, entry));
        lemma_encode_from_starts(boundary, parts, i + 1);
        assert(tail == seq![CR, LF] + h + blank_line() + entry.body + c + rest);
        assert(tail.len() == s.len() - q);
        assert forall|r: int| 0 <= r < tail.len() implies s[q + r] == tail[r] by {}
        assert(s.subrange(q, q + h.len() + 6) =~= seq![CR, LF] + h + blank_line()) by {
            assert forall|r: int| 0 <= r < h.len() + 6 implies s.subrange(q, q + h.len() + 6)[r]
                == (seq![CR, LF] + h + blank_line())[r] by {
                assert(s[q + r] == tail[r]);
            }
        }
        lemma_head_block_reads_back(s, q, p);
        lemma_head_reads_back(p);
        assert(step(s, boundary, state, offset) == (Step::Yield { part: p, body_at }));
        assert(s.subrange(body_at, end + c.len() + 2) =~= entry.body + c + ending(m)) by {
            assert forall|r: int| 0 <= r < entry.body.len() + c.len() + 2 implies s.subrange(
                body_at,
                end + c.len() + 2,
            )[r] == (entry.body + c + ending(m))[r] by {
                assert(s[q + (h.len() + 6 + r)] == tail[h.len() + 6 + r]);
                if r >= entry.body.len() + c.len() {
                    assert(rest.take(2)[r - entry.body.len() - c.len()] == rest[r
                        - entry.body.len() - c.len()]);
                }
            }
        }
        lemma_body_reads_back(s, body_at, entry.body, boundary, m);
        lemma_first_mark_skip(s, body_at, end, c);
        assert(body_end(s, boundary, body_at) == end);
        assert(s.subrange(body_at, end) =~= entry.body) by {
            assert forall|r: int| 0 <= r < entry.body.len() implies s.subrange(body_at, end)[r]
                == entry.body[r] by {
                assert(s[q + (h.len() + 6 + r)] == tail[h.len() + 6 + r]);
            }
        }
        let next = end + c.len();
        assert(s.subrange(next, s.len() as int) =~= rest) by {
            assert forall|r: int| 0 <= r < rest.len() implies s.subrange(next, s.len() as int)[r]
                == rest[r] by {
                assert(s[q + (next - q + r)] == tail[next - q + r]);
            }
        }
        lemma_round_trip_from(s, boundary, parts, i + 1, next, State::ReadingBody, end);
        assert(parts.skip(i) =~= seq![entry] + parts.skip(i + 1));
        assert((EntryView { part: p, body: s.subrange(body_at, end) }) == entry);
    }
}

/// Lossless round trip: encoding parts with a boundary and decoding the
/// result gives the same parts back, in the same order, and ends without a
/// failure. This holds of the parts that a body can carry: see `encodable`.
pub proof fn lemma_round_trip(boundary: Seq<u8>, parts: Seq<EntryView>)
    requires
        encodable(boundary, parts),
    ensures
        parse(boundary, encode(boundary, parts)) == (parts, Outcome::Complete),
{
    let s = encode(boundary, parts);
    let o = opening(boundary);
    let m = mark_before(parts, 0);
    let q = o.len() as int;
    lemma_encode_from_starts(boundary, parts, 0);
    assert(s.subrange(0, q + 2) =~= o + ending(m)) by {
        assert forall|r: int| 0 <= r < q + 2 implies s.subrange(0, q + 2)[r] == (o + ending(m))[r] by {
            if r >= q {
                assert(encode_from(boundary, parts, 0).take(2)[r - q] == encode_from(
                    boundary,
                    parts,
                    0,
                )[r - q]);
            }
        }
    }
    lemma_occurs_intro(s, 0, o + ending(m));
    lemma_first_mark_is(s, 0, o, 0, m);
    assert(s.subrange(q, s.len() as int) =~= encode_from(boundary, parts, 0));
    lemma_round_trip_from(s, boundary, parts, 0, q, State::AwaitFirstBoundary, 0);
    assert(parts.skip(0) =~= parts);
}

/// Appends the header block of `p`, without the blank line that ends it.
pub fn write_head(out: &mut Vec<u8>, p: &Part)
    ensures
        final(out)@ == old(out)@ + head_text(p@),
{
    let line: [u8; 21] = [67, 111, 110, 116, 101, 110, 116, 45, 68, 105, 115, 112, 111, 115, 105, 116, 105, 111, 110, 58, 32];
    let value: [u8; 17] = [102, 111, 114, 109, 45, 100, 97, 116, 97, 59, 32, 110, 97, 109, 101, 61, 34];
    let file: [u8; 12] = [59, 32, 102, 105, 108, 101, 110, 97, 109, 101, 61, 34];
    let kind: [u8; 16] = [13, 10, 67, 111, 110, 116, 101, 110, 116, 45, 84, 121, 112, 101, 58, 32];
    let quote: [u8; 1] = [QUOTE];
    assert(line@ =~= line_prefix());
    assert(value@ =~= value_prefix());
    assert(file@ =~= filename_prefix());
    assert(kind@ =~= type_prefix());
    assert(quote@ =~= seq![QUOTE]);
    append(out, line.as_slice());
    append(out, value.as_slice());
    append(out, p.name.as_slice());
    append(out, quote.as_slice());
    match &p.filename {
        Some(f) => {
            append(out, file.as_slice());
            append(out, f.as_slice());
            append(out, quote.as_slice());
        },
        None => {},
    }
    match &p.content_type {
        Some(t) => {
            append(out, kind.as_slice());
            append(out, t.as_slice());
        },
        None => {},
    }
    assert(out@ =~= old(out)@ + head_text(p@));
}

/// The body that carries `parts`, delimited by `boundary`.
pub fn encode_parts(boundary: &[u8], parts: &Vec<Entry>) -> (out: Vec<u8>)
    ensures
        out@ == encode(boundary@, views(parts@)),
{
    let dashes: [u8; 2] = [DASH, DASH];
    let brk: [u8; 2] = [CR, LF];
    assert(dashes@ =~= seq![DASH, DASH]);
    assert(brk@ =~= seq![CR, LF]);
    let ghost all = views(parts@);
    let mut out: Vec<u8> = Vec::new();
    append(&mut out, dashes.as_slice());
    append(&mut out, boundary);
    assert(out@ =~= opening(boundary@));
    let mut i: usize = 0;
    while i < parts.len()
        invariant
            i <= parts@.len(),
            all == views(parts@),
            dashes@ == seq![DASH, DASH],
            brk@ == seq![CR, LF],
            out@ + encode_from(boundary@, all, i as int) == encode(boundary@, all),
        decreases parts@.len() - i,
    {
        let ghost before = out@;
        let entry = &parts[i];
        assert(all[i as int] == entry@);
        append(&mut out, brk.as_slice());
        write_head(&mut out, &entry.part);
        append(&mut out, brk.as_slice());
        append(&mut out, brk.as_slice());
        append(&mut out, entry.body.as_slice());
        append(&mut out, brk.as_slice());
        append(&mut out, dashes.as_slice());
        append(&mut out, boundary);
        assert(out@ =~= before + (seq![CR, LF] + head_text(entry@.part) + blank_line()
            + entry@.body + closing(boundary@)));
        assert(out@ + encode_from(boundary@, all, i + 1) =~= before + encode_from(
            boundary@,
            all,
            i as int,
        ));
        i += 1;
    }
    let ghost before = out@;
    append(&mut out, dashes.as_slice());
    assert(out@ =~= before + encode_from(boundary@, all, i as int));
    out
}

} // verus!
