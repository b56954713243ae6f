//! The byte-level shape of a multipart body: delimiters, and where they occur.

use vstd::prelude::*;

verus! {

/// A carriage return.
pub const CR: u8 = 13;

/// A line feed.
pub const LF: u8 = 10;

/// A hyphen.
pub const DASH: u8 = 45;

/// How a delimiter ends: a separator announces another part, a terminator the
/// end of the body.
#[derive(Clone, Copy, Debug, PartialEq, Eq, Structural)]
pub enum Mark {
    Separator,
    Terminator,
}

/// `--` followed by the boundary: the delimiter as it stands at the very start
/// of a body.
pub open spec fn opening(boundary: Seq<u8>) -> Seq<u8> {
    seq![DASH, DASH] + boundary
}

/// A line break, `--` and the boundary: the delimiter as it stands after a
/// part's body.
pub open spec fn closing(boundary: Seq<u8>) -> Seq<u8> {
    seq![CR, LF, DASH, DASH] + boundary
}

/// A delimiter followed by a line break.
pub open spec fn separator(delimiter: Seq<u8>) -> Seq<u8> {
    delimiter + seq![CR, LF]
}

/// A delimiter followed by `--`.
pub open spec fn terminator(delimiter: Seq<u8>) -> Seq<u8> {
    delimiter + seq![DASH, DASH]
}

/// The end of a header block: a line break followed by an empty line.
pub open spec fn blank_line() -> Seq<u8> {
    seq![CR, LF, CR, LF]
}

/// `s` holds the bytes of `pat` from index `i` on.
#[verifier::opaque]
pub open spec fn agrees_at(s: Seq<u8>, i: int, pat: Seq<u8>) -> bool {
    forall|k: int| 0 <= k < pat.len() ==> s[i + k] == #[trigger] pat[k]
}

/// `pat` stands in `s` at index `i`.
pub open spec fn occurs_at(s: Seq<u8>, i: int, pat: Seq<u8>) -> bool {
    &&& 0 <= i
    &&& i + pat.len() <= s.len()
    &&& agrees_at(s, i, pat)
}

/// The least index at or after `from` at which `pat` stands in `s`.
pub open spec fn first_occurrence(s: Seq<u8>, from: int, pat: Seq<u8>) -> Option<int>
    decreases s.len() + 1 - from,
{
    if from < 0 || from + pat.len() > s.len() {
        None
    } else if occurs_at(s, from, pat) {
        Some(from)
    } else {
        first_occurrence(s, from + 1, pat)
    }
}

/// The earlier of two searches, with the mark of the one that won. The first
/// search is for a separator, the second for a terminator.
pub open spec fn earlier(sep: Option<int>, term: Option<int>) -> Option<(int, Mark)> {
    match (sep, term) {
        (None, None) => None,
        (Some(a), None) => Some((a, Mark::Separator)),
        (None, Some(b)) => Some((b, Mark::Terminator)),
        (Some(a), Some(b)) => if a < b {
            Some((a, Mark::Separator))
        } else {
            Some((b, Mark::Terminator))
        },
    }
}

/// The first place at or after `from` where `delimiter` stands in `s` followed
/// by a line break or by `--`, and which of the two follows it.
pub open spec fn first_mark(s: Seq<u8>, from: int, delimiter: Seq<u8>) -> Option<(int, Mark)> {
    earlier(
        first_occurrence(s, from, separator(delimiter)),
        first_occurrence(s, from, terminator(delimiter)),
    )
}

/// What a found occurrence is: it stands there, and nowhere before.
pub proof fn lemma_first_occurrence_some(s: Seq<u8>, from: int, pat: Seq<u8>)
    requires
        first_occurrence(s, from, pat) is Some,
    ensures
        from <= first_occurrence(s, from, pat)->0,
        occurs_at(s, first_occurrence(s, from, pat)->0, pat),
        forall|j: int| from <= j < first_occurrence(s, from, pat)->0 ==> !occurs_at(s, j, pat),
    decreases s.len() + 1 - from,
{
    if from < 0 || from + pat.len() > s.len() {
    } else if occurs_at(s, from, pat) {
    } else {
        lemma_first_occurrence_some(s, from + 1, pat);
    }
}

/// A search that finds nothing: the pattern stands nowhere from `from` on.
pub proof fn lemma_first_occurrence_none(s: Seq<u8>, from: int, pat: Seq<u8>)
    requires
        first_occurrence(s, from, pat) is None,
        0 <= from,
    ensures
        forall|j: int| from <= j ==> !occurs_at(s, j, pat),
    decreases s.len() + 1 - from,
{
    if from + pat.len() > s.len() {
    } else {
        lemma_first_occurrence_none(s, from + 1, pat);
    }
}

/// A search may start later, as long as it skips no occurrence.
pub proof fn lemma_first_occurrence_skip(s: Seq<u8>, a: int, b: int, pat: Seq<u8>)
    requires
        0 <= a <= b,
        forall|j: int| a <= j < b ==> !occurs_at(s, j, pat),
    ensures
        first_occurrence(s, a, pat) == first_occurrence(s, b, pat),
    decreases b - a,
{
    if a < b {
        lemma_first_occurrence_skip(s, a + 1, b, pat);
        if a + pat.len() > s.len() {
            lemma_first_occurrence_past_end(s, b, pat);
            lemma_first_occurrence_past_end(s, a + 1, pat);
        }
    }
}

/// Too close to the end, nothing is found.
pub proof fn lemma_first_occurrence_past_end(s: Seq<u8>, from: int, pat: Seq<u8>)
    requires
        from + pat.len() > s.len(),
    ensures
        first_occurrence(s, from, pat) is None,
{
}

/// Where a pattern stands, the sequence holds each of its bytes.
pub proof fn lemma_occurs_byte(s: Seq<u8>, i: int, pat: Seq<u8>, k: int)
    requires
        occurs_at(s, i, pat),
        0 <= k < pat.len(),
    ensures
        s[i + k] == pat[k],
{
    reveal(agrees_at);
}

/// A pattern stands where the sequence holds a copy of it.
pub proof fn lemma_occurs_intro(s: Seq<u8>, i: int, pat: Seq<u8>)
    requires
        0 <= i,
        i + pat.len() <= s.len(),
        s.subrange(i, i + pat.len()) == pat,
    ensures
        occurs_at(s, i, pat),
{
    reveal(agrees_at);
    assert forall|k: int| 0 <= k < pat.len() implies s[i + k] == #[trigger] pat[k] by {
        assert(s.subrange(i, i + pat.len())[k] == s[i + k]);
    }
}

/// Where a pattern stands, each of its prefixes stands too.
pub proof fn lemma_occurs_prefix(s: Seq<u8>, i: int, pat: Seq<u8>, n: int)
    requires
        occurs_at(s, i, pat),
        0 <= n <= pat.len(),
    ensures
        occurs_at(s, i, pat.take(n)),
{
    reveal(agrees_at);
    assert forall|k: int| 0 <= k < n implies s[i + k] == #[trigger] pat.take(n)[k] by {
        assert(pat.take(n)[k] == pat[k]);
    }
}

/// An occurrence with none before it is the one the search finds.
pub proof fn lemma_first_occurrence_is(s: Seq<u8>, from: int, pat: Seq<u8>, i: int)
    requires
        0 <= from <= i,
        occurs_at(s, i, pat),
        forall|j: int| from <= j < i ==> !occurs_at(s, j, pat),
    ensures
        first_occurrence(s, from, pat) == Some(i),
{
    lemma_first_occurrence_skip(s, from, i, pat);
}

/// A window of a longer sequence shows the occurrences that fit in it.
pub proof fn lemma_occurs_in_window(s: Seq<u8>, off: int, w: Seq<u8>, i: int, pat: Seq<u8>)
    requires
        0 <= off,
        off + w.len() <= s.len(),
        w == s.subrange(off, off + w.len()),
        0 <= i,
        i + pat.len() <= w.len(),
    ensures
        occurs_at(w, i, pat) == occurs_at(s, off + i, pat),
{
    reveal(agrees_at);
    if occurs_at(w, i, pat) {
        assert forall|k: int| 0 <= k < pat.len() implies s[off + i + k] == #[trigger] pat[k] by {
            assert(w[i + k] == s[off + i + k]);
        }
    }
    if occurs_at(s, off + i, pat) {
        assert forall|k: int| 0 <= k < pat.len() implies w[i + k] == #[trigger] pat[k] by {
            assert(w[i + k] == s[off + i + k]);
        }
    }
}

/// `pat` stands nowhere in `s` from index `a` up to, not including, `b`.
pub open spec fn no_occurrence(s: Seq<u8>, a: int, b: int, pat: Seq<u8>) -> bool {
    forall|j: int| a <= j < b ==> !occurs_at(s, j, pat)
}

/// No mark of `delimiter` stands in `s` from index `a` up to, not including,
/// `b`.
pub open spec fn clear(s: Seq<u8>, a: int, b: int, delimiter: Seq<u8>) -> bool {
    &&& no_occurrence(s, a, b, separator(delimiter))
    &&& no_occurrence(s, a, b, terminator(delimiter))
}

/// What a search in a window says of the sequence that the window is cut from:
/// a find in the window stands in the sequence too, and where the window shows
/// no occurrence the sequence has none, as far as the pattern fits into the
/// window.
pub proof fn lemma_search_in_window(s: Seq<u8>, off: int, w: Seq<u8>, from: int, pat: Seq<u8>)
    requires
        0 <= off,
        off + w.len() <= s.len(),
        w == s.subrange(off, off + w.len()),
        0 <= from,
    ensures
        first_occurrence(w, from, pat) matches Some(i) ==> {
            &&& from <= i
            &&& i + pat.len() <= w.len()
            &&& occurs_at(s, off + i, pat)
            &&& no_occurrence(s, off + from, off + i, pat)
        },
        first_occurrence(w, from, pat) is None ==> no_occurrence(
            s,
            off + from,
            off + w.len() - pat.len() + 1,
            pat,
        ),
{
    match first_occurrence(w, from, pat) {
        Some(i) => {
            lemma_first_occurrence_some(w, from, pat);
            lemma_occurs_in_window(s, off, w, i, pat);
            assert forall|j: int| off + from <= j < off + i implies !occurs_at(s, j, pat) by {
                lemma_occurs_in_window(s, off, w, j - off, pat);
            }
        },
        None => {
            lemma_first_occurrence_none(w, from, pat);
            assert forall|j: int| off + from <= j < off + w.len() - pat.len() + 1 implies !occurs_at(
                s,
                j,
                pat,
            ) by {
                lemma_occurs_in_window(s, off, w, j - off, pat);
            }
        },
    }
}

/// Nothing is found where the pattern stands nowhere up to the end.
pub proof fn lemma_first_occurrence_absent(s: Seq<u8>, from: int, pat: Seq<u8>)
    requires
        0 <= from,
        no_occurrence(s, from, s.len() - pat.len() + 1, pat),
    ensures
        first_occurrence(s, from, pat) is None,
{
    if from + pat.len() <= s.len() {
        lemma_first_occurrence_skip(s, from, s.len() - pat.len() + 1, pat);
    }
}

/// What a found mark is: its delimiter and ending stand there, and no mark
/// stands before it.
pub proof fn lemma_first_mark_some(s: Seq<u8>, from: int, delimiter: Seq<u8>)
    requires
        first_mark(s, from, delimiter) is Some,
    ensures
        first_mark(s, from, delimiter) matches Some((i, m)) ==> {
            &&& from <= i
            &&& i + delimiter.len() + 2 <= s.len()
            &&& m == Mark::Separator ==> occurs_at(s, i, separator(delimiter))
            &&& m == Mark::Terminator ==> occurs_at(s, i, terminator(delimiter))
            &&& clear(s, from, i, delimiter)
        },
{
    let sep = separator(delimiter);
    let term = terminator(delimiter);
    if first_occurrence(s, from, sep) is Some {
        lemma_first_occurrence_some(s, from, sep);
    }
    if first_occurrence(s, from, term) is Some {
        lemma_first_occurrence_some(s, from, term);
    }
    if from >= 0 {
        if first_occurrence(s, from, sep) is None {
            lemma_first_occurrence_none(s, from, sep);
        }
        if first_occurrence(s, from, term) is None {
            lemma_first_occurrence_none(s, from, term);
        }
    }
}

/// What follows the delimiter in a mark.
pub open spec fn ending(m: Mark) -> Seq<u8> {
    match m {
        Mark::Separator => seq![CR, LF],
        Mark::Terminator => seq![DASH, DASH],
    }
}

/// A delimiter with one of its endings, with no delimiter before it, is the
/// mark that the search finds.
pub proof fn lemma_first_mark_is(s: Seq<u8>, from: int, delimiter: Seq<u8>, i: int, m: Mark)
    requires
        0 <= from <= i,
        occurs_at(s, i, delimiter + ending(m)),
        no_occurrence(s, from, i, delimiter),
    ensures
        first_mark(s, from, delimiter) == Some((i, m)),
        clear(s, from, i, delimiter),
{
    let sep = separator(delimiter);
    let term = terminator(delimiter);
    let n = delimiter.len() as int;
    assert(sep.take(n) =~= delimiter);
    assert(term.take(n) =~= delimiter);
    assert forall|j: int| from <= j < i implies !occurs_at(s, j, sep) by {
        if occurs_at(s, j, sep) {
            lemma_occurs_prefix(s, j, sep, n);
        }
    }
    assert forall|j: int| from <= j < i implies !occurs_at(s, j, term) by {
        if occurs_at(s, j, term) {
            lemma_occurs_prefix(s, j, term, n);
        }
    }
    if occurs_at(s, i, sep) && occurs_at(s, i, term) {
        lemma_occurs_byte(s, i, sep, n);
        lemma_occurs_byte(s, i, term, n);
    }
    match m {
        Mark::Separator => {
            assert(delimiter + ending(m) =~= sep);
            lemma_first_occurrence_is(s, from, sep, i);
            if first_occurrence(s, from, term) is Some {
                lemma_first_occurrence_some(s, from, term);
            }
        },
        Mark::Terminator => {
            assert(delimiter + ending(m) =~= term);
            lemma_first_occurrence_is(s, from, term, i);
            if first_occurrence(s, from, sep) is Some {
                lemma_first_occurrence_some(s, from, sep);
            }
        },
    }
}

/// A search for a mark may start later, as long as it skips no mark.
pub proof fn lemma_first_mark_skip(s: Seq<u8>, a: int, b: int, delimiter: Seq<u8>)
    requires
        0 <= a <= b,
        clear(s, a, b, delimiter),
    ensures
        first_mark(s, a, delimiter) == first_mark(s, b, delimiter),
{
    lemma_first_occurrence_skip(s, a, b, separator(delimiter));
    lemma_first_occurrence_skip(s, a, b, terminator(delimiter));
}

/// What a search for a mark in a window says of the sequence that the window is
/// cut from, when no mark stands between the window's start and the place where
/// the search began: a mark found in the window is the first of the sequence
/// from the window's start on; and a window without one leaves only its last
/// places open, those from which a mark would reach beyond it.
pub proof fn lemma_mark_in_window(
    s: Seq<u8>,
    off: int,
    w: Seq<u8>,
    from: int,
    delimiter: Seq<u8>,
)
    requires
        0 <= off,
        off + w.len() <= s.len(),
        w == s.subrange(off, off + w.len()),
        0 <= from,
        clear(s, off, off + from, delimiter),
    ensures
        first_mark(w, from, delimiter) matches Some((i, m)) ==> {
            &&& from <= i
            &&& i + delimiter.len() + 2 <= w.len()
            &&& first_mark(s, off, delimiter) == Some((off + i, m))
        },
        first_mark(w, from, delimiter) is None ==> clear(
            s,
            off,
            off + w.len() - delimiter.len() - 1,
            delimiter,
        ),
        first_mark(w, from, delimiter) is None && off + w.len() == s.len() ==> first_mark(
            s,
            off,
            delimiter,
        ) is None,
{
    let sep = separator(delimiter);
    let term = terminator(delimiter);
    lemma_search_in_window(s, off, w, from, sep);
    lemma_search_in_window(s, off, w, from, term);
    let a = first_occurrence(w, from, sep);
    let b = first_occurrence(w, from, term);
    if a is Some {
        lemma_first_occurrence_is(s, off, sep, off + a->0);
    }
    if b is Some {
        lemma_first_occurrence_is(s, off, term, off + b->0);
    }
    if a is Some && b is None {
        if first_occurrence(s, off, term) is Some {
            lemma_first_occurrence_some(s, off, term);
        }
    }
    if a is None && b is Some {
        if first_occurrence(s, off, sep) is Some {
            lemma_first_occurrence_some(s, off, sep);
        }
    }
    if a is None && b is None && off + w.len() == s.len() {
        lemma_first_occurrence_absent(s, off, sep);
        lemma_first_occurrence_absent(s, off, term);
    }
}

/// Whether `pat` stands in `hay` at index `i`.
pub fn starts_at(hay: &[u8], i: usize, pat: &[u8]) -> (b: bool)
    ensures
        b == occurs_at(hay@, i as int, pat@),
{
    reveal(agrees_at);
    if pat.len() > hay.len() || i > hay.len() - pat.len() {
        return false;
    }
    let mut k: usize = 0;
    while k < pat.len()
        invariant
            k <= pat@.len(),
            i + pat@.len() <= hay@.len() <= usize::MAX,
            forall|m: int| 0 <= m < k ==> hay@[i + m] == #[trigger] pat@[m],
        decreases pat@.len() - k,
    {
        if hay[i + k] != pat[k] {
            proof {
                reveal(agrees_at);
                assert(hay@[i + k] != pat@[k as int]);
            }
            return false;
        }
        k += 1;
    }
    true
}

/// The least index at or after `from` at which `pat` stands in `hay`.
pub fn find(hay: &[u8], from: usize, pat: &[u8]) -> (r: Option<usize>)
    ensures
        r is Some <==> first_occurrence(hay@, from as int, pat@) is Some,
        r matches Some(i) ==> first_occurrence(hay@, from as int, pat@) == Some(i as int),
        r matches Some(i) ==> from <= i && i + pat@.len() <= hay@.len(),
{
    if pat.len() > hay.len() || from > hay.len() - pat.len() {
        return None;
    }
    let last: usize = hay.len() - pat.len();
    let mut i: usize = from;
    loop
        invariant
            from <= i <= last,
            last == hay@.len() - pat@.len(),
            first_occurrence(hay@, from as int, pat@) == first_occurrence(hay@, i as int, pat@),
        decreases last - i,
    {
        if starts_at(hay, i, pat) {
            return Some(i);
        }
        if i == last {
            proof {
                lemma_first_occurrence_past_end(hay@, i + 1, pat@);
            }
            return None;
        }
        i += 1;
    }
}

/// The earlier of two finds in `hay` at or after `from`: that of `sep`, which
/// counts as a separator, and that of `term`, which counts as a terminator.
/// With a delimiter's two endings for `sep` and `term` this is the first mark.
pub fn find_mark(hay: &[u8], from: usize, sep: &[u8], term: &[u8]) -> (r: Option<(usize, Mark)>)
    ensures
        r is Some <==> earlier(
            first_occurrence(hay@, from as int, sep@),
            first_occurrence(hay@, from as int, term@),
        ) is Some,
        r matches Some((i, m)) ==> earlier(
            first_occurrence(hay@, from as int, sep@),
            first_occurrence(hay@, from as int, term@),
        ) == Some((i as int, m)),
        r matches Some((i, m)) ==> from <= i && i + (if m == Mark::Separator {
            sep@.len()
        } else {
            term@.len()
        }) <= hay@.len(),
{
    let a = find(hay, from, sep);
    let b = find(hay, from, term);
    match (a, b) {
        (None, None) => None,
        (Some(i), None) => Some((i, Mark::Separator)),
        (None, Some(j)) => Some((j, Mark::Terminator)),
        (Some(i), Some(j)) => if i < j {
            Some((i, Mark::Separator))
        } else {
            Some((j, Mark::Terminator))
        },
    }
}

} // verus!
