//! Small operations on byte strings that the header parsers share.

use vstd::prelude::*;
use vstd::slice::slice_subrange;

verus! {

/// A space.
pub const SPACE: u8 = 32;

/// A horizontal tab.
pub const TAB: u8 = 9;

/// A double quote.
pub const QUOTE: u8 = 34;

/// A semicolon.
pub const SEMICOLON: u8 = 59;

/// A colon.
pub const COLON: u8 = 58;

/// An equals sign.
pub const EQUALS: u8 = 61;

/// The lower-case form of an ASCII letter; any other byte is left as it is.
pub open spec fn lower(b: u8) -> u8 {
    if 65 <= b <= 90 {
        (b + 32) as u8
    } else {
        b
    }
}

/// Two byte strings that differ at most in the case of ASCII letters.
pub open spec fn same_word(a: Seq<u8>, b: Seq<u8>) -> bool {
    &&& a.len() == b.len()
    &&& forall|i: int| 0 <= i < a.len() ==> lower(#[trigger] a[i]) == lower(b[i])
}

/// A space or a tab.
pub open spec fn is_blank(b: u8) -> bool {
    b == SPACE || b == TAB
}

/// The least index at or after `from` at which `s` holds `b`; the length of
/// `s` if there is none.
pub open spec fn index_of(s: Seq<u8>, b: u8, from: int) -> int
    decreases s.len() - from,
{
    if from < 0 || from >= s.len() {
        s.len() as int
    } else if s[from] == b {
        from
    } else {
        index_of(s, b, from + 1)
    }
}

/// The least index at or after `from` at which `s` holds no blank; the length
/// of `s` if there is none.
pub open spec fn skip_blanks(s: Seq<u8>, from: int) -> int
    decreases s.len() - from,
{
    if from < 0 || from >= s.len() {
        s.len() as int
    } else if !is_blank(s[from]) {
        from
    } else {
        skip_blanks(s, from + 1)
    }
}

/// The least index `t` for which `s` holds only blanks from `t` up to `upto`.
pub open spec fn drop_blanks(s: Seq<u8>, upto: int) -> int
    decreases upto,
{
    if upto <= 0 || upto > s.len() {
        0
    } else if !is_blank(s[upto - 1]) {
        upto
    } else {
        drop_blanks(s, upto - 1)
    }
}

/// `s` without the blanks at its two ends.
pub open spec fn trim(s: Seq<u8>) -> Seq<u8> {
    let a = skip_blanks(s, 0);
    let b = drop_blanks(s, s.len() as int);
    if a < b {
        s.subrange(a, b)
    } else {
        Seq::empty()
    }
}

/// `s` without one pair of double quotes around it, if it has one.
pub open spec fn unquote(s: Seq<u8>) -> Seq<u8> {
    if s.len() >= 2 && s[0] == QUOTE && s[s.len() - 1] == QUOTE {
        s.subrange(1, s.len() - 1)
    } else {
        s
    }
}

/// `s` holds `b` nowhere.
pub open spec fn free_of(s: Seq<u8>, b: u8) -> bool {
    forall|i: int| 0 <= i < s.len() ==> s[i] != b
}

/// `s` neither starts nor ends with a blank.
pub open spec fn is_trimmed(s: Seq<u8>) -> bool {
    s.len() > 0 ==> !is_blank(s[0]) && !is_blank(s[s.len() - 1])
}

/// The first `b` after a stretch without one is the one that is found.
pub proof fn lemma_index_of_is(s: Seq<u8>, b: u8, from: int, i: int)
    requires
        0 <= from <= i <= s.len(),
        forall|j: int| from <= j < i ==> s[j] != b,
        i < s.len() ==> s[i] == b,
    ensures
        index_of(s, b, from) == i,
    decreases i - from,
{
    if from < i {
        lemma_index_of_is(s, b, from + 1, i);
    }
}

/// Blanks are skipped up to the first byte that is none.
pub proof fn lemma_skip_blanks_is(s: Seq<u8>, from: int, i: int)
    requires
        0 <= from <= i <= s.len(),
        forall|j: int| from <= j < i ==> is_blank(s[j]),
        i < s.len() ==> !is_blank(s[i]),
    ensures
        skip_blanks(s, from) == i,
    decreases i - from,
{
    if from < i {
        lemma_skip_blanks_is(s, from + 1, i);
    }
}

/// Blanks are dropped down to the last byte that is none.
pub proof fn lemma_drop_blanks_is(s: Seq<u8>, upto: int, i: int)
    requires
        0 <= i <= upto <= s.len(),
        forall|j: int| i <= j < upto ==> is_blank(s[j]),
        i > 0 ==> !is_blank(s[i - 1]),
    ensures
        drop_blanks(s, upto) == i,
    decreases upto - i,
{
    if i < upto {
        lemma_drop_blanks_is(s, upto - 1, i);
    }
}

/// A byte string that carries at most one blank, in front, is trimmed by
/// taking that blank off, provided it neither ends with a blank nor, after
/// the one in front, starts with another.
pub proof fn lemma_trim_after_space(t: Seq<u8>)
    requires
        is_trimmed(t),
    ensures
        trim(seq![SPACE] + t) == t,
{
    let w = seq![SPACE] + t;
    if t.len() == 0 {
        lemma_skip_blanks_is(w, 0, 1);
        lemma_drop_blanks_is(w, 1, 0);
        assert(t =~= Seq::<u8>::empty());
    } else {
        lemma_skip_blanks_is(w, 0, 1);
        lemma_drop_blanks_is(w, w.len() as int, w.len() as int);
        assert(w.subrange(1, w.len() as int) =~= t);
    }
}

/// A byte string that neither starts nor ends with a blank is its own trimmed
/// form.
pub proof fn lemma_trim_of_trimmed(t: Seq<u8>)
    requires
        is_trimmed(t),
    ensures
        trim(t) == t,
{
    if t.len() == 0 {
        assert(t =~= Seq::<u8>::empty());
    } else {
        lemma_skip_blanks_is(t, 0, 0);
        lemma_drop_blanks_is(t, t.len() as int, t.len() as int);
        assert(t.subrange(0, t.len() as int) =~= t);
    }
}

/// The lower-case form of an ASCII letter; any other byte is left as it is.
pub fn to_lower(b: u8) -> (r: u8)
    ensures
        r == lower(b),
{
    if 65 <= b && b <= 90 {
        b + 32
    } else {
        b
    }
}

/// Whether `a` and `b` differ at most in the case of ASCII letters.
pub fn eq_ignore_case(a: &[u8], b: &[u8]) -> (r: bool)
    ensures
        r == same_word(a@, b@),
{
    if a.len() != b.len() {
        return false;
    }
    let mut i: usize = 0;
    while i < a.len()
        invariant
            i <= a@.len() == b@.len(),
            forall|j: int| 0 <= j < i ==> lower(#[trigger] a@[j]) == lower(b@[j]),
        decreases a@.len() - i,
    {
        if to_lower(a[i]) != to_lower(b[i]) {
            assert(lower(a@[i as int]) != lower(b@[i as int]));
            return false;
        }
        i += 1;
    }
    true
}

/// The least index at or after `from` at which `s` holds `b`; the length of
/// `s` if there is none.
pub fn position(s: &[u8], b: u8, from: usize) -> (r: usize)
    ensures
        r == index_of(s@, b, from as int),
        r <= s@.len(),
        from <= s@.len() ==> from <= r,
{
    if from >= s.len() {
        return s.len();
    }
    let mut i: usize = from;
    while i < s.len() && s[i] != b
        invariant
            from <= i <= s@.len(),
            index_of(s@, b, from as int) == index_of(s@, b, i as int),
        decreases s@.len() - i,
    {
        i += 1;
    }
    i
}

/// `s` without the blanks at its two ends.
pub fn trimmed<'a>(s: &'a [u8]) -> (r: &'a [u8])
    ensures
        r@ == trim(s@),
{
    let mut a: usize = 0;
    while a < s.len() && (s[a] == SPACE || s[a] == TAB)
        invariant
            a <= s@.len(),
            skip_blanks(s@, 0) == skip_blanks(s@, a as int),
        decreases s@.len() - a,
    {
        a += 1;
    }
    let mut b: usize = s.len();
    while b > 0 && (s[b - 1] == SPACE || s[b - 1] == TAB)
        invariant
            b <= s@.len(),
            drop_blanks(s@, s@.len() as int) == drop_blanks(s@, b as int),
        decreases b,
    {
        b -= 1;
    }
    if a < b {
        slice_subrange(s, a, b)
    } else {
        let r = slice_subrange(s, 0, 0);
        assert(r@ =~= Seq::<u8>::empty());
        r
    }
}

/// `s` without one pair of double quotes around it, if it has one.
pub fn unquoted<'a>(s: &'a [u8]) -> (r: &'a [u8])
    ensures
        r@ == unquote(s@),
{
    if s.len() >= 2 && s[0] == QUOTE && s[s.len() - 1] == QUOTE {
        slice_subrange(s, 1, s.len() - 1)
    } else {
        s
    }
}

/// Appends `bytes` to `out`.
pub fn append(out: &mut Vec<u8>, bytes: &[u8])
    ensures
        final(out)@ == old(out)@ + bytes@,
{
    let mut i: usize = 0;
    while i < bytes.len()
        invariant
            i <= bytes@.len(),
            out@ == old(out)@ + bytes@.take(i as int),
        decreases bytes@.len() - i,
    {
        out.push(bytes[i]);
        i += 1;
        assert(out@ =~= old(out)@ + bytes@.take(i as int));
    }
    assert(bytes@.take(i as int) =~= bytes@);
}

} // verus!
