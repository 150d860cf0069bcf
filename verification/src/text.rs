//! Byte-wise predicates on text: containment, suffixes, equality and the
//! lexicographic order. A text is compared by its UTF-8 encoding, byte for
//! byte and with regard to case.

use vstd::prelude::*;
use vstd::string::*;
use vstd::utf8::*;

verus! {

/// `needle` stands in `hay` at offset `at`.
pub open spec fn occurs_at(needle: Seq<u8>, hay: Seq<u8>, at: int) -> bool {
    &&& 0 <= at
    &&& at + needle.len() <= hay.len()
    &&& hay.subrange(at, at + needle.len()) == needle
}

/// `needle` is a contiguous part of `hay`. The empty sequence is a part of
/// every sequence.
pub open spec fn is_infix(needle: Seq<u8>, hay: Seq<u8>) -> bool {
    exists|at: int| occurs_at(needle, hay, at)
}

/// `s` ends with `suffix`.
pub open spec fn is_suffix(suffix: Seq<u8>, s: Seq<u8>) -> bool {
    &&& suffix.len() <= s.len()
    &&& s.subrange(s.len() - suffix.len(), s.len() as int) == suffix
}

/// The lexicographic order on byte sequences: the first byte in which the two
/// differ decides, and a proper prefix comes before what it is a prefix of.
pub open spec fn lex_le(a: Seq<u8>, b: Seq<u8>) -> bool
    decreases a.len(),
{
    if a.len() == 0 {
        true
    } else if b.len() == 0 {
        false
    } else if a[0] != b[0] {
        a[0] < b[0]
    } else {
        lex_le(a.drop_first(), b.drop_first())
    }
}

/// The text `hay` contains the text `needle`, byte for byte.
pub open spec fn text_contains(hay: Seq<char>, needle: Seq<char>) -> bool {
    is_infix(encode_utf8(needle), encode_utf8(hay))
}

/// The text `s` ends with the text `suffix`, byte for byte.
pub open spec fn text_ends_with(s: Seq<char>, suffix: Seq<char>) -> bool {
    is_suffix(encode_utf8(suffix), encode_utf8(s))
}

/// The text `a` does not come after the text `b` in the byte-wise
/// lexicographic order.
pub open spec fn text_le(a: Seq<char>, b: Seq<char>) -> bool {
    lex_le(encode_utf8(a), encode_utf8(b))
}

/// Two texts with the same encoding are the same text.
pub proof fn lemma_encoding_injective(a: Seq<char>, b: Seq<char>)
    requires
        encode_utf8(a) == encode_utf8(b),
    ensures
        a == b,
{
    encode_utf8_decode_utf8(a);
    encode_utf8_decode_utf8(b);
}

pub proof fn lemma_lex_le_reflexive(a: Seq<u8>)
    ensures
        lex_le(a, a),
    decreases a.len(),
{
    if a.len() > 0 {
        lemma_lex_le_reflexive(a.drop_first());
    }
}

pub proof fn lemma_lex_le_antisymmetric(a: Seq<u8>, b: Seq<u8>)
    requires
        lex_le(a, b),
        lex_le(b, a),
    ensures
        a == b,
    decreases a.len(),
{
    if a.len() == 0 || b.len() == 0 {
        assert(a =~= b);
    } else {
        lemma_lex_le_antisymmetric(a.drop_first(), b.drop_first());
        assert(a =~= seq![a[0]] + a.drop_first());
        assert(b =~= seq![b[0]] + b.drop_first());
    }
}

pub proof fn lemma_lex_le_transitive(a: Seq<u8>, b: Seq<u8>, c: Seq<u8>)
    requires
        lex_le(a, b),
        lex_le(b, c),
    ensures
        lex_le(a, c),
    decreases a.len(),
{
    if a.len() > 0 && b.len() > 0 && c.len() > 0 && a[0] == b[0] && b[0] == c[0] {
        lemma_lex_le_transitive(a.drop_first(), b.drop_first(), c.drop_first());
    }
}

pub proof fn lemma_lex_le_total(a: Seq<u8>, b: Seq<u8>)
    ensures
        lex_le(a, b) || lex_le(b, a),
    decreases a.len(),
{
    if a.len() > 0 && b.len() > 0 && a[0] == b[0] {
        lemma_lex_le_total(a.drop_first(), b.drop_first());
    }
}

/// Whether `needle` stands in `hay` at offset `at`.
pub fn bytes_match_at(hay: &[u8], needle: &[u8], at: usize) -> (found: bool)
    ensures
        found == occurs_at(needle@, hay@, at as int),
{
    let size: usize = hay.len();
    if at > size || needle.len() > size - at {
        return false;
    }
    let mut j: usize = 0;
    while j < needle.len()
        invariant
            j <= needle@.len(),
            at + needle@.len() <= hay@.len(),
            size == hay@.len(),
            forall|k: int| 0 <= k < j ==> hay@[at + k] == needle@[k],
        decreases needle@.len() - j,
    {
        if hay[at + j] != needle[j] {
            proof {
                assert(hay@.subrange(at as int, at + needle@.len())[j as int] != needle@[j as int]);
            }
            return false;
        }
        j += 1;
    }
    proof {
        assert(hay@.subrange(at as int, at + needle@.len()) =~= needle@);
    }
    true
}

/// Whether `needle` is a contiguous part of `hay`.
pub fn bytes_contain(hay: &[u8], needle: &[u8]) -> (found: bool)
    ensures
        found == is_infix(needle@, hay@),
{
    if needle.len() > hay.len() {
        return false;
    }
    let last: usize = hay.len() - needle.len();
    let mut at: usize = 0;
    while at < last
        invariant
            at <= last,
            last + needle@.len() == hay@.len(),
            forall|k: int| 0 <= k < at ==> !occurs_at(needle@, hay@, k),
        decreases last - at,
    {
        if bytes_match_at(hay, needle, at) {
            return true;
        }
        at += 1;
    }
    bytes_match_at(hay, needle, last)
}

/// Whether `s` ends with `suffix`.
pub fn bytes_end_with(s: &[u8], suffix: &[u8]) -> (found: bool)
    ensures
        found == is_suffix(suffix@, s@),
{
    if suffix.len() > s.len() {
        return false;
    }
    bytes_match_at(s, suffix, s.len() - suffix.len())
}

/// Whether `a` does not come after `b` in the lexicographic order.
pub fn bytes_le(a: &[u8], b: &[u8]) -> (le: bool)
    ensures
        le == lex_le(a@, b@),
{
    let mut i: usize = 0;
    proof {
        assert(a@.skip(0) =~= a@);
        assert(b@.skip(0) =~= b@);
    }
    while i < a.len() && i < b.len()
        invariant
            i <= a@.len(),
            i <= b@.len(),
            lex_le(a@, b@) == lex_le(a@.skip(i as int), b@.skip(i as int)),
        decreases a@.len() - i,
    {
        if a[i] != b[i] {
            return a[i] < b[i];
        }
        proof {
            assert(a@.skip(i as int).drop_first() =~= a@.skip(i + 1));
            assert(b@.skip(i as int).drop_first() =~= b@.skip(i + 1));
        }
        i += 1;
    }
    i == a.len()
}

/// Whether `a` and `b` hold the same bytes.
pub fn bytes_eq(a: &[u8], b: &[u8]) -> (same: bool)
    ensures
        same == (a@ == b@),
{
    if a.len() != b.len() {
        return false;
    }
    let found = bytes_match_at(a, b, 0);
    proof {
        assert(a@.subrange(0, a@.len() as int) =~= a@);
    }
    found
}

/// Whether the text `hay` contains the text `needle`. The empty text is
/// contained in every text.
pub fn contains(hay: &str, needle: &str) -> (found: bool)
    ensures
        found == text_contains(hay@, needle@),
{
    bytes_contain(hay.as_bytes(), needle.as_bytes())
}

/// Whether the text `s` ends with the text `suffix`.
pub fn ends_with(s: &str, suffix: &str) -> (found: bool)
    ensures
        found == text_ends_with(s@, suffix@),
{
    bytes_end_with(s.as_bytes(), suffix.as_bytes())
}

/// Whether the text `a` does not come after the text `b`.
pub fn le(a: &str, b: &str) -> (le: bool)
    ensures
        le == text_le(a@, b@),
{
    bytes_le(a.as_bytes(), b.as_bytes())
}

/// Whether `a` and `b` are the same text.
pub fn eq(a: &str, b: &str) -> (same: bool)
    ensures
        same == (a@ == b@),
{
    let same = bytes_eq(a.as_bytes(), b.as_bytes());
    proof {
        if same {
            lemma_encoding_injective(a@, b@);
        }
    }
    same
}

} // verus!
