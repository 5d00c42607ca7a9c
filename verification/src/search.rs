//! Delimiter search: given a byte region, find the position one past the
//! last occurrence of the delimiter (a single byte, or a byte sequence).

use vstd::prelude::*;

verus! {

/// True when the byte `b` occurs somewhere in `s`.
pub open spec fn has_byte(s: Seq<u8>, b: u8) -> bool {
    exists|i: int| 0 <= i < s.len() && s[i] == b
}

/// One past the last occurrence of `b` in `s`; 0 when `b` does not occur.
pub open spec fn last_byte_end(s: Seq<u8>, b: u8) -> int
    decreases s.len(),
{
    if s.len() == 0 {
        0
    } else if s[s.len() - 1] == b {
        s.len() as int
    } else {
        last_byte_end(s.take(s.len() - 1), b)
    }
}

/// Where a region splits after a read: one past the last occurrence of the
/// delimiter byte, or the whole region when the delimiter does not occur.
pub open spec fn byte_split(region: Seq<u8>, b: u8) -> int {
    if has_byte(region, b) {
        last_byte_end(region, b)
    } else {
        region.len() as int
    }
}

/// `last_byte_end` points just past an occurrence of `b`, and no occurrence
/// follows it.
pub proof fn lemma_last_byte_end(s: Seq<u8>, b: u8)
    ensures
        0 <= last_byte_end(s, b) <= s.len(),
        has_byte(s, b) <==> last_byte_end(s, b) > 0,
        last_byte_end(s, b) > 0 ==> s[last_byte_end(s, b) - 1] == b,
        forall|k: int| last_byte_end(s, b) <= k < s.len() ==> s[k] != b,
    decreases s.len(),
{
    if s.len() == 0 {
        assert(!has_byte(s, b));
    } else if s[s.len() - 1] == b {
        assert(has_byte(s, b));
    } else {
        let t = s.take(s.len() - 1);
        lemma_last_byte_end(t, b);
        assert(forall|k: int| 0 <= k < t.len() ==> t[k] == s[k]);
        if has_byte(s, b) {
            let i = choose|i: int| 0 <= i < s.len() && s[i] == b;
            assert(t[i] == b);
            assert(has_byte(t, b));
        }
        if has_byte(t, b) {
            let i = choose|i: int| 0 <= i < t.len() && t[i] == b;
            assert(s[i] == b);
            assert(has_byte(s, b));
        }
    }
}

/// An occurrence of `b` at `i` with none after it pins `last_byte_end` to
/// `i + 1`.
pub proof fn lemma_last_byte_end_unique(s: Seq<u8>, b: u8, i: int)
    requires
        0 <= i < s.len(),
        s[i] == b,
        forall|k: int| i < k < s.len() ==> s[k] != b,
    ensures
        last_byte_end(s, b) == i + 1,
{
    lemma_last_byte_end(s, b);
    assert(has_byte(s, b));
    let e = last_byte_end(s, b);
    if e - 1 < i {
        assert(s[i] != b);
    }
    if e - 1 > i {
        assert(s[e - 1] != b);
    }
}

/// True when `needle` occurs in `hay` starting at index `i`.
pub open spec fn seq_at(hay: Seq<u8>, needle: Seq<u8>, i: int) -> bool {
    0 <= i && i + needle.len() <= hay.len() && hay.subrange(i, i + needle.len()) == needle
}

/// True when `needle` occurs somewhere in `hay`.
pub open spec fn has_seq(hay: Seq<u8>, needle: Seq<u8>) -> bool {
    exists|i: int| seq_at(hay, needle, i)
}

/// One past the last occurrence of `needle` in `hay`; 0 when `needle` does
/// not occur (or is empty).
pub open spec fn last_seq_end(hay: Seq<u8>, needle: Seq<u8>) -> int
    decreases hay.len(),
{
    if needle.len() == 0 || hay.len() < needle.len() {
        0
    } else if seq_at(hay, needle, hay.len() - needle.len()) {
        hay.len() as int
    } else {
        last_seq_end(hay.take(hay.len() - 1), needle)
    }
}

/// Where a region splits after a read: one past the last occurrence of the
/// delimiter sequence, or the whole region when it does not occur.
pub open spec fn seq_split(region: Seq<u8>, needle: Seq<u8>) -> int {
    if has_seq(region, needle) {
        last_seq_end(region, needle)
    } else {
        region.len() as int
    }
}

/// `last_seq_end` points just past an occurrence of `needle`, and no
/// occurrence starts after that one.
pub proof fn lemma_last_seq_end(hay: Seq<u8>, needle: Seq<u8>)
    requires
        needle.len() > 0,
    ensures
        0 <= last_seq_end(hay, needle) <= hay.len(),
        has_seq(hay, needle) <==> last_seq_end(hay, needle) > 0,
        last_seq_end(hay, needle) > 0 ==> last_seq_end(hay, needle) >= needle.len()
            && seq_at(hay, needle, last_seq_end(hay, needle) - needle.len()),
        forall|k: int|
            last_seq_end(hay, needle) - needle.len() < k ==> !seq_at(hay, needle, k),
    decreases hay.len(),
{
    if hay.len() < needle.len() {
        assert forall|k: int| !seq_at(hay, needle, k) by {}
    } else if seq_at(hay, needle, hay.len() - needle.len()) {
        assert(has_seq(hay, needle));
        assert forall|k: int| hay.len() - needle.len() < k implies !seq_at(hay, needle, k) by {}
    } else {
        let t = hay.take(hay.len() - 1);
        lemma_last_seq_end(t, needle);
        assert forall|k: int| seq_at(t, needle, k) implies seq_at(hay, needle, k) by {
            assert(hay.subrange(k, k + needle.len()) =~= t.subrange(k, k + needle.len()));
        }
        assert forall|k: int| seq_at(hay, needle, k) && k + needle.len() < hay.len()
            implies seq_at(t, needle, k) by {
            assert(t.subrange(k, k + needle.len()) =~= hay.subrange(k, k + needle.len()));
        }
        if has_seq(hay, needle) {
            let i = choose|i: int| seq_at(hay, needle, i);
            assert(i + needle.len() < hay.len());
            assert(seq_at(t, needle, i));
            assert(has_seq(t, needle));
        }
        if has_seq(t, needle) {
            let i = choose|i: int| seq_at(t, needle, i);
            assert(seq_at(hay, needle, i));
            assert(has_seq(hay, needle));
        }
    }
}

/// An occurrence of `needle` at `i` with none starting after it pins
/// `last_seq_end` to `i + needle.len()`.
pub proof fn lemma_last_seq_end_unique(hay: Seq<u8>, needle: Seq<u8>, i: int)
    requires
        needle.len() > 0,
        seq_at(hay, needle, i),
        forall|k: int| i < k ==> !seq_at(hay, needle, k),
    ensures
        last_seq_end(hay, needle) == i + needle.len(),
{
    lemma_last_seq_end(hay, needle);
    assert(has_seq(hay, needle));
    let j = last_seq_end(hay, needle) - needle.len();
    if j < i {
        assert(!seq_at(hay, needle, i));
    }
    if j > i {
        assert(!seq_at(hay, needle, j));
    }
}

/// Relies on memchr::memrchr: the index of the last occurrence of the byte
/// `needle` in `haystack`, `None` when it does not occur.
#[verifier::external_body]
pub(crate) fn rfind_byte(needle: u8, haystack: &[u8]) -> (r: Option<usize>)
    ensures
        match r {
            Some(i) => i < haystack@.len() && haystack@[i as int] == needle
                && forall|k: int| i < k < haystack@.len() ==> haystack@[k] != needle,
            None => !has_byte(haystack@, needle),
        },
{
    memchr::memrchr(needle, haystack)
}

/// Relies on memchr::memmem::rfind: the start index of the last occurrence
/// of the byte sequence `needle` in `haystack`, `None` when it does not
/// occur.
#[verifier::external_body]
pub(crate) fn rfind_seq(haystack: &[u8], needle: &[u8]) -> (r: Option<usize>)
    requires
        needle@.len() > 0,
    ensures
        match r {
            Some(i) => seq_at(haystack@, needle@, i as int)
                && forall|k: int| i < k ==> !seq_at(haystack@, needle@, k),
            None => !has_seq(haystack@, needle@),
        },
{
    memchr::memmem::rfind(haystack, needle)
}

} // verus!
