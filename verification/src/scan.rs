//! Searching in byte slices.
//!
//! The searches themselves are `memchr`'s; this module states what they
//! return and offers a search that starts at a given position.

use vstd::prelude::*;

verus! {

/// The position of the first `needle` in `b` at or after `from`.
pub open spec fn first_from(b: Seq<u8>, needle: u8, from: int) -> Option<int>
    decreases b.len() - from,
{
    if from < 0 || from >= b.len() {
        None
    } else if b[from] == needle {
        Some(from)
    } else {
        first_from(b, needle, from + 1)
    }
}

/// Whether the first `needle` in `b` at or after `from` stands at `i`.
pub open spec fn is_first(b: Seq<u8>, needle: u8, from: int, i: int) -> bool {
    &&& from <= i < b.len()
    &&& b[i] == needle
    &&& forall|j: int| from <= j < i ==> b[j] != needle
}

/// Whether `part` occurs in `b` at position `i`.
pub open spec fn occurs_at(b: Seq<u8>, part: Seq<u8>, i: int) -> bool {
    0 <= i && i + part.len() <= b.len() && b.subrange(i, i + part.len()) == part
}

/// `memchr::memchr` returns the index of the first byte equal to `needle`,
/// and `None` exactly when there is no such byte.
pub assume_specification[ memchr::memchr ](needle: u8, haystack: &[u8]) -> (r: Option<usize>)
    ensures
        match r {
            Some(i) => is_first(haystack@, needle, 0, i as int),
            None => !haystack@.contains(needle),
        },
;

/// `memchr::memrchr` returns the index of the last byte equal to `needle`,
/// and `None` exactly when there is no such byte.
pub assume_specification[ memchr::memrchr ](needle: u8, haystack: &[u8]) -> (r: Option<usize>)
    ensures
        match r {
            Some(i) => i < haystack@.len() && haystack@[i as int] == needle && forall|j: int|
                i < j < haystack@.len() ==> haystack@[j] != needle,
            None => !haystack@.contains(needle),
        },
;

/// `memchr::memmem::find` returns the first position at which `needle`
/// occurs, and `None` exactly when it occurs nowhere.
pub assume_specification[ memchr::memmem::find ](haystack: &[u8], needle: &[u8]) -> (r: Option<
    usize,
>)
    ensures
        match r {
            Some(i) => occurs_at(haystack@, needle@, i as int) && forall|j: int|
                0 <= j < i ==> !occurs_at(haystack@, needle@, j),
            None => forall|j: int| !occurs_at(haystack@, needle@, j),
        },
;

/// What `first_from` returns, said without recursion.
pub proof fn lemma_first_from(b: Seq<u8>, needle: u8, from: int)
    requires
        0 <= from,
    ensures
        match first_from(b, needle, from) {
            Some(i) => is_first(b, needle, from, i),
            None => forall|j: int| from <= j < b.len() ==> b[j] != needle,
        },
    decreases b.len() - from,
{
    if from < b.len() && b[from] != needle {
        lemma_first_from(b, needle, from + 1);
    }
}

/// Only the first position counts as the first.
pub proof fn lemma_first_is_found(b: Seq<u8>, needle: u8, from: int, i: int)
    requires
        0 <= from,
        is_first(b, needle, from, i),
    ensures
        first_from(b, needle, from) == Some(i),
    decreases i - from,
{
    if from < i {
        lemma_first_is_found(b, needle, from + 1, i);
    }
}

/// The position of the first `needle` at or after `from`.
pub fn find_byte(buf: &[u8], needle: u8, from: usize) -> (r: Option<usize>)
    requires
        from <= buf@.len(),
    ensures
        match r {
            Some(i) => i < buf.len() && first_from(buf@, needle, from as int) == Some(i as int),
            None => first_from(buf@, needle, from as int) is None,
        },
{
    let tail = &buf[from..buf.len()];
    match memchr::memchr(needle, tail) {
        Some(i) => {
            proof {
                assert forall|j: int| from <= j < from + i implies buf@[j] != needle by {
                    assert(tail@[j - from] != needle);
                }
                lemma_first_is_found(buf@, needle, from as int, from + i);
            }
            Some(from + i)
        },
        None => {
            proof {
                lemma_first_from(buf@, needle, from as int);
                if let Some(i) = first_from(buf@, needle, from as int) {
                    assert(tail@[i - from] == needle);
                }
            }
            None
        },
    }
}

/// Whether `part` occurs in `buf` at position `i`.
pub fn matches_at(buf: &[u8], part: &[u8], i: usize) -> (r: bool)
    ensures
        r == occurs_at(buf@, part@, i as int),
{
    if i > buf.len() || buf.len() - i < part.len() {
        return false;
    }
    let mut k: usize = 0;
    while k < part.len()
        invariant
            k <= part@.len(),
            i + part@.len() <= buf.len(),
            forall|j: int| 0 <= j < k ==> buf@[i + j] == part@[j],
        decreases part@.len() - k,
    {
        if buf[i + k] != part[k] {
            proof {
                if occurs_at(buf@, part@, i as int) {
                    assert(buf@.subrange(i as int, i + part@.len())[k as int] == part@[k as int]);
                }
            }
            return false;
        }
        k = k + 1;
    }
    assert(buf@.subrange(i as int, i + part@.len()) =~= part@);
    true
}

/// Whether two byte strings are the same.
pub fn same_bytes(a: &[u8], b: &[u8]) -> (r: bool)
    ensures
        r == (a@ == b@),
{
    if a.len() != b.len() {
        return false;
    }
    let r = matches_at(a, b, 0);
    assert(a@.subrange(0, a@.len() as int) =~= a@);
    r
}

} // verus!
