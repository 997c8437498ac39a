//! Byte-sequence searching: the mathematical model of "first occurrence",
//! trusted wrappers over memchr's searchers, and verified helpers that
//! search a suffix of a buffer.

use vstd::prelude::*;

verus! {

/// True when `pat` occurs in `hay` starting at index `i`.
pub open spec fn match_at(hay: Seq<u8>, pat: Seq<u8>, i: int) -> bool {
    0 <= i && i + pat.len() <= hay.len() && hay.subrange(i, i + pat.len() as int) == pat
}

/// Index of the first occurrence of byte `b` in `hay` at or after `from`.
pub open spec fn find_byte_from(hay: Seq<u8>, b: u8, from: int) -> Option<int>
    decreases hay.len() - from when from >= 0
{
    if from >= hay.len() {
        None
    } else if hay[from] == b {
        Some(from)
    } else {
        find_byte_from(hay, b, from + 1)
    }
}

/// Index of the last occurrence of byte `b` in `hay` before index `end`.
pub open spec fn rfind_byte_before(hay: Seq<u8>, b: u8, end: int) -> Option<int>
    decreases end when end <= hay.len()
{
    if end <= 0 {
        None
    } else if hay[end - 1] == b {
        Some(end - 1)
    } else {
        rfind_byte_before(hay, b, end - 1)
    }
}

/// Index of the first occurrence of `pat` in `hay` at or after `from`.
pub open spec fn find_sub_from(hay: Seq<u8>, pat: Seq<u8>, from: int) -> Option<int>
    decreases hay.len() + 1 - from when from >= 0
{
    if from + pat.len() > hay.len() {
        None
    } else if match_at(hay, pat, from) {
        Some(from)
    } else {
        find_sub_from(hay, pat, from + 1)
    }
}

pub open spec fn as_usize_opt(o: Option<int>) -> Option<usize> {
    match o {
        Some(i) => Some(i as usize),
        None => None,
    }
}

/// What `find_byte_from` returns, spelled out.
pub proof fn lemma_find_byte_from(hay: Seq<u8>, b: u8, from: int)
    requires
        0 <= from <= hay.len(),
    ensures
        match find_byte_from(hay, b, from) {
            Some(i) => from <= i < hay.len() && hay[i] == b && (forall|j: int|
                from <= j < i ==> hay[j] != b),
            None => forall|j: int| from <= j < hay.len() ==> hay[j] != b,
        },
    decreases hay.len() - from,
{
    if from >= hay.len() {
    } else if hay[from] == b {
    } else {
        lemma_find_byte_from(hay, b, from + 1);
    }
}

/// What `rfind_byte_before` returns, spelled out.
pub proof fn lemma_rfind_byte_before(hay: Seq<u8>, b: u8, end: int)
    requires
        0 <= end <= hay.len(),
    ensures
        match rfind_byte_before(hay, b, end) {
            Some(i) => 0 <= i < end && hay[i] == b && (forall|j: int|
                i < j < end ==> hay[j] != b),
            None => forall|j: int| 0 <= j < end ==> hay[j] != b,
        },
    decreases end,
{
    if end <= 0 {
    } else if hay[end - 1] == b {
    } else {
        lemma_rfind_byte_before(hay, b, end - 1);
    }
}

/// What `find_sub_from` returns, spelled out.
pub proof fn lemma_find_sub_from(hay: Seq<u8>, pat: Seq<u8>, from: int)
    requires
        0 <= from,
    ensures
        match find_sub_from(hay, pat, from) {
            Some(i) => from <= i && match_at(hay, pat, i) && (forall|j: int|
                from <= j < i ==> !match_at(hay, pat, j)),
            None => forall|j: int| from <= j ==> !match_at(hay, pat, j),
        },
    decreases hay.len() + 1 - from,
{
    if from + pat.len() > hay.len() {
        assert forall|j: int| from <= j implies !match_at(hay, pat, j) by {
            if j + pat.len() <= hay.len() {
                assert(j < from);
            }
        }
    } else if match_at(hay, pat, from) {
    } else {
        lemma_find_sub_from(hay, pat, from + 1);
    }
}

/// Searching a suffix finds the same occurrences, shifted.
pub proof fn lemma_find_byte_shift(hay: Seq<u8>, b: u8, from: int)
    requires
        0 <= from <= hay.len(),
    ensures
        find_byte_from(hay, b, from) == (match find_byte_from(
            hay.subrange(from, hay.len() as int),
            b,
            0,
        ) {
            Some(i) => Some(i + from),
            None => None::<int>,
        }),
{
    let tail = hay.subrange(from, hay.len() as int);
    lemma_find_byte_from(hay, b, from);
    lemma_find_byte_from(tail, b, 0);
    match find_byte_from(tail, b, 0) {
        Some(i) => {
            assert(hay[i + from] == b);
            match find_byte_from(hay, b, from) {
                Some(k) => {
                    assert(tail[k - from] == b);
                    assert(k <= i + from);
                    assert(i + from <= k);
                },
                None => {
                    assert(hay[i + from] == b);
                    assert(false);
                },
            }
        },
        None => {
            match find_byte_from(hay, b, from) {
                Some(k) => {
                    assert(tail[k - from] == b);
                    assert(false);
                },
                None => {},
            }
        },
    }
}

/// Searching a suffix finds the same sub-sequence occurrences, shifted.
pub proof fn lemma_find_sub_shift(hay: Seq<u8>, pat: Seq<u8>, from: int)
    requires
        0 <= from <= hay.len(),
    ensures
        find_sub_from(hay, pat, from) == (match find_sub_from(
            hay.subrange(from, hay.len() as int),
            pat,
            0,
        ) {
            Some(i) => Some(i + from),
            None => None::<int>,
        }),
{
    let tail = hay.subrange(from, hay.len() as int);
    lemma_find_sub_from(hay, pat, from);
    lemma_find_sub_from(tail, pat, 0);
    assert forall|i: int| 0 <= i implies match_at(tail, pat, i) == match_at(
        hay,
        pat,
        i + from,
    ) by {
        if i + pat.len() <= tail.len() {
            assert(tail.subrange(i, i + pat.len() as int) =~= hay.subrange(
                i + from,
                i + from + pat.len() as int,
            ));
        }
    }
    match find_sub_from(tail, pat, 0) {
        Some(i) => {
            assert(match_at(hay, pat, i + from));
            match find_sub_from(hay, pat, from) {
                Some(k) => {
                    assert(match_at(tail, pat, k - from));
                    assert(k <= i + from);
                    assert(i + from <= k);
                },
                None => {
                    assert(false);
                },
            }
        },
        None => {
            match find_sub_from(hay, pat, from) {
                Some(k) => {
                    assert(match_at(tail, pat, k - from));
                    assert(false);
                },
                None => {},
            }
        },
    }
}

/// Relies on memchr::memchr: index of the first occurrence of `needle` in `hay`.
#[verifier::external_body]
pub(crate) fn find_byte(hay: &[u8], needle: u8) -> (r: Option<usize>)
    ensures
        r == as_usize_opt(find_byte_from(hay@, needle, 0)),
{
    memchr::memchr(needle, hay)
}

/// Relies on memchr::memrchr: index of the last occurrence of `needle` in `hay`.
#[verifier::external_body]
pub(crate) fn rfind_byte(hay: &[u8], needle: u8) -> (r: Option<usize>)
    ensures
        r == as_usize_opt(rfind_byte_before(hay@, needle, hay@.len() as int)),
{
    memchr::memrchr(needle, hay)
}

/// Relies on memchr::memmem::find: index of the first occurrence of the
/// byte sequence `needle` in `hay`.
#[verifier::external_body]
pub(crate) fn find_sub(hay: &[u8], needle: &[u8]) -> (r: Option<usize>)
    ensures
        r == as_usize_opt(find_sub_from(hay@, needle@, 0)),
{
    memchr::memmem::find(hay, needle)
}

/// First occurrence of `needle` in `data` at or after `from`.
pub fn find_byte_at(data: &[u8], needle: u8, from: usize) -> (r: Option<usize>)
    requires
        from <= data@.len(),
    ensures
        r == as_usize_opt(find_byte_from(data@, needle, from as int)),
{
    proof {
        lemma_find_byte_shift(data@, needle, from as int);
        lemma_find_byte_from(data@, needle, from as int);
    }
    match find_byte(&data[from..data.len()], needle) {
        Some(i) => Some(from + i),
        None => None,
    }
}

/// First occurrence of the sequence `needle` in `data` at or after `from`.
pub fn find_sub_at(data: &[u8], needle: &[u8], from: usize) -> (r: Option<usize>)
    requires
        from <= data@.len(),
    ensures
        r == as_usize_opt(find_sub_from(data@, needle@, from as int)),
{
    proof {
        lemma_find_sub_shift(data@, needle@, from as int);
        lemma_find_sub_from(data@, needle@, from as int);
    }
    match find_sub(&data[from..data.len()], needle) {
        Some(i) => Some(from + i),
        None => None,
    }
}

/// Whether `pat` occurs in `data` at position `at`, by direct comparison.
pub fn starts_with_at(data: &[u8], pat: &[u8], at: usize) -> (r: bool)
    requires
        at <= data@.len(),
    ensures
        r == match_at(data@, pat@, at as int),
{
    if pat.len() > data.len() - at {
        assert(!match_at(data@, pat@, at as int));
        return false;
    }
    let n = data.len();
    let mut i: usize = 0;
    while i < pat.len()
        invariant
            at + pat@.len() <= data@.len(),
            data@.len() == n,
            i <= pat@.len(),
            forall|j: int| 0 <= j < i ==> data@[at + j] == pat@[j],
        decreases pat@.len() - i,
    {
        if data[at + i] != pat[i] {
            assert(data@.subrange(at as int, at + pat@.len())[i as int] != pat@[i as int]);
            return false;
        }
        i = i + 1;
    }
    assert(data@.subrange(at as int, at + pat@.len()) =~= pat@);
    true
}

} // verus!
