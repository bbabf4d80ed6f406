//! First-occurrence search for a byte pattern in a byte sequence, with the
//! executable scanners the codec uses and the lemmas that pin down where the
//! first occurrence lies.

use vstd::prelude::*;

verus! {

/// The pattern `pat` occurs in `s` starting at position `i`.
pub open spec fn is_match_at(s: Seq<u8>, pat: Seq<u8>, i: int) -> bool {
    0 <= i && i + pat.len() <= s.len() && s.subrange(i, i + pat.len() as int) == pat
}

/// Position of the first occurrence of `pat` in `s` at or after position `i`.
pub open spec fn find_from(s: Seq<u8>, pat: Seq<u8>, i: int) -> Option<int>
    decreases s.len() - i,
{
    if pat.len() <= 0 || i < 0 || i + pat.len() > s.len() {
        None
    } else if is_match_at(s, pat, i) {
        Some(i)
    } else {
        find_from(s, pat, i + 1)
    }
}

pub open spec fn crlf() -> Seq<u8> {
    seq![13u8, 10u8]
}

pub open spec fn crlfcrlf() -> Seq<u8> {
    seq![13u8, 10u8, 13u8, 10u8]
}

/// A match pins each byte of `s` under it to the pattern's byte.
pub proof fn lemma_match_index(s: Seq<u8>, pat: Seq<u8>, i: int, k: int)
    requires
        is_match_at(s, pat, i),
        0 <= k < pat.len(),
    ensures
        s[i + k] == pat[k],
{
    assert(s.subrange(i, i + pat.len() as int)[k] == s[i + k]);
}

/// Searching over a stretch with no occurrence does not change the result.
pub proof fn lemma_find_skip(s: Seq<u8>, pat: Seq<u8>, i: int, j: int)
    requires
        0 <= i <= j,
        forall|k: int| i <= k < j ==> !is_match_at(s, pat, k),
    ensures
        find_from(s, pat, i) == find_from(s, pat, j),
    decreases j - i,
{
    if i < j {
        assert(!is_match_at(s, pat, i));
        lemma_find_skip(s, pat, i + 1, j);
    }
}

/// An occurrence at `k` with none before it is the first occurrence.
pub proof fn lemma_find_first(s: Seq<u8>, pat: Seq<u8>, i: int, k: int)
    requires
        0 <= i <= k,
        pat.len() > 0,
        is_match_at(s, pat, k),
        forall|j: int| i <= j < k ==> !is_match_at(s, pat, j),
    ensures
        find_from(s, pat, i) == Some(k),
{
    lemma_find_skip(s, pat, i, k);
}

/// Scan for the first CRLF at or after `from`.
pub fn find_crlf(buf: &Vec<u8>, from: usize) -> (r: Option<usize>)
    requires
        from <= buf.len(),
    ensures
        (match r {
            Some(k) => find_from(buf@, crlf(), from as int) == Some(k as int) && from <= k && k + 2
                <= buf.len(),
            None => find_from(buf@, crlf(), from as int) is None,
        }),
{
    let mut i = from;
    while i < buf.len() && buf.len() - i >= 2
        invariant
            from <= i <= buf.len(),
            forall|k: int| from <= k < i ==> !is_match_at(buf@, crlf(), k),
        decreases buf.len() - i,
    {
        if buf[i] == 13 && buf[i + 1] == 10 {
            proof {
                assert(buf@.subrange(i as int, i + 2) =~= crlf());
                lemma_find_first(buf@, crlf(), from as int, i as int);
            }
            return Some(i);
        }
        proof {
            if is_match_at(buf@, crlf(), i as int) {
                lemma_match_index(buf@, crlf(), i as int, 0);
                lemma_match_index(buf@, crlf(), i as int, 1);
            }
        }
        i = i + 1;
    }
    proof {
        assert forall|k: int| from <= k < buf@.len() implies !is_match_at(buf@, crlf(), k) by {
            if k >= i {
                assert(k + 2 > buf@.len());
            }
        }
        lemma_find_skip(buf@, crlf(), from as int, buf@.len() as int);
    }
    None
}

/// Scan for the first CRLFCRLF (the blank line ending a header block).
pub fn find_crlfcrlf(buf: &Vec<u8>, from: usize) -> (r: Option<usize>)
    requires
        from <= buf.len(),
    ensures
        (match r {
            Some(k) => find_from(buf@, crlfcrlf(), from as int) == Some(k as int) && from <= k && k
                + 4 <= buf.len(),
            None => find_from(buf@, crlfcrlf(), from as int) is None,
        }),
{
    let mut i = from;
    while i < buf.len() && buf.len() - i >= 4
        invariant
            from <= i <= buf.len(),
            forall|k: int| from <= k < i ==> !is_match_at(buf@, crlfcrlf(), k),
        decreases buf.len() - i,
    {
        if buf[i] == 13 && buf[i + 1] == 10 && buf[i + 2] == 13 && buf[i + 3] == 10 {
            proof {
                assert(buf@.subrange(i as int, i + 4) =~= crlfcrlf());
                lemma_find_first(buf@, crlfcrlf(), from as int, i as int);
            }
            return Some(i);
        }
        proof {
            if is_match_at(buf@, crlfcrlf(), i as int) {
                lemma_match_index(buf@, crlfcrlf(), i as int, 0);
                lemma_match_index(buf@, crlfcrlf(), i as int, 1);
                lemma_match_index(buf@, crlfcrlf(), i as int, 2);
                lemma_match_index(buf@, crlfcrlf(), i as int, 3);
            }
        }
        i = i + 1;
    }
    proof {
        assert forall|k: int| from <= k < buf@.len() implies !is_match_at(buf@, crlfcrlf(), k) by {
            if k >= i {
                assert(k + 4 > buf@.len());
            }
        }
        lemma_find_skip(buf@, crlfcrlf(), from as int, buf@.len() as int);
    }
    None
}

/// Scan for the first occurrence of the single byte `b` at or after `from`.
pub fn find_byte(buf: &Vec<u8>, b: u8, from: usize) -> (r: Option<usize>)
    requires
        from <= buf.len(),
    ensures
        (match r {
            Some(k) => find_from(buf@, seq![b], from as int) == Some(k as int) && from <= k && k
                < buf.len(),
            None => find_from(buf@, seq![b], from as int) is None,
        }),
{
    let mut i = from;
    while i < buf.len()
        invariant
            from <= i <= buf.len(),
            forall|k: int| from <= k < i ==> !is_match_at(buf@, seq![b], k),
        decreases buf.len() - i,
    {
        if buf[i] == b {
            proof {
                assert(buf@.subrange(i as int, i + 1) =~= seq![b]);
                lemma_find_first(buf@, seq![b], from as int, i as int);
            }
            return Some(i);
        }
        proof {
            if is_match_at(buf@, seq![b], i as int) {
                lemma_match_index(buf@, seq![b], i as int, 0);
            }
        }
        i = i + 1;
    }
    proof {
        lemma_find_skip(buf@, seq![b], from as int, buf@.len() as int);
    }
    None
}

/// Copy the bytes of `buf` in `[a, b)` into a fresh vector.
pub fn copy_range(buf: &Vec<u8>, a: usize, b: usize) -> (v: Vec<u8>)
    requires
        a <= b <= buf.len(),
    ensures
        v@ == buf@.subrange(a as int, b as int),
{
    let mut v: Vec<u8> = Vec::new();
    let mut i = a;
    while i < b
        invariant
            a <= i <= b <= buf.len(),
            v@ == buf@.subrange(a as int, i as int),
        decreases b - i,
    {
        v.push(buf[i]);
        proof {
            assert(v@ =~= buf@.subrange(a as int, i + 1));
        }
        i = i + 1;
    }
    v
}

} // verus!
