//! Searching a byte string for a delimiter.

use vstd::prelude::*;

verus! {

/// A single space.
pub open spec fn space() -> Seq<u8> {
    seq![32u8]
}

/// A single colon.
pub open spec fn colon() -> Seq<u8> {
    seq![58u8]
}

/// The line end CRLF.
pub open spec fn crlf() -> Seq<u8> {
    seq![13u8, 10u8]
}

/// The empty line that ends a request head: CRLF twice.
pub open spec fn blank_line() -> Seq<u8> {
    seq![13u8, 10u8, 13u8, 10u8]
}

/// `pat` stands in `s` at offset `i`.
pub open spec fn occurs_at(s: Seq<u8>, pat: Seq<u8>, i: int) -> bool {
    0 <= i && i + pat.len() <= s.len() && s.subrange(i, i + pat.len()) == pat
}

/// `i` is the least offset at which `pat` stands in `s`.
pub open spec fn first_at(s: Seq<u8>, pat: Seq<u8>, i: int) -> bool {
    occurs_at(s, pat, i) && forall|j: int| 0 <= j < i ==> !occurs_at(s, pat, j)
}

/// `pat` stands nowhere in `s`.
pub open spec fn absent(s: Seq<u8>, pat: Seq<u8>) -> bool {
    forall|j: int| !occurs_at(s, pat, j)
}

/// The least offset at which `pat` stands in `s`, if there is one.
pub open spec fn first_occurrence(s: Seq<u8>, pat: Seq<u8>) -> Option<int> {
    if exists|i: int| first_at(s, pat, i) {
        Some(choose|i: int| first_at(s, pat, i))
    } else {
        None
    }
}

/// A least offset is the first occurrence.
pub proof fn lemma_first_is(s: Seq<u8>, pat: Seq<u8>, i: int)
    requires
        first_at(s, pat, i),
    ensures
        first_occurrence(s, pat) == Some(i),
{
    let c = choose|k: int| first_at(s, pat, k);
    assert(first_at(s, pat, c));
    if c < i {
        assert(!occurs_at(s, pat, c));
    } else if i < c {
        assert(!occurs_at(s, pat, i));
    }
}

/// Without any occurrence there is no first one.
pub proof fn lemma_absent_is_none(s: Seq<u8>, pat: Seq<u8>)
    requires
        absent(s, pat),
    ensures
        first_occurrence(s, pat) is None,
{
    assert forall|i: int| !first_at(s, pat, i) by {
        assert(!occurs_at(s, pat, i));
    }
}

/// What `first_occurrence` returns, unfolded.
pub proof fn lemma_first_occurrence(s: Seq<u8>, pat: Seq<u8>)
    ensures
        match first_occurrence(s, pat) {
            Some(i) => first_at(s, pat, i),
            None => absent(s, pat),
        },
{
    if exists|i: int| first_at(s, pat, i) {
    } else {
        assert forall|j: int| !occurs_at(s, pat, j) by {
            if occurs_at(s, pat, j) {
                lemma_least_exists(s, pat, j);
            }
        }
    }
}

proof fn lemma_least_exists(s: Seq<u8>, pat: Seq<u8>, j: int)
    requires
        occurs_at(s, pat, j),
    ensures
        exists|i: int| first_at(s, pat, i),
    decreases j,
{
    if forall|k: int| 0 <= k < j ==> !occurs_at(s, pat, k) {
        assert(first_at(s, pat, j));
    } else {
        let k = choose|k: int| 0 <= k < j && occurs_at(s, pat, k);
        lemma_least_exists(s, pat, k);
    }
}

/// Bytes that follow do not move the first occurrence.
pub proof fn lemma_first_stable(s: Seq<u8>, t: Seq<u8>, pat: Seq<u8>, i: int)
    requires
        first_at(s, pat, i),
    ensures
        first_at(s + t, pat, i),
{
    assert((s + t).subrange(i, i + pat.len()) =~= s.subrange(i, i + pat.len()));
    assert forall|j: int| 0 <= j < i implies !occurs_at(s + t, pat, j) by {
        assert((s + t).subrange(j, j + pat.len()) =~= s.subrange(j, j + pat.len()));
        assert(!occurs_at(s, pat, j));
    }
}

/// A prefix that ends before the first occurrence is complete holds none.
pub proof fn lemma_cut_short(s: Seq<u8>, pat: Seq<u8>, i: int, k: int)
    requires
        first_at(s, pat, i),
        0 <= k < i + pat.len(),
        k <= s.len(),
    ensures
        absent(s.take(k), pat),
{
    assert forall|j: int| !occurs_at(s.take(k), pat, j) by {
        if occurs_at(s.take(k), pat, j) {
            assert(s.take(k).subrange(j, j + pat.len()) =~= s.subrange(j, j + pat.len()));
            assert(occurs_at(s, pat, j));
        }
    }
}

/// A prefix that holds the first occurrence whole has it as its first too.
pub proof fn lemma_first_in_prefix(s: Seq<u8>, pat: Seq<u8>, i: int, k: int)
    requires
        first_at(s, pat, i),
        i + pat.len() <= k <= s.len(),
    ensures
        first_at(s.take(k), pat, i),
{
    assert(s.take(k).subrange(i, i + pat.len()) =~= s.subrange(i, i + pat.len()));
    assert forall|j: int| 0 <= j < i implies !occurs_at(s.take(k), pat, j) by {
        assert(s.take(k).subrange(j, j + pat.len()) =~= s.subrange(j, j + pat.len()));
        assert(!occurs_at(s, pat, j));
    }
}

/// Behind a part that holds no byte `b`, the first `b` is the one that
/// follows the part.
pub proof fn lemma_byte_ends(part: Seq<u8>, b: u8, tail: Seq<u8>)
    requires
        absent(part, seq![b]),
    ensures
        first_at(part + seq![b] + tail, seq![b], part.len() as int),
        (part + seq![b] + tail).take(part.len() as int) == part,
        (part + seq![b] + tail).skip(part.len() as int + 1) == tail,
{
    let s = part + seq![b] + tail;
    let n = part.len() as int;
    assert(s.subrange(n, n + 1) =~= seq![b]);
    assert forall|j: int| 0 <= j < n implies !occurs_at(s, seq![b], j) by {
        if occurs_at(s, seq![b], j) {
            assert(part.subrange(j, j + 1) =~= s.subrange(j, j + 1));
            assert(occurs_at(part, seq![b], j));
        }
    }
    assert(s.take(n) =~= part);
    assert(s.skip(n + 1) =~= tail);
}

/// Behind a part that holds no CRLF, the first CRLF is the one that follows
/// the part.
pub proof fn lemma_crlf_ends(part: Seq<u8>, tail: Seq<u8>)
    requires
        absent(part, crlf()),
    ensures
        first_at(part + crlf() + tail, crlf(), part.len() as int),
        (part + crlf() + tail).take(part.len() as int) == part,
        (part + crlf() + tail).skip(part.len() as int + 2) == tail,
{
    let s = part + crlf() + tail;
    let n = part.len() as int;
    assert(s.subrange(n, n + 2) =~= crlf());
    assert forall|j: int| 0 <= j < n implies !occurs_at(s, crlf(), j) by {
        if occurs_at(s, crlf(), j) {
            let sub = s.subrange(j, j + 2);
            assert(sub[0] == 13 && sub[1] == 10);
            if j + 2 <= n {
                assert(part.subrange(j, j + 2) =~= crlf());
                assert(occurs_at(part, crlf(), j));
            } else {
                assert(s[j + 1] == 13);
            }
        }
    }
    assert(s.take(n) =~= part);
    assert(s.skip(n + 2) =~= tail);
}

/// Behind lines that end with CRLF and hold no empty line, the first empty
/// line is made by the CRLF that follows them.
pub proof fn lemma_blank_line_ends(lines: Seq<u8>, tail: Seq<u8>)
    requires
        absent(lines, blank_line()),
        lines.len() >= 2,
        lines.skip(lines.len() - 2) == crlf(),
    ensures
        first_at(lines + crlf() + tail, blank_line(), lines.len() - 2),
{
    let s = lines + crlf() + tail;
    let n = lines.len() as int;
    let end = lines.skip(n - 2);
    assert(end[0] == 13 && end[1] == 10);
    assert(lines[n - 2] == 13 && lines[n - 1] == 10);
    assert(s.subrange(n - 2, n + 2) =~= blank_line());
    assert forall|j: int| 0 <= j < n - 2 implies !occurs_at(s, blank_line(), j) by {
        if occurs_at(s, blank_line(), j) {
            let sub = s.subrange(j, j + 4);
            assert(sub[0] == 13 && sub[1] == 10 && sub[2] == 13 && sub[3] == 10);
            if j + 4 <= n {
                assert(lines.subrange(j, j + 4) =~= blank_line());
                assert(occurs_at(lines, blank_line(), j));
            } else {
                assert(s[j + 1] == lines[n - 2]);
            }
        }
    }
}

/// A part of a string without occurrence holds none either.
pub proof fn lemma_absent_part(s: Seq<u8>, pat: Seq<u8>, from: int, to: int)
    requires
        absent(s, pat),
        0 <= from <= to <= s.len(),
    ensures
        absent(s.subrange(from, to), pat),
{
    let part = s.subrange(from, to);
    assert forall|j: int| !occurs_at(part, pat, j) by {
        if occurs_at(part, pat, j) {
            assert(part.subrange(j, j + pat.len()) =~= s.subrange(from + j, from + j + pat.len()));
            assert(occurs_at(s, pat, from + j));
        }
    }
}

/// Whether `needle` stands in `haystack` at offset `at`.
pub fn matches_at(haystack: &[u8], needle: &[u8], at: usize) -> (r: bool)
    requires
        at + needle@.len() <= haystack@.len(),
    ensures
        r == occurs_at(haystack@, needle@, at as int),
{
    let h: usize = haystack.len();
    let n: usize = needle.len();
    let mut k: usize = 0;
    while k < n
        invariant
            n == needle@.len(),
            h == haystack@.len(),
            at + n <= h,
            k <= n,
            forall|j: int| 0 <= j < k ==> haystack@[at + j] == needle@[j],
        decreases n - k,
    {
        if haystack[at + k] != needle[k] {
            proof {
                let sub = haystack@.subrange(at as int, at + n);
                assert(sub[k as int] == haystack@[at + k]);
            }
            return false;
        }
        k += 1;
    }
    proof {
        assert(haystack@.subrange(at as int, at + n) =~= needle@);
    }
    true
}

/// The offset of the first occurrence of `needle` in `haystack`.
pub fn find(haystack: &[u8], needle: &[u8]) -> (r: Option<usize>)
    ensures
        match r {
            Some(i) => first_occurrence(haystack@, needle@) == Some(i as int),
            None => first_occurrence(haystack@, needle@) is None,
        },
{
    let h: usize = haystack.len();
    let n: usize = needle.len();
    if n > h {
        proof {
            lemma_absent_is_none(haystack@, needle@);
        }
        return None;
    }
    let last: usize = h - n;
    let mut i: usize = 0;
    loop
        invariant
            h == haystack@.len(),
            n == needle@.len(),
            n <= h,
            last == h - n,
            i <= last,
            forall|j: int| 0 <= j < i ==> !occurs_at(haystack@, needle@, j),
        decreases last - i,
    {
        if matches_at(haystack, needle, i) {
            proof {
                lemma_first_is(haystack@, needle@, i as int);
            }
            return Some(i);
        }
        if i == last {
            proof {
                lemma_absent_is_none(haystack@, needle@);
            }
            return None;
        }
        i += 1;
    }
}

} // verus!
