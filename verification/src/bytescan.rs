//! Scanning over byte sequences: first occurrence of a pattern,
//! splitting on a separator, and joining with one.  The HTTP codec's
//! exact contracts are stated with these functions.

use vstd::prelude::*;

verus! {

/// The pattern `p` occurs in `b` at position `i`.
pub open spec fn match_at(b: Seq<u8>, p: Seq<u8>, i: int) -> bool {
    0 <= i && i + p.len() <= b.len() && b.subrange(i, i + p.len()) == p
}

/// The first occurrence of `p` in `b` at or after `from`.
pub open spec fn find_at(b: Seq<u8>, p: Seq<u8>, from: int) -> Option<int>
    decreases b.len() - from when 0 <= from && p.len() > 0
{
    if from + p.len() > b.len() {
        None
    } else if b.subrange(from, from + p.len()) == p {
        Some(from)
    } else {
        find_at(b, p, from + 1)
    }
}

pub proof fn lemma_find_at_bounds(b: Seq<u8>, p: Seq<u8>, from: int)
    requires
        0 <= from,
        p.len() > 0,
    ensures
        match find_at(b, p, from) {
            Some(i) => from <= i && i + p.len() <= b.len() && match_at(b, p, i),
            None => true,
        },
    decreases b.len() - from,
{
    if from + p.len() > b.len() {
    } else if b.subrange(from, from + p.len()) == p {
    } else {
        lemma_find_at_bounds(b, p, from + 1);
    }
}

/// What `find_at` returns is the first match: a match where found, and
/// no match anywhere earlier (from `from` on).
pub proof fn lemma_find_at_first(b: Seq<u8>, p: Seq<u8>, from: int, j: int)
    requires
        0 <= from <= j,
        p.len() > 0,
        match find_at(b, p, from) {
            Some(i) => j < i,
            None => true,
        },
    ensures
        !match_at(b, p, j),
    decreases j - from,
{
    if from + p.len() > b.len() {
    } else if b.subrange(from, from + p.len()) == p {
    } else {
        if j > from {
            lemma_find_at_first(b, p, from + 1, j);
        }
    }
}

/// Conversely, a match with nothing earlier is what `find_at` returns.
pub proof fn lemma_find_at_exact(b: Seq<u8>, p: Seq<u8>, from: int, i: int)
    requires
        0 <= from <= i,
        p.len() > 0,
        match_at(b, p, i),
        forall|j: int| from <= j < i ==> !match_at(b, p, j),
    ensures
        find_at(b, p, from) == Some(i),
    decreases i - from,
{
    if i == from {
        assert(find_at(b, p, from) == Some(from));
    } else {
        assert(!match_at(b, p, from));
        lemma_find_at_exact(b, p, from + 1, i);
    }
}

/// When there is no match at or after `from`, `find_at` finds nothing.
pub proof fn lemma_find_at_none(b: Seq<u8>, p: Seq<u8>, from: int)
    requires
        0 <= from,
        p.len() > 0,
        forall|j: int| from <= j ==> !match_at(b, p, j),
    ensures
        find_at(b, p, from) == None::<int>,
    decreases b.len() - from,
{
    if from + p.len() > b.len() {
    } else if b.subrange(from, from + p.len()) == p {
        assert(match_at(b, p, from));
    } else {
        lemma_find_at_none(b, p, from + 1);
    }
}

#[via_fn]
proof fn split_from_decreases(b: Seq<u8>, p: Seq<u8>, pos: int) {
    lemma_find_at_bounds(b, p, pos);
}

/// The pieces of `b.skip(pos)` cut at each occurrence of the separator
/// `p`; the separators themselves are dropped.
pub open spec fn split_from(b: Seq<u8>, p: Seq<u8>, pos: int) -> Seq<Seq<u8>>
    decreases b.len() - pos when 0 <= pos <= b.len() && p.len() > 0 via split_from_decreases
{
    match find_at(b, p, pos) {
        None => seq![b.subrange(pos, b.len() as int)],
        Some(i) => seq![b.subrange(pos, i)] + split_from(b, p, i + p.len()),
    }
}

/// Splitting yields at least one piece.
pub proof fn lemma_split_from_len(b: Seq<u8>, p: Seq<u8>, pos: int)
    requires
        0 <= pos <= b.len(),
        p.len() > 0,
    ensures
        split_from(b, p, pos).len() >= 1,
    decreases b.len() - pos,
{
    lemma_find_at_bounds(b, p, pos);
    match find_at(b, p, pos) {
        None => {},
        Some(i) => {
            lemma_split_from_len(b, p, i + p.len());
        },
    }
}

/// The pieces joined with separator `p` between them.
pub open spec fn join_sep(pieces: Seq<Seq<u8>>, p: Seq<u8>) -> Seq<u8>
    decreases pieces.len(),
{
    if pieces.len() == 0 {
        Seq::empty()
    } else if pieces.len() == 1 {
        pieces[0]
    } else {
        pieces[0] + p + join_sep(pieces.drop_first(), p)
    }
}

/// A match beyond a prefix is a match in the suffix.
pub proof fn lemma_match_shift(a: Seq<u8>, b: Seq<u8>, p: Seq<u8>, k: int)
    requires
        0 <= k,
    ensures
        match_at(a + b, p, a.len() + k) <==> match_at(b, p, k),
{
    let ab = a + b;
    if k + p.len() <= b.len() {
        assert(ab.subrange(a.len() + k, a.len() + k + p.len()) =~= b.subrange(k, k + p.len()));
    }
}

/// Searching past a prefix is searching the suffix.
pub proof fn lemma_find_shift(a: Seq<u8>, b: Seq<u8>, p: Seq<u8>, k: int)
    requires
        0 <= k,
        p.len() > 0,
    ensures
        find_at(a + b, p, a.len() + k) == (match find_at(b, p, k) {
            Some(i) => Some(a.len() + i),
            None => None::<int>,
        }),
    decreases b.len() - k,
{
    let ab = a + b;
    if k + p.len() > b.len() {
        assert(find_at(b, p, k) is None);
        assert(find_at(ab, p, a.len() + k) is None);
    } else {
        lemma_match_shift(a, b, p, k);
        if b.subrange(k, k + p.len()) == p {
            assert(match_at(b, p, k));
            assert(match_at(ab, p, a.len() + k));
            assert(ab.subrange(a.len() + k, a.len() + k + p.len()) == p);
        } else {
            assert(!match_at(b, p, k));
            assert(!match_at(ab, p, a.len() + k));
            assert(ab.subrange(a.len() + k, a.len() + k + p.len()) != p);
            lemma_find_shift(a, b, p, k + 1);
        }
    }
}

/// Splitting past a prefix is splitting the suffix.
pub proof fn lemma_split_shift(a: Seq<u8>, b: Seq<u8>, p: Seq<u8>, k: int)
    requires
        0 <= k <= b.len(),
        p.len() > 0,
    ensures
        split_from(a + b, p, a.len() + k) == split_from(b, p, k),
    decreases b.len() - k,
{
    let ab = a + b;
    lemma_find_shift(a, b, p, k);
    lemma_find_at_bounds(b, p, k);
    match find_at(b, p, k) {
        None => {
            assert(ab.subrange(a.len() + k, ab.len() as int) =~= b.subrange(k, b.len() as int));
            assert(split_from(ab, p, a.len() + k) =~= split_from(b, p, k));
        },
        Some(i) => {
            assert(ab.subrange(a.len() + k, a.len() + i) =~= b.subrange(k, i));
            lemma_split_shift(a, b, p, i + p.len());
            assert(split_from(ab, p, a.len() + k) =~= split_from(b, p, k));
        },
    }
}

/// A single-byte pattern occurs exactly where that byte stands.
pub proof fn lemma_match_one(b: Seq<u8>, x: u8, j: int)
    ensures
        match_at(b, seq![x], j) <==> (0 <= j && j + 1 <= b.len() && b[j] == x),
{
    if 0 <= j && j + 1 <= b.len() {
        assert(b.subrange(j, j + 1) =~= seq![b[j]]);
        if b[j] == x {
            assert(b.subrange(j, j + 1) =~= seq![x]);
        } else {
            assert(b.subrange(j, j + 1)[0] == b[j]);
        }
    }
}

/// Copies the range `[from, to)` of a slice.
pub fn bytes_range(b: &[u8], from: usize, to: usize) -> (r: Vec<u8>)
    requires
        from <= to <= b@.len(),
    ensures
        r@ == b@.subrange(from as int, to as int),
{
    let mut v: Vec<u8> = Vec::new();
    let mut i: usize = from;
    while i < to
        invariant
            from <= i <= to <= b@.len(),
            v@ =~= b@.subrange(from as int, i as int),
        decreases to - i,
    {
        let x = b[i];
        v.push(x);
        proof {
            assert(v@ =~= b@.subrange(from as int, i + 1));
        }
        i += 1;
    }
    v
}

/// Whether `p` occurs in `b` at position `i`, checked byte by byte.
pub fn matches_at(b: &[u8], p: &[u8], i: usize) -> (r: bool)
    requires
        i + p@.len() <= b@.len(),
    ensures
        r == match_at(b@, p@, i as int),
{
    let n = b.len();
    let mut k: usize = 0;
    while k < p.len()
        invariant
            n == b@.len(),
            i + p@.len() <= b@.len(),
            0 <= k <= p@.len(),
            forall|j: int| 0 <= j < k ==> b@[i + j] == p@[j],
        decreases p@.len() - k,
    {
        if b[i + k] != p[k] {
            proof {
                assert(b@.subrange(i as int, i + p@.len())[k as int] == b@[i + k]);
            }
            return false;
        }
        k += 1;
    }
    proof {
        assert(b@.subrange(i as int, i + p@.len()) =~= p@);
    }
    true
}

/// Finds the first occurrence of `p` in `b` at or after `from`.
pub fn find_pattern(b: &[u8], p: &[u8], from: usize) -> (r: Option<usize>)
    requires
        p@.len() > 0,
        from <= b@.len(),
    ensures
        match r {
            Some(i) => find_at(b@, p@, from as int) == Some(i as int) && from <= i && i + p@.len()
                <= b@.len(),
            None => find_at(b@, p@, from as int) is None,
        },
{
    if p.len() > b.len() {
        return None;
    }
    let n = b.len();
    let last = n - p.len();
    if from > last {
        return None;
    }
    let mut i: usize = from;
    while i <= last
        invariant
            from <= i,
            p@.len() > 0,
            n == b@.len(),
            last == b@.len() - p@.len(),
            i <= last + 1,
            find_at(b@, p@, from as int) == find_at(b@, p@, i as int),
        decreases last + 1 - i,
    {
        if matches_at(b, p, i) {
            return Some(i);
        }
        i += 1;
    }
    None
}

} // verus!
