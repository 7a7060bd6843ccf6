//! Wildcard pattern matching for routes and hostnames.  A `*` in the
//! pattern matches any (possibly empty) run of characters; every other
//! character matches itself.  There are no character classes and no
//! escapes.

use vstd::prelude::*;

verus! {

/// Whether the pattern suffix `p.skip(i)` matches the input suffix
/// `s.skip(j)`, matching left to right and backtracking on `*`.
pub open spec fn wild_matches_from(p: Seq<char>, s: Seq<char>, i: int, j: int) -> bool
    recommends
        0 <= i <= p.len(),
        0 <= j <= s.len(),
    decreases p.len() - i, s.len() - j,
{
    if i >= p.len() {
        j >= s.len()
    } else if p[i] == '*' {
        wild_matches_from(p, s, i + 1, j) || (j < s.len() && wild_matches_from(p, s, i, j + 1))
    } else {
        j < s.len() && p[i] == s[j] && wild_matches_from(p, s, i + 1, j + 1)
    }
}

/// Whether the whole pattern matches the whole input.
pub open spec fn wild_matches(p: Seq<char>, s: Seq<char>) -> bool {
    wild_matches_from(p, s, 0, 0)
}

fn match_from(p: &[char], s: &[char], i: usize, j: usize) -> (r: bool)
    requires
        i <= p@.len(),
        j <= s@.len(),
    ensures
        r == wild_matches_from(p@, s@, i as int, j as int),
    decreases p@.len() - i, s@.len() - j,
{
    if i >= p.len() {
        j >= s.len()
    } else if p[i] == '*' {
        if match_from(p, s, i + 1, j) {
            true
        } else if j < s.len() {
            match_from(p, s, i, j + 1)
        } else {
            false
        }
    } else {
        j < s.len() && p[i] == s[j] && match_from(p, s, i + 1, j + 1)
    }
}

/// Collects the characters of a string into a vector.
pub fn str_chars(s: &str) -> (r: Vec<char>)
    ensures
        r@ == s@,
{
    let n = s.unicode_len();
    let mut v: Vec<char> = Vec::new();
    let mut i: usize = 0;
    while i < n
        invariant
            n == s@.len(),
            0 <= i <= n,
            v@ =~= s@.take(i as int),
        decreases n - i,
    {
        v.push(s.get_char(i));
        i += 1;
    }
    proof {
        assert(s@.take(s@.len() as int) =~= s@);
    }
    v
}

/// Copies the range `[from, to)` of a character slice.
pub fn chars_range(s: &[char], from: usize, to: usize) -> (r: Vec<char>)
    requires
        from <= to <= s@.len(),
    ensures
        r@ == s@.subrange(from as int, to as int),
{
    let mut v: Vec<char> = Vec::new();
    let mut i: usize = from;
    while i < to
        invariant
            from <= i <= to <= s@.len(),
            v@ =~= s@.subrange(from as int, i as int),
        decreases to - i,
    {
        let x = s[i];
        v.push(x);
        proof {
            assert(v@ =~= s@.subrange(from as int, i + 1));
        }
        i += 1;
    }
    v
}

/// Decides whether `pattern` matches `input` under the `*` glob rules.
pub fn wildcard_match(pattern: &str, input: &str) -> (r: bool)
    ensures
        r == wild_matches(pattern@, input@),
{
    let p = str_chars(pattern);
    let s = str_chars(input);
    match_from(p.as_slice(), s.as_slice(), 0, 0)
}

} // verus!
