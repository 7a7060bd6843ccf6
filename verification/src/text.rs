//! Character and byte level helpers shared by the codec, the wildcard
//! matcher and the configuration parser: conversions between byte
//! sequences and strings, decimal rendering and parsing, and ASCII case
//! folding.

use vstd::prelude::*;

verus! {

/// Relies on `String::push`: appends exactly the given character.
pub assume_specification[ String::push ](s: &mut String, ch: char)
    ensures
        final(s)@ == old(s)@.push(ch),
;

/// The characters obtained by reading each byte as a code point.
pub open spec fn chars_of_bytes(b: Seq<u8>) -> Seq<char> {
    b.map(|_i: int, x: u8| x as char)
}

/// The bytes obtained by truncating each character to its low byte.
pub open spec fn bytes_of_chars(s: Seq<char>) -> Seq<u8> {
    s.map(|_i: int, c: char| c as u8)
}

/// Every character fits in one byte, so the string can go on the wire.
pub open spec fn byte_chars(s: Seq<char>) -> bool {
    forall|i: int| #![auto] 0 <= i < s.len() ==> (s[i] as u32) < 256
}

pub proof fn lemma_chars_of_bytes_roundtrip(b: Seq<u8>)
    ensures
        byte_chars(chars_of_bytes(b)),
        bytes_of_chars(chars_of_bytes(b)) =~= b,
{
}

pub proof fn lemma_bytes_of_chars_roundtrip(s: Seq<char>)
    requires
        byte_chars(s),
    ensures
        chars_of_bytes(bytes_of_chars(s)) =~= s,
{
    assert forall|i: int| 0 <= i < s.len() implies chars_of_bytes(bytes_of_chars(s))[i] == s[i] by {
        vstd::utf8::char_u32_cast(s[i], s[i] as u32);
        assert(((s[i] as u8) as u32) == s[i] as u32);
    }
}

/// Builds the string whose characters are the given bytes, read one to one.
pub fn bytes_to_string(b: &[u8]) -> (r: String)
    ensures
        r@ == chars_of_bytes(b@),
{
    let mut s = String::new();
    let mut i: usize = 0;
    while i < b.len()
        invariant
            0 <= i <= b.len(),
            s@ =~= chars_of_bytes(b@).take(i as int),
        decreases b.len() - i,
    {
        s.push(b[i] as char);
        i += 1;
    }
    proof {
        assert(chars_of_bytes(b@).take(b@.len() as int) =~= chars_of_bytes(b@));
    }
    s
}

/// Truncates each character of a one-byte-per-character string to a byte.
pub fn string_to_bytes(s: &str) -> (r: Vec<u8>)
    requires
        byte_chars(s@),
    ensures
        r@ == bytes_of_chars(s@),
{
    let n = s.unicode_len();
    let mut v: Vec<u8> = Vec::new();
    let mut i: usize = 0;
    while i < n
        invariant
            byte_chars(s@),
            n == s@.len(),
            0 <= i <= n,
            v@ =~= bytes_of_chars(s@).take(i as int),
        decreases n - i,
    {
        let c = s.get_char(i);
        v.push(c as u8);
        i += 1;
    }
    proof {
        assert(bytes_of_chars(s@).take(s@.len() as int) =~= bytes_of_chars(s@));
    }
    v
}

pub open spec fn is_digit_char(c: char) -> bool {
    48 <= c as u32 <= 57
}

pub open spec fn digit_val(c: char) -> int {
    c as u32 - 48
}

/// A non-empty run of decimal digits.
pub open spec fn all_digits(s: Seq<char>) -> bool {
    s.len() > 0 && forall|i: int| 0 <= i < s.len() ==> is_digit_char(#[trigger] s[i])
}

/// The value of a digit sequence read in base ten.
pub open spec fn dec_value(s: Seq<char>) -> int
    decreases s.len(),
{
    if s.len() == 0 {
        0
    } else {
        dec_value(s.drop_last()) * 10 + digit_val(s.last())
    }
}

pub open spec fn digit_char(d: int) -> char {
    ((48 + d) as u8) as char
}

/// The canonical decimal rendering of a natural number.
pub open spec fn dec_digits_of(n: nat) -> Seq<char>
    decreases n,
{
    if n < 10 {
        seq![digit_char(n as int)]
    } else {
        dec_digits_of(n / 10).push(digit_char((n % 10) as int))
    }
}

pub proof fn lemma_dec_digits_of_all_digits(n: nat)
    ensures
        all_digits(dec_digits_of(n)),
        byte_chars(dec_digits_of(n)),
    decreases n,
{
    if n >= 10 {
        lemma_dec_digits_of_all_digits(n / 10);
    }
}

/// Rendering then reading a number gives the number back.
pub proof fn lemma_dec_value_of_digits(n: nat)
    ensures
        dec_value(dec_digits_of(n)) == n,
    decreases n,
{
    if n < 10 {
        let s = dec_digits_of(n);
        assert(s =~= seq![digit_char(n as int)]);
        assert(s.drop_last() =~= Seq::<char>::empty());
        assert(dec_value(s) == dec_value(s.drop_last()) * 10 + digit_val(s.last()));
        assert(digit_val(digit_char(n as int)) == n);
    } else {
        lemma_dec_value_of_digits(n / 10);
        assert(dec_digits_of(n).drop_last() =~= dec_digits_of(n / 10));
    }
}

/// Renders a number in decimal.
pub fn u64_to_string(n: u64) -> (r: String)
    ensures
        r@ == dec_digits_of(n as nat),
    decreases n,
{
    if n < 10 {
        let mut s = String::new();
        s.push((48 + n as u8) as char);
        s
    } else {
        let mut s = u64_to_string(n / 10);
        s.push((48 + (n % 10) as u8) as char);
        s
    }
}

/// The decimal rendering of a signed number.
pub open spec fn dec_int_digits(n: int) -> Seq<char> {
    if n >= 0 {
        dec_digits_of(n as nat)
    } else {
        seq!['-'] + dec_digits_of((-n) as nat)
    }
}

/// Renders a signed number in decimal.
pub fn i64_to_string(n: i64) -> (r: String)
    ensures
        r@ == dec_int_digits(n as int),
{
    if n >= 0 {
        let r = u64_to_string(n as u64);
        r
    } else {
        let m: u64 = ((-(n + 1)) as u64) + 1;
        let mut s = String::from_str("-");
        let digits = u64_to_string(m);
        s.append(digits.as_str());
        proof {
            reveal_strlit("-");
            assert("-"@ =~= seq!['-']);
            assert(m == -(n as int));
        }
        s
    }
}

/// Collects characters into a string.
pub fn chars_to_string(cs: &[char]) -> (r: String)
    ensures
        r@ == cs@,
{
    let mut out = String::new();
    let mut i: usize = 0;
    while i < cs.len()
        invariant
            0 <= i <= cs@.len(),
            out@ =~= cs@.take(i as int),
        decreases cs@.len() - i,
    {
        out.push(cs[i]);
        i += 1;
    }
    proof {
        assert(cs@.take(cs@.len() as int) =~= cs@);
    }
    out
}

pub proof fn lemma_dec_value_nonneg(s: Seq<char>)
    requires
        forall|i: int| 0 <= i < s.len() ==> is_digit_char(#[trigger] s[i]),
    ensures
        dec_value(s) >= 0,
    decreases s.len(),
{
    if s.len() > 0 {
        lemma_dec_value_nonneg(s.drop_last());
    }
}

/// A longer digit prefix never names a smaller value.
pub proof fn lemma_dec_value_prefix_monotone(s: Seq<char>, i: int)
    requires
        forall|k: int| 0 <= k < s.len() ==> is_digit_char(#[trigger] s[k]),
        0 <= i <= s.len(),
    ensures
        dec_value(s.take(i)) <= dec_value(s),
    decreases s.len() - i,
{
    if i < s.len() {
        lemma_dec_value_prefix_monotone(s, i + 1);
        assert(s.take(i + 1).drop_last() =~= s.take(i));
        assert(s.take(i + 1).last() == s[i]);
        lemma_dec_value_nonneg(s.take(i));
    } else {
        assert(s.take(i) =~= s);
    }
}

/// Reads a decimal digit string as a `u64`.  Succeeds exactly on
/// non-empty all-digit strings whose value fits.
pub fn parse_u64_digits(s: &[char]) -> (r: Option<u64>)
    ensures
        match r {
            Some(n) => all_digits(s@) && n == dec_value(s@) && dec_value(s@) <= u64::MAX,
            None => !(all_digits(s@) && dec_value(s@) <= u64::MAX),
        },
{
    if s.len() == 0 {
        return None;
    }
    let mut val: u64 = 0;
    let mut i: usize = 0;
    while i < s.len()
        invariant
            0 <= i <= s@.len(),
            forall|k: int| 0 <= k < i ==> is_digit_char(#[trigger] s@[k]),
            val == dec_value(s@.take(i as int)),
        decreases s@.len() - i,
    {
        let c = s[i];
        let cu: u32 = c as u32;
        if !(48 <= cu && cu <= 57) {
            proof {
                assert(!is_digit_char(s@[i as int]));
                assert(!all_digits(s@));
            }
            return None;
        }
        let d: u64 = (cu - 48) as u64;
        proof {
            assert(s@.take(i + 1).drop_last() =~= s@.take(i as int));
            assert(s@.take(i + 1).last() == s@[i as int]);
        }
        if val > (u64::MAX - d) / 10 {
            proof {
                assert(dec_value(s@.take(i + 1)) == val * 10 + d);
                if all_digits(s@) {
                    lemma_dec_value_prefix_monotone(s@, i + 1);
                }
            }
            return None;
        }
        val = val * 10 + d;
        i += 1;
    }
    proof {
        assert(s@.take(s@.len() as int) =~= s@);
    }
    Some(val)
}

/// Casting a one-byte character down and back up moves nothing.
pub proof fn lemma_byte_chars_cast(s: Seq<char>)
    requires
        byte_chars(s),
    ensures
        forall|i: int| #![auto] 0 <= i < s.len() ==> ((s[i] as u8) as u32) == s[i] as u32,
{
    assert forall|i: int| #![auto] 0 <= i < s.len() implies ((s[i] as u8) as u32) == s[i]
        as u32 by {
        vstd::utf8::char_u32_cast(s[i], s[i] as u32);
    }
}

/// Compares a string against a literal.
pub fn str_eq(a: &String, b: &str) -> (r: bool)
    ensures
        r == (a@ == b@),
{
    *a == String::from_str(b)
}

/// Checks that every character of a string fits in one byte.
pub fn str_all_bytes(s: &str) -> (r: bool)
    ensures
        r == byte_chars(s@),
{
    let n = s.unicode_len();
    let mut i: usize = 0;
    while i < n
        invariant
            n == s@.len(),
            0 <= i <= n,
            forall|k: int| #![auto] 0 <= k < i ==> (s@[k] as u32) < 256,
        decreases n - i,
    {
        let c = s.get_char(i);
        if !((c as u32) < 256) {
            proof {
                assert(!byte_chars(s@));
            }
            return false;
        }
        i += 1;
    }
    true
}

/// The ASCII lower-case image of one character.
pub open spec fn lower_char(c: char) -> char {
    if 65 <= c as u32 <= 90 {
        ((c as u8) + 32) as char
    } else {
        c
    }
}

/// The ASCII lower-case image of a string, character by character.
pub open spec fn lower_chars(s: Seq<char>) -> Seq<char> {
    s.map(|_i: int, c: char| lower_char(c))
}

/// The ASCII lower-case image of one byte.
pub open spec fn lower_byte(b: u8) -> u8 {
    if 65 <= b <= 90 {
        (b + 32) as u8
    } else {
        b
    }
}

pub open spec fn lower_bytes(s: Seq<u8>) -> Seq<u8> {
    s.map(|_i: int, b: u8| lower_byte(b))
}

/// Lower-casing moves a character into `a`..`z` or leaves it alone; it
/// is idempotent and keeps every character within one byte.
pub proof fn lemma_lower_chars_props(s: Seq<char>)
    ensures
        lower_chars(lower_chars(s)) == lower_chars(s),
        byte_chars(s) ==> byte_chars(lower_chars(s)),
        forall|i: int|
            #![auto]
            0 <= i < s.len() ==> lower_chars(s)[i] == s[i] || (97 <= lower_chars(s)[i] as u32
                <= 122),
{
    assert forall|i: int| #![auto] 0 <= i < s.len() implies lower_chars(s)[i] == s[i] || (97
        <= lower_chars(s)[i] as u32 <= 122) by {
        assert(lower_chars(s)[i] == lower_char(s[i]));
        if 65 <= s[i] as u32 <= 90 {
            vstd::utf8::char_u32_cast(s[i], s[i] as u32);
            assert((s[i] as u8) as u32 == s[i] as u32);
        }
    }
    assert forall|i: int|
        #![auto]
        0 <= i < lower_chars(s).len() implies lower_chars(lower_chars(s))[i] == lower_chars(
        s,
    )[i] by {
        assert(lower_chars(lower_chars(s))[i] == lower_char(lower_chars(s)[i]));
        assert(lower_chars(s)[i] == lower_char(s[i]));
        if 65 <= s[i] as u32 <= 90 {
            vstd::utf8::char_u32_cast(s[i], s[i] as u32);
            assert((s[i] as u8) as u32 == s[i] as u32);
        }
    }
    assert(lower_chars(lower_chars(s)) =~= lower_chars(s));
    if byte_chars(s) {
        assert forall|i: int| #![auto] 0 <= i < lower_chars(s).len() implies (lower_chars(s)[i]
            as u32) < 256 by {
            assert(lower_chars(s)[i] == lower_char(s[i]));
            if 65 <= s[i] as u32 <= 90 {
                vstd::utf8::char_u32_cast(s[i], s[i] as u32);
                assert((s[i] as u8) as u32 == s[i] as u32);
            }
        }
    }
}

/// Folds a string to ASCII lower case.
pub fn to_lowercase(s: &str) -> (r: String)
    ensures
        r@ == lower_chars(s@),
{
    let n = s.unicode_len();
    let mut out = String::new();
    let mut i: usize = 0;
    while i < n
        invariant
            n == s@.len(),
            0 <= i <= n,
            out@ =~= lower_chars(s@).take(i as int),
        decreases n - i,
    {
        let c = s.get_char(i);
        let lc: char = if c >= 'A' && c <= 'Z' {
            ((c as u8) + 32) as char
        } else {
            c
        };
        out.push(lc);
        i += 1;
    }
    proof {
        assert(lower_chars(s@).take(s@.len() as int) =~= lower_chars(s@));
    }
    out
}

} // verus!
