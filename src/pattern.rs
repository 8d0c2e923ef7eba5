//! The search term as it is given: an ASCII string between double quotes, or a
//! sequence of hexadecimal digits, and the bytes it stands for.
use vstd::prelude::*;
use vstd::utf8::encode_utf8;

use crate::search::copy_bytes;

verus! {

/// A search term: a string to search for as it is, or hexadecimal digits that spell
/// the bytes to search for.
#[derive(Debug, PartialEq)]
pub enum PatternType {
    Str(String),
    HexStr(String),
}

/// Why a search term stands for no bytes.
#[derive(Debug, Clone, Copy, PartialEq, Eq)]
pub enum PatternError {
    /// A character that is not a hexadecimal digit, and its byte offset.
    InvalidHexCharacter { c: char, index: usize },
    /// An odd number of hexadecimal digits.
    OddLength,
    /// A decoded length that does not fit the output.
    InvalidStringLength,
}

/// `s` without its first character when that is `p`, and then without its last
/// character when that is `p`.
pub open spec fn stripped(s: Seq<char>, p: char) -> Seq<char> {
    if s.len() >= 1 && s[0] == p {
        let rest = s.subrange(1, s.len() as int);
        if rest.len() >= 1 && rest.last() == p {
            rest.subrange(0, rest.len() - 1)
        } else {
            rest
        }
    } else {
        s
    }
}

/// `s` begins and ends with a double quote (a single one counts for both).
pub open spec fn is_quoted(s: Seq<char>) -> bool {
    s.len() >= 1 && s[0] == '"' && s.last() == '"'
}

/// `s` begins and ends with a backslash and a double quote.
pub open spec fn has_escaped_quotes(s: Seq<char>) -> bool {
    &&& s.len() >= 2
    &&& s[0] == '\\' && s[1] == '"'
    &&& s[s.len() - 2] == '\\' && s[s.len() - 1] == '"'
}

/// `s` with every backslash removed.
pub open spec fn without_backslashes(s: Seq<char>) -> Seq<char>
    decreases s.len(),
{
    if s.len() == 0 {
        s
    } else {
        let prev = without_backslashes(s.drop_last());
        if s.last() == '\\' {
            prev
        } else {
            prev.push(s.last())
        }
    }
}

/// The string that a quoted search term stands for: the term without its quotes, and
/// without backslashes when it holds escaped quotes at both ends.
pub open spec fn quoted_text(s: Seq<char>) -> Seq<char> {
    let q = stripped(s, '"');
    if has_escaped_quotes(q) {
        without_backslashes(q)
    } else {
        q
    }
}

/// Relies on str::chars, collected: the characters of `s` in order.
#[verifier::external_body]
pub(crate) fn chars_of(s: &str) -> (r: Vec<char>)
    ensures
        r@ == s@,
{
    s.chars().collect()
}

/// Relies on collecting characters into a String: the string of the characters of `v`.
#[verifier::external_body]
pub(crate) fn string_of(v: &Vec<char>) -> (r: String)
    ensures
        r@ == v@,
{
    v.iter().collect()
}

/// `src` without a leading `p`, and then without a trailing `p`, as characters.
fn strip_chars(src: &Vec<char>, p: char) -> (r: Vec<char>)
    ensures
        r@ == stripped(src@, p),
{
    let n = src.len();
    if n >= 1 && src[0] == p {
        let end = if n >= 2 && src[n - 1] == p { n - 1 } else { n };
        let mut r: Vec<char> = Vec::new();
        let mut i: usize = 1;
        while i < end
            invariant
                1 <= i <= end <= n,
                n == src@.len(),
                r@ == src@.subrange(1, i as int),
            decreases end - i,
        {
            r.push(src[i]);
            i = i + 1;
            proof {
                assert(r@ =~= src@.subrange(1, i as int));
            }
        }
        proof {
            let rest = src@.subrange(1, n as int);
            if n >= 2 && src@[n - 1] == p {
                assert(rest.last() == p);
                assert(r@ =~= rest.subrange(0, rest.len() - 1));
            } else {
                assert(r@ =~= rest);
            }
        }
        r
    } else {
        let mut r: Vec<char> = Vec::new();
        let mut i: usize = 0;
        while i < n
            invariant
                i <= n,
                n == src@.len(),
                r@ == src@.subrange(0, i as int),
            decreases n - i,
        {
            r.push(src[i]);
            i = i + 1;
            proof {
                assert(r@ =~= src@.subrange(0, i as int));
            }
        }
        proof {
            assert(r@ =~= src@);
        }
        r
    }
}

/// `src` without a leading `p`, and then without a trailing `p`.
pub fn strip(src: &str, p: char) -> (r: String)
    ensures
        r@ == stripped(src@, p),
{
    let c = chars_of(src);
    let s = strip_chars(&c, p);
    string_of(&s)
}

/// `v` with every backslash removed.
fn remove_backslashes(v: &Vec<char>) -> (r: Vec<char>)
    ensures
        r@ == without_backslashes(v@),
{
    let mut r: Vec<char> = Vec::new();
    let mut i: usize = 0;
    while i < v.len()
        invariant
            i <= v@.len(),
            r@ == without_backslashes(v@.subrange(0, i as int)),
        decreases v@.len() - i,
    {
        proof {
            let next = v@.subrange(0, i + 1);
            assert(next.drop_last() =~= v@.subrange(0, i as int));
            assert(next.last() == v@[i as int]);
        }
        if v[i] != '\\' {
            r.push(v[i]);
        }
        i = i + 1;
    }
    proof {
        assert(v@.subrange(0, v@.len() as int) =~= v@);
    }
    r
}

/// `c` is an ASCII hexadecimal digit, in either case.
pub open spec fn is_hex_digit(c: u8) -> bool {
    (0x30 <= c <= 0x39) || (0x61 <= c <= 0x66) || (0x41 <= c <= 0x46)
}

/// The value of the hexadecimal digit `c`.
pub open spec fn hex_value(c: u8) -> int {
    if 0x30 <= c <= 0x39 {
        c - 0x30
    } else if 0x61 <= c <= 0x66 {
        c - 0x61 + 10
    } else {
        c - 0x41 + 10
    }
}

/// The bytes that the pairs of hexadecimal digits of `b` spell, the first digit of each
/// pair the high one.
pub open spec fn hex_decoded(b: Seq<u8>) -> Seq<u8> {
    Seq::new(b.len() / 2, |i: int| (16 * hex_value(b[2 * i]) + hex_value(b[2 * i + 1])) as u8)
}

/// The first `index` bytes of `b` are hexadecimal digits and the byte at `index` is not.
pub open spec fn first_non_hex(b: Seq<u8>, index: int) -> bool {
    &&& 0 <= index < b.len()
    &&& !is_hex_digit(b[index])
    &&& forall|j: int| 0 <= j < index ==> is_hex_digit(#[trigger] b[j])
}

/// What decoding hexadecimal digits gives: the bytes when the count is even and all are
/// digits; else the error for an odd count, or for the first character that is no digit.
pub open spec fn hex_decode_result(b: Seq<u8>, r: Result<Vec<u8>, PatternError>) -> bool {
    &&& r is Ok <==> (b.len() % 2 == 0 && forall|j: int| 0 <= j < b.len() ==> is_hex_digit(#[trigger] b[j]))
    &&& r is Ok ==> r->Ok_0@ == hex_decoded(b)
    &&& (r == Err::<Vec<u8>, PatternError>(PatternError::OddLength)) <==> b.len() % 2 == 1
    &&& !(r matches Err(PatternError::InvalidStringLength))
    &&& r matches Err(PatternError::InvalidHexCharacter { c, index }) ==> b.len() % 2 == 0
        && first_non_hex(b, index as int) && c == b[index as int] as char
}

/// Relies on hex::decode: it refuses an odd number of digits first, then reports the first
/// character that is not a hexadecimal digit, and otherwise turns each pair of digits,
/// high digit first, into a byte. Its error variants are carried over one for one;
/// `InvalidStringLength` comes only from decoding into a slice, never from `decode`.
#[verifier::external_body]
fn decode_hex(digits: &[u8]) -> (r: Result<Vec<u8>, PatternError>)
    ensures
        hex_decode_result(digits@, r),
{
    match hex::decode(digits) {
        Ok(v) => Ok(v),
        Err(hex::FromHexError::InvalidHexCharacter { c, index }) => Err(PatternError::InvalidHexCharacter { c, index }),
        Err(hex::FromHexError::OddLength) => Err(PatternError::OddLength),
        Err(hex::FromHexError::InvalidStringLength) => Err(PatternError::InvalidStringLength),
    }
}

impl PatternType {
    /// The text that the term holds.
    pub open spec fn text(&self) -> Seq<char> {
        match self {
            PatternType::Str(s) => s@,
            PatternType::HexStr(s) => s@,
        }
    }

    /// Reads a search term: between double quotes it is a string, and escaped quotes
    /// at both of its ends keep their quotes and lose their backslashes; anything else
    /// is hexadecimal digits.
    pub fn from(pattern: &str) -> (r: PatternType)
        ensures
            is_quoted(pattern@) ==> r is Str && r.text() == quoted_text(pattern@),
            !is_quoted(pattern@) ==> r is HexStr && r.text() == pattern@,
    {
        let c = chars_of(pattern);
        let n = c.len();
        if n >= 1 && c[0] == '"' && c[n - 1] == '"' {
            let q = strip_chars(&c, '"');
            let m = q.len();
            if m >= 2 && q[0] == '\\' && q[1] == '"' && q[m - 2] == '\\' && q[m - 1] == '"' {
                let f = remove_backslashes(&q);
                PatternType::Str(string_of(&f))
            } else {
                PatternType::Str(string_of(&q))
            }
        } else {
            PatternType::HexStr(string_of(&c))
        }
    }

    /// The bytes to search for: the UTF-8 encoding of a string, or the bytes that
    /// hexadecimal digits spell.
    pub fn to_bytes(&self) -> (r: Result<Vec<u8>, PatternError>)
        ensures
            self is Str ==> r is Ok && r->Ok_0@ == encode_utf8(self.text()),
            self is HexStr ==> hex_decode_result(encode_utf8(self.text()), r),
    {
        match self {
            PatternType::Str(s) => {
                let b = s.as_str().as_bytes();
                Ok(copy_bytes(b, 0, b.len()))
            },
            PatternType::HexStr(s) => decode_hex(s.as_str().as_bytes()),
        }
    }
}

} // verus!
