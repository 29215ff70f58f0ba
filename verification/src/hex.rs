//! Hexadecimal text.
use vstd::prelude::*;
use vstd::string::*;
use vstd::utf8::*;

use crate::text::chars_of;

verus! {

/// The lower-case digit for `d`.
pub open spec fn hex_digit(d: int) -> char {
    if d < 10 {
        ((d + 48) as u32) as char
    } else {
        ((d + 87) as u32) as char
    }
}

/// Two lower-case digits for each byte.
pub open spec fn hex_text(bytes: Seq<u8>) -> Seq<char> {
    Seq::new(
        2 * bytes.len(),
        |i: int|
            if i % 2 == 0 {
                hex_digit(bytes[i / 2] as int / 16)
            } else {
                hex_digit(bytes[i / 2] as int % 16)
            },
    )
}

pub open spec fn is_hex(c: char) -> bool {
    ('0' <= c && c <= '9') || ('a' <= c && c <= 'f') || ('A' <= c && c <= 'F')
}

pub open spec fn hex_value(c: char) -> int {
    if '0' <= c && c <= '9' {
        c as int - 48
    } else if 'a' <= c && c <= 'f' {
        c as int - 87
    } else {
        c as int - 55
    }
}

pub open spec fn all_hex(s: Seq<char>) -> bool {
    forall|i: int| 0 <= i < s.len() ==> is_hex(#[trigger] s[i])
}

/// The byte that two digits spell.
pub open spec fn pair_value(a: char, b: char) -> Option<u8> {
    if is_hex(a) && is_hex(b) {
        Some((hex_value(a) * 16 + hex_value(b)) as u8)
    } else {
        None
    }
}

/// Why a text is no SHA-256 digest.
#[derive(Debug, Clone, Copy, PartialEq, Eq, Structural)]
pub enum DigestProblem {
    /// The text does not have 64 bytes.
    Length,
    /// The text holds a character that is no hexadecimal digit.
    Digit,
}

/// The digest that a text spells.
pub open spec fn spelled_digest(s: Seq<char>) -> Result<Seq<u8>, DigestProblem> {
    if encode_utf8(s).len() != 64 {
        Err(DigestProblem::Length)
    } else if s.len() == 64 && (forall|i: int|
        0 <= i < 32 ==> pair_value(s[2 * i], #[trigger] s[2 * i + 1]) is Some) {
        Ok(Seq::new(32, |i: int| pair_value(s[2 * i], s[2 * i + 1])->0))
    } else {
        Err(DigestProblem::Digit)
    }
}

/// Hexadecimal text reads back as the bytes it was made from.
pub proof fn law_hex_reads_back(bytes: Seq<u8>)
    requires
        bytes.len() == 32,
    ensures
        spelled_digest(hex_text(bytes)) == Ok::<Seq<u8>, DigestProblem>(bytes),
{
    let s = hex_text(bytes);
    assert(is_ascii_chars(s)) by {
        assert forall|i: int| 0 <= i < s.len() implies '\0' <= #[trigger] s[i] <= '\u{7f}' by {
            let b = bytes[i / 2] as int;
            assert(0 <= b / 16 < 16 && 0 <= b % 16 < 16);
        }
    }
    is_ascii_chars_encode_utf8(s);
    assert forall|i: int| 0 <= i < 32 implies pair_value(s[2 * i], #[trigger] s[2 * i + 1]) == Some(
        bytes[i],
    ) by {
        let b = bytes[i] as int;
        assert((2 * i) / 2 == i && (2 * i) % 2 == 0);
        assert((2 * i + 1) / 2 == i && (2 * i + 1) % 2 == 1);
        assert(s[2 * i] == hex_digit(b / 16));
        assert(s[2 * i + 1] == hex_digit(b % 16));
        assert(hex_value(s[2 * i]) == b / 16);
        assert(hex_value(s[2 * i + 1]) == b % 16);
    }
    let r = Seq::new(32, |i: int| pair_value(s[2 * i], s[2 * i + 1])->0);
    assert forall|i: int| 0 <= i < 32 implies r[i] == bytes[i] by {
        assert(pair_value(s[2 * i], s[2 * i + 1]) == Some(bytes[i]));
    }
    assert(r =~= bytes);
}

/// The lower-case digit of a number below sixteen.
pub fn digit(d: u8) -> (c: char)
    requires
        d < 16,
    ensures
        c == hex_digit(d as int),
{
    if d < 10 {
        (d + 48) as char
    } else {
        (d + 87) as char
    }
}

/// `bytes` in lower-case hexadecimal.
pub fn hex(bytes: &[u8]) -> (out: String)
    ensures
        out@ == hex_text(bytes@),
{
    let mut out = String::new();
    let mut i: usize = 0;
    while i < bytes.len()
        invariant
            i <= bytes@.len(),
            out@ == hex_text(bytes@).take(2 * i),
        decreases bytes@.len() - i,
    {
        let b: u8 = bytes[i];
        let ghost before = out@;
        out.push(digit(b / 16));
        out.push(digit(b % 16));
        proof {
            let all = hex_text(bytes@);
            assert((2 * i) / 2 == i && (2 * i) % 2 == 0);
            assert((2 * i + 1) / 2 == i && (2 * i + 1) % 2 == 1);
            assert(all.take(2 * (i + 1)) =~= before.push(all[2 * i]).push(all[2 * i + 1]));
        }
        i += 1;
    }
    proof {
        assert(hex_text(bytes@).take((2 * bytes@.len()) as int) =~= hex_text(bytes@));
    }
    out
}

pub fn is_hex_digit(c: char) -> (r: bool)
    ensures
        r == is_hex(c),
{
    ('0' <= c && c <= '9') || ('a' <= c && c <= 'f') || ('A' <= c && c <= 'F')
}

fn value_of(c: char) -> (v: u8)
    requires
        is_hex(c),
    ensures
        v == hex_value(c),
        v < 16,
{
    if '0' <= c && c <= '9' {
        c as u8 - 48
    } else if 'a' <= c && c <= 'f' {
        c as u8 - 87
    } else {
        c as u8 - 55
    }
}

/// Whether every character is a hexadecimal digit.
pub fn only_hex(chars: &[char]) -> (r: bool)
    ensures
        r == all_hex(chars@),
{
    let mut i: usize = 0;
    while i < chars.len()
        invariant
            i <= chars@.len(),
            forall|j: int| 0 <= j < i ==> is_hex(#[trigger] chars@[j]),
        decreases chars@.len() - i,
    {
        if !is_hex_digit(chars[i]) {
            return false;
        }
        i += 1;
    }
    true
}

fn read_pair(a: char, b: char) -> (r: Option<u8>)
    ensures
        r == pair_value(a, b),
{
    if is_hex_digit(a) && is_hex_digit(b) {
        Some(value_of(a) * 16 + value_of(b))
    } else {
        None
    }
}

/// Reads a SHA-256 digest written in hexadecimal.
pub fn parse_sha256_hex(value: &str) -> (r: Result<[u8; 32], DigestProblem>)
    ensures
        match r {
            Ok(h) => spelled_digest(value@) == Ok::<Seq<u8>, DigestProblem>(h@),
            Err(problem) => spelled_digest(value@) == Err::<Seq<u8>, DigestProblem>(problem),
        },
{
    if value.as_bytes().len() != 64 {
        return Err(DigestProblem::Length);
    }
    let chars = chars_of(value);
    if chars.len() != 64 {
        return Err(DigestProblem::Digit);
    }
    let mut out: [u8; 32] = [0; 32];
    let mut i: usize = 0;
    while i < 32
        invariant
            i <= 32,
            chars@.len() == 64,
            chars@ == value@,
            encode_utf8(value@).len() == 64,
            forall|j: int|
                0 <= j < i ==> pair_value(value@[2 * j], #[trigger] value@[2 * j + 1]) == Some(
                    out@[j],
                ),
        decreases 32 - i,
    {
        match read_pair(chars[2 * i], chars[2 * i + 1]) {
            Some(b) => {
                out[i] = b;
            },
            None => {
                assert(pair_value(value@[2 * i], value@[2 * i + 1]) is None);
                return Err(DigestProblem::Digit);
            },
        }
        i += 1;
    }
    proof {
        let want = Seq::new(32, |i: int| pair_value(value@[2 * i], value@[2 * i + 1])->0);
        assert forall|j: int| 0 <= j < 32 implies out@[j] == want[j] by {
            assert(pair_value(value@[2 * j], value@[2 * j + 1]) == Some(out@[j]));
        }
        assert(out@ =~= want);
    }
    Ok(out)
}

} // verus!
