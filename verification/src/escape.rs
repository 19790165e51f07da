//! Octets written with hexadecimal escapes: `+XX` in xtext, `=XX` in the
//! quoted-printable of encoded words and `%XX` in extended parameter values.

use crate::util::{byte_at, hex_digit, in_class, is_hex_digit, ByteClass};
use vstd::prelude::*;

verus! {

/// The value of a hexadecimal digit.
pub open spec fn hex_value(b: u8) -> int {
    if 0x30 <= b <= 0x39 {
        b - 0x30
    } else if 0x41 <= b <= 0x46 {
        b - 0x41 + 10
    } else {
        b - 0x61 + 10
    }
}

/// Two hexadecimal digits at `pos`, as the octet that they spell.
pub open spec fn hexpair_at(s: Seq<u8>, pos: int) -> Option<(int, u8)> {
    if 0 <= pos && pos + 2 <= s.len() && is_hex_digit(s[pos]) && is_hex_digit(s[pos + 1]) {
        Some((pos + 2, (16 * hex_value(s[pos]) + hex_value(s[pos + 1])) as u8))
    } else {
        None
    }
}

/// The value of a hexadecimal digit.
fn hex_digit_value(b: u8) -> (r: u8)
    requires
        is_hex_digit(b),
    ensures
        r == hex_value(b),
        r < 16,
{
    if 0x30 <= b && b <= 0x39 {
        b - 0x30
    } else if 0x41 <= b && b <= 0x46 {
        b - 0x41 + 10
    } else {
        b - 0x61 + 10
    }
}

/// Reads two hexadecimal digits at `pos`.
pub fn hexpair(input: &[u8], pos: usize) -> (r: Option<(usize, u8)>)
    requires
        pos <= input.len(),
    ensures
        match r {
            Some((p, b)) => hexpair_at(input@, pos as int) == Some((p as int, b)),
            None => hexpair_at(input@, pos as int) is None,
        },
{
    if input.len() - pos >= 2 && hex_digit(input[pos]) && hex_digit(input[pos + 1]) {
        let hi = hex_digit_value(input[pos]);
        let lo = hex_digit_value(input[pos + 1]);
        Some((pos + 2, 16 * hi + lo))
    } else {
        None
    }
}

/// The three ways in which the grammars escape an octet.
#[derive(Clone, Copy, Debug)]
pub enum Escape {
    /// RFC 3461 xtext: printable ASCII but `+` and `=`, and `+XX`.
    Xtext,
    /// RFC 2231 extended values: attribute characters, and `%XX`.
    Percent,
    /// RFC 2047 `Q` encoding: `=XX`, `_` for a space, and any other byte as it is.
    Quoted,
}

/// A literal xtext character: printable ASCII but `+` and `=`.
pub open spec fn is_xchar(b: u8) -> bool {
    33 <= b <= 42 || 44 <= b <= 60 || 62 <= b <= 126
}

/// The byte that introduces an escape.
pub open spec fn marker(scheme: Escape) -> u8 {
    match scheme {
        Escape::Xtext => 0x2b,
        Escape::Percent => 0x25,
        Escape::Quoted => 0x3d,
    }
}

/// What a byte that is no marker stands for, if it may stand unescaped.
pub open spec fn literal(scheme: Escape, b: u8) -> Option<u8> {
    match scheme {
        Escape::Xtext => if is_xchar(b) {
            Some(b)
        } else {
            None
        },
        Escape::Percent => if in_class(ByteClass::Attribute, b) {
            Some(b)
        } else {
            None
        },
        Escape::Quoted => if b == 0x5f {
            Some(0x20u8)
        } else {
            Some(b)
        },
    }
}

/// One octet at `pos`: an escape, or a literal byte.
pub open spec fn octet_at(scheme: Escape, s: Seq<u8>, pos: int) -> Option<(int, u8)> {
    if byte_at(s, pos, marker(scheme)) {
        hexpair_at(s, pos + 1)
    } else if 0 <= pos < s.len() {
        match literal(scheme, s[pos]) {
            Some(b) => Some((pos + 1, b)),
            None => None,
        }
    } else {
        None
    }
}

/// The longest run of octets from `pos`: where it ends, and the octets.
pub open spec fn octets(scheme: Escape, s: Seq<u8>, pos: int) -> (int, Seq<u8>)
    decreases s.len() - pos,
{
    match octet_at(scheme, s, pos) {
        Some((p, b)) => if pos < p <= s.len() {
            let (end, rest) = octets(scheme, s, p);
            (end, seq![b] + rest)
        } else {
            (pos, Seq::empty())
        },
        None => (pos, Seq::empty()),
    }
}

/// What a byte that is no marker stands for, if it may stand unescaped.
fn literal_byte(scheme: Escape, b: u8) -> (r: Option<u8>)
    ensures
        r == literal(scheme, b),
{
    match scheme {
        Escape::Xtext => if (33 <= b && b <= 42) || (44 <= b && b <= 60) || (62 <= b && b <= 126) {
            Some(b)
        } else {
            None
        },
        Escape::Percent => if ByteClass::Attribute.contains(b) {
            Some(b)
        } else {
            None
        },
        Escape::Quoted => if b == 0x5f {
            Some(0x20u8)
        } else {
            Some(b)
        },
    }
}

/// The byte that introduces an escape.
fn marker_of(scheme: Escape) -> (r: u8)
    ensures
        r == marker(scheme),
{
    match scheme {
        Escape::Xtext => 0x2b,
        Escape::Percent => 0x25,
        Escape::Quoted => 0x3d,
    }
}

/// Reads one octet at `pos`.
pub fn octet(scheme: Escape, input: &[u8], pos: usize) -> (r: Option<(usize, u8)>)
    requires
        pos <= input.len(),
    ensures
        match r {
            Some((p, b)) => octet_at(scheme, input@, pos as int) == Some((p as int, b)) && pos < p
                <= input.len(),
            None => octet_at(scheme, input@, pos as int) is None,
        },
{
    if pos >= input.len() {
        None
    } else if input[pos] == marker_of(scheme) {
        hexpair(input, pos + 1)
    } else {
        match literal_byte(scheme, input[pos]) {
            Some(b) => Some((pos + 1, b)),
            None => None,
        }
    }
}

/// Reads the longest run of octets from `pos`.
pub fn decode_run(scheme: Escape, input: &[u8], pos: usize) -> (r: (usize, Vec<u8>))
    requires
        pos <= input.len(),
    ensures
        (r.0 as int, r.1@) == octets(scheme, input@, pos as int),
        pos <= r.0 <= input.len(),
        r.1@.len() <= r.0 - pos,
{
    let mut out: Vec<u8> = Vec::new();
    let mut cur = pos;
    loop
        invariant
            pos <= cur <= input.len(),
            out@.len() <= cur - pos,
            octets(scheme, input@, pos as int) == (
                octets(scheme, input@, cur as int).0,
                out@ + octets(scheme, input@, cur as int).1,
            ),
        ensures
            pos <= cur <= input.len(),
            out@.len() <= cur - pos,
            octets(scheme, input@, pos as int) == (cur as int, out@),
        decreases input.len() - cur,
    {
        match octet(scheme, input, cur) {
            Some((p, b)) => {
                proof {
                    let rest = octets(scheme, input@, p as int).1;
                    assert(out@ + (seq![b] + rest) =~= out@.push(b) + rest);
                }
                out.push(b);
                cur = p;
            },
            None => {
                assert(out@ + Seq::<u8>::empty() =~= out@);
                break ;
            },
        }
    }
    (cur, out)
}

} // verus!
