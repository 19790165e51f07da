//! Core rules of ABNF (RFC 5234): blanks, visible characters and line breaks.

use crate::util::{agrees_rest, crlf_at, graphic, is_crlf, is_graphic, is_wsp, rest, ByteClass};
use vstd::prelude::*;
use vstd::slice::slice_subrange;

verus! {

/// A blank at `pos`: a space or a horizontal tab.
pub open spec fn wsp_at(s: Seq<u8>, pos: int) -> Option<(int, u8)> {
    if 0 <= pos < s.len() && is_wsp(s[pos]) {
        Some((pos + 1, s[pos]))
    } else {
        None
    }
}

/// A visible ASCII character at the start of `s`.
pub open spec fn vchar_at(s: Seq<u8>) -> Option<(int, char)> {
    if 0 < s.len() && is_graphic(s[0]) {
        Some((1, s[0] as char))
    } else {
        None
    }
}

/// Reads a blank at `pos`.
pub fn wsp(input: &[u8], pos: usize) -> (r: Option<(usize, u8)>)
    ensures
        r == match wsp_at(input@, pos as int) {
            Some((p, b)) => Some((p as usize, b)),
            None => None,
        },
        r matches Some((p, _)) ==> p == pos + 1 && p <= input.len(),
{
    if pos < input.len() && ByteClass::Wsp.contains(input[pos]) {
        Some((pos + 1, input[pos]))
    } else {
        None
    }
}

/// Reads a visible ASCII character at the start of the input.
pub fn vchar(input: &[u8]) -> (r: Result<(&[u8], char), ()>)
    ensures
        agrees_rest(r, input@, vchar_at(input@)),
{
    if input.len() > 0 && graphic(input[0]) {
        Ok((rest(input, 1), input[0] as char))
    } else {
        Err(())
    }
}

/// Reads a line break, CR LF, at the start of the input. Returns the input
/// after it, and the line break.
pub fn crlf(input: &[u8]) -> (r: Result<(&[u8], &[u8]), ()>)
    ensures
        match r {
            Ok((after, found)) => crlf_at(input@, 0) && after@ == input@.subrange(
                2,
                input@.len() as int,
            ) && found@ == input@.subrange(0, 2),
            Err(_) => !crlf_at(input@, 0),
        },
{
    if is_crlf(input, 0) {
        Ok((rest(input, 2), slice_subrange(input, 0, 2)))
    } else {
        Err(())
    }
}

} // verus!
