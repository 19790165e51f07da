//! How octets above 127 are read: the two policies, and the character
//! classes of the grammar under each.

use crate::behaviour::{Intl, Legacy};
use crate::util::{from_utf8, graphic, is_alpha, is_digit, is_graphic, push_char, REPLACEMENT};
use vstd::prelude::*;
use vstd::slice::slice_subrange;
use vstd::string::*;
use vstd::utf8::*;

verus! {

/// The classes of text that the grammar is made of.
#[derive(Clone, Copy, Debug)]
pub enum TextClass {
    /// Visible characters.
    Vchar,
    /// Text of a comment: visible but `(`, `)` and `\`.
    Ctext,
    /// Text of an atom: letters, digits and ``!#$%&'*+-/=?^_`{|}~``.
    Atext,
    /// Text of a quoted string: visible but `"` and `\`.
    Qtext,
    /// Text of a domain literal: visible but `[`, `]` and `\`.
    Dtext,
}

/// The punctuation that may stand in an atom.
pub open spec fn is_atom_punctuation(b: u8) -> bool {
    b == 0x21 || b == 0x23 || b == 0x24 || b == 0x25 || b == 0x26 || b == 0x27 || b == 0x2a || b
        == 0x2b || b == 0x2d || b == 0x2f || b == 0x3d || b == 0x3f || b == 0x5e || b == 0x5f || b
        == 0x60 || b == 0x7b || b == 0x7c || b == 0x7d || b == 0x7e
}

/// Whether an ASCII byte belongs to a class.
pub open spec fn is_strict(class: TextClass, b: u8) -> bool {
    match class {
        TextClass::Vchar => is_graphic(b),
        TextClass::Ctext => is_graphic(b) && b != 0x28 && b != 0x29 && b != 0x5c,
        TextClass::Atext => is_atom_punctuation(b) || is_alpha(b) || is_digit(b),
        TextClass::Qtext => is_graphic(b) && b != 0x22 && b != 0x5c,
        TextClass::Dtext => is_graphic(b) && b != 0x5b && b != 0x5c && b != 0x5d,
    }
}

/// The `n` bytes at `pos` as one character in UTF-8.
pub open spec fn single_char_at(s: Seq<u8>, pos: int, n: int) -> Option<(int, char)> {
    if 0 <= pos && pos + n <= s.len() && valid_utf8(s.subrange(pos, pos + n)) && decode_utf8(
        s.subrange(pos, pos + n),
    ).len() == 1 {
        Some((pos + n, decode_utf8(s.subrange(pos, pos + n))[0]))
    } else {
        None
    }
}

/// One character at `pos` that takes two to four bytes in UTF-8.
pub open spec fn utf8_non_ascii_at(s: Seq<u8>, pos: int) -> Option<(int, char)> {
    if single_char_at(s, pos, 4) is Some {
        single_char_at(s, pos, 4)
    } else if single_char_at(s, pos, 3) is Some {
        single_char_at(s, pos, 3)
    } else {
        single_char_at(s, pos, 2)
    }
}

/// One unit of text of a class at `pos`, and the character that it stands
/// for. An ASCII byte of the class stands for itself. Under the
/// international policy a character of two to four bytes is one unit. In a
/// quoted string any other byte above 127 is a unit that stands for U+FFFD.
pub open spec fn unit_at(intl: bool, class: TextClass, s: Seq<u8>, pos: int) -> Option<
    (int, char),
> {
    if 0 <= pos < s.len() && is_strict(class, s[pos]) {
        Some((pos + 1, s[pos] as char))
    } else if intl && utf8_non_ascii_at(s, pos) is Some {
        utf8_non_ascii_at(s, pos)
    } else if class is Qtext && 0 <= pos < s.len() && s[pos] >= 0x80 {
        Some((pos + 1, REPLACEMENT))
    } else {
        None
    }
}

/// The longest run of units of a class from `pos`: where it ends, and its text.
pub open spec fn run_at(intl: bool, class: TextClass, s: Seq<u8>, pos: int) -> (int, Seq<char>)
    decreases s.len() - pos,
{
    match unit_at(intl, class, s, pos) {
        Some((p, c)) => if pos < p <= s.len() {
            let (end, rest) = run_at(intl, class, s, p);
            (end, seq![c] + rest)
        } else {
            (pos, Seq::empty())
        },
        None => (pos, Seq::empty()),
    }
}

/// A run ends within the input, and is empty exactly where no unit stands.
pub proof fn lemma_run_bounds(intl: bool, class: TextClass, s: Seq<u8>, pos: int)
    requires
        0 <= pos <= s.len(),
    ensures
        pos <= run_at(intl, class, s, pos).0 <= s.len(),
        run_at(intl, class, s, pos).0 == pos <==> unit_at(intl, class, s, pos) is None,
        run_at(intl, class, s, pos).0 == pos ==> run_at(intl, class, s, pos).1.len() == 0,
    decreases s.len() - pos,
{
    match unit_at(intl, class, s, pos) {
        Some((p, c)) => {
            if pos < p <= s.len() {
                lemma_run_bounds(intl, class, s, p);
            }
        },
        None => {},
    }
}

/// Whether an ASCII byte belongs to a class.
pub fn strict(class: TextClass, b: u8) -> (r: bool)
    ensures
        r == is_strict(class, b),
{
    match class {
        TextClass::Vchar => graphic(b),
        TextClass::Ctext => graphic(b) && b != 0x28 && b != 0x29 && b != 0x5c,
        TextClass::Atext => b == 0x21 || b == 0x23 || b == 0x24 || b == 0x25 || b == 0x26 || b
            == 0x27 || b == 0x2a || b == 0x2b || b == 0x2d || b == 0x2f || b == 0x3d || b == 0x3f
            || b == 0x5e || b == 0x5f || b == 0x60 || b == 0x7b || b == 0x7c || b == 0x7d || b
            == 0x7e || (0x41 <= b && b <= 0x5a) || (0x61 <= b && b <= 0x7a) || (0x30 <= b && b
            <= 0x39),
        TextClass::Qtext => graphic(b) && b != 0x22 && b != 0x5c,
        TextClass::Dtext => graphic(b) && b != 0x5b && b != 0x5c && b != 0x5d,
    }
}

/// Reads the `n` bytes at `pos` as one character in UTF-8.
pub fn _single_char(input: &[u8], pos: usize, n: usize) -> (r: Option<(usize, char)>)
    requires
        pos <= input.len(),
        2 <= n <= 4,
    ensures
        r == match single_char_at(input@, pos as int, n as int) {
            Some((p, c)) => Some((p as usize, c)),
            None => None,
        },
        r matches Some((p, _)) ==> p == pos + n && p <= input.len(),
{
    if input.len() - pos < n {
        return None;
    }
    let window = slice_subrange(input, pos, pos + n);
    match from_utf8(window) {
        Some(t) => {
            if t.unicode_len() == 1 {
                Some((pos + n, t.get_char(0)))
            } else {
                None
            }
        },
        None => None,
    }
}

/// Reads one character of two to four bytes at `pos`.
pub fn utf8_non_ascii(input: &[u8], pos: usize) -> (r: Option<(usize, char)>)
    requires
        pos <= input.len(),
    ensures
        r == match utf8_non_ascii_at(input@, pos as int) {
            Some((p, c)) => Some((p as usize, c)),
            None => None,
        },
        r matches Some((p, _)) ==> pos < p <= input.len(),
{
    let four = _single_char(input, pos, 4);
    if four.is_some() {
        return four;
    }
    let three = _single_char(input, pos, 3);
    if three.is_some() {
        return three;
    }
    _single_char(input, pos, 2)
}

/// Reads one byte above 127 at `pos`, which stands for U+FFFD.
pub fn _8bit_char(input: &[u8], pos: usize) -> (r: Option<(usize, char)>)
    ensures
        r == (if 0 <= pos < input@.len() && input@[pos as int] >= 0x80 {
            Some(((pos + 1) as usize, REPLACEMENT))
        } else {
            None
        }),
{
    if pos < input.len() && input[pos] >= 0x80 {
        Some((pos + 1, REPLACEMENT))
    } else {
        None
    }
}

/// What a policy's reader of a class returns at a position.
pub open spec fn reads(
    r: Option<(usize, char)>,
    intl: bool,
    class: TextClass,
    s: Seq<u8>,
    pos: int,
) -> bool {
    match r {
        Some((p, c)) => unit_at(intl, class, s, pos) == Some((p as int, c)) && pos < p <= s.len(),
        None => unit_at(intl, class, s, pos) is None,
    }
}

/// Reads one unit of a class under the strict policy.
pub fn strict_unit(class: TextClass, input: &[u8], pos: usize) -> (r: Option<(usize, char)>)
    requires
        pos <= input.len(),
    ensures
        reads(r, false, class, input@, pos as int),
{
    if pos < input.len() && strict(class, input[pos]) {
        Some((pos + 1, input[pos] as char))
    } else {
        match class {
            TextClass::Qtext => _8bit_char(input, pos),
            _ => None,
        }
    }
}

/// Reads one unit of a class under the international policy.
pub fn intl_unit(class: TextClass, input: &[u8], pos: usize) -> (r: Option<(usize, char)>)
    requires
        pos <= input.len(),
    ensures
        reads(r, true, class, input@, pos as int),
{
    if pos < input.len() && strict(class, input[pos]) {
        return Some((pos + 1, input[pos] as char));
    }
    let wide = utf8_non_ascii(input, pos);
    if wide.is_some() {
        return wide;
    }
    match class {
        TextClass::Qtext => _8bit_char(input, pos),
        _ => None,
    }
}

/// A policy on octets above 127. Each method reads one unit of a class at a
/// position and returns the position after it and the character read.
#[allow(missing_docs)]
pub trait Utf8Policy {
    /// Whether well-formed UTF-8 sequences are read as characters.
    spec fn international() -> bool;

    fn vchar(input: &[u8], pos: usize) -> (r: Option<(usize, char)>)
        requires
            pos <= input.len(),
        ensures
            reads(r, Self::international(), TextClass::Vchar, input@, pos as int),
    ;

    fn ctext(input: &[u8], pos: usize) -> (r: Option<(usize, char)>)
        requires
            pos <= input.len(),
        ensures
            reads(r, Self::international(), TextClass::Ctext, input@, pos as int),
    ;

    fn atext(input: &[u8], pos: usize) -> (r: Option<(usize, char)>)
        requires
            pos <= input.len(),
        ensures
            reads(r, Self::international(), TextClass::Atext, input@, pos as int),
    ;

    fn qtext(input: &[u8], pos: usize) -> (r: Option<(usize, char)>)
        requires
            pos <= input.len(),
        ensures
            reads(r, Self::international(), TextClass::Qtext, input@, pos as int),
    ;

    fn dtext(input: &[u8], pos: usize) -> (r: Option<(usize, char)>)
        requires
            pos <= input.len(),
        ensures
            reads(r, Self::international(), TextClass::Dtext, input@, pos as int),
    ;
}

impl Utf8Policy for Legacy {
    open spec fn international() -> bool {
        false
    }

    fn vchar(input: &[u8], pos: usize) -> (r: Option<(usize, char)>) {
        strict_unit(TextClass::Vchar, input, pos)
    }

    fn ctext(input: &[u8], pos: usize) -> (r: Option<(usize, char)>) {
        strict_unit(TextClass::Ctext, input, pos)
    }

    fn atext(input: &[u8], pos: usize) -> (r: Option<(usize, char)>) {
        strict_unit(TextClass::Atext, input, pos)
    }

    fn qtext(input: &[u8], pos: usize) -> (r: Option<(usize, char)>) {
        strict_unit(TextClass::Qtext, input, pos)
    }

    fn dtext(input: &[u8], pos: usize) -> (r: Option<(usize, char)>) {
        strict_unit(TextClass::Dtext, input, pos)
    }
}

impl Utf8Policy for Intl {
    open spec fn international() -> bool {
        true
    }

    fn vchar(input: &[u8], pos: usize) -> (r: Option<(usize, char)>) {
        intl_unit(TextClass::Vchar, input, pos)
    }

    fn ctext(input: &[u8], pos: usize) -> (r: Option<(usize, char)>) {
        intl_unit(TextClass::Ctext, input, pos)
    }

    fn atext(input: &[u8], pos: usize) -> (r: Option<(usize, char)>) {
        intl_unit(TextClass::Atext, input, pos)
    }

    fn qtext(input: &[u8], pos: usize) -> (r: Option<(usize, char)>) {
        intl_unit(TextClass::Qtext, input, pos)
    }

    fn dtext(input: &[u8], pos: usize) -> (r: Option<(usize, char)>) {
        intl_unit(TextClass::Dtext, input, pos)
    }
}

/// Reads one unit of a class under the policy `P`.
pub fn unit<P: Utf8Policy>(class: TextClass, input: &[u8], pos: usize) -> (r: Option<
    (usize, char),
>)
    requires
        pos <= input.len(),
    ensures
        reads(r, P::international(), class, input@, pos as int),
{
    match class {
        TextClass::Vchar => P::vchar(input, pos),
        TextClass::Ctext => P::ctext(input, pos),
        TextClass::Atext => P::atext(input, pos),
        TextClass::Qtext => P::qtext(input, pos),
        TextClass::Dtext => P::dtext(input, pos),
    }
}

/// Reads the longest run of units of a class from `pos`, appends its text to
/// `out` and returns where it ends.
pub fn run<P: Utf8Policy>(class: TextClass, input: &[u8], pos: usize, out: &mut String) -> (end:
    usize)
    requires
        pos <= input.len(),
    ensures
        end == run_at(P::international(), class, input@, pos as int).0,
        final(out)@ == old(out)@ + run_at(P::international(), class, input@, pos as int).1,
        pos <= end <= input.len(),
{
    let ghost intl = P::international();
    let ghost acc = Seq::<char>::empty();
    let mut cur = pos;
    assert(out@ =~= old(out)@ + acc);
    loop
        invariant
            intl == P::international(),
            pos <= cur <= input.len(),
            out@ == old(out)@ + acc,
            run_at(intl, class, input@, pos as int) == (
                run_at(intl, class, input@, cur as int).0,
                acc + run_at(intl, class, input@, cur as int).1,
            ),
        ensures
            pos <= cur <= input.len(),
            out@ == old(out)@ + acc,
            run_at(intl, class, input@, pos as int) == (cur as int, acc),
        decreases input.len() - cur,
    {
        match unit::<P>(class, input, cur) {
            Some((p, c)) => {
                push_char(out, c);
                proof {
                    let more = run_at(intl, class, input@, p as int).1;
                    assert(acc + (seq![c] + more) =~= acc.push(c) + more);
                    assert((old(out)@ + acc).push(c) =~= old(out)@ + acc.push(c));
                    acc = acc.push(c);
                }
                cur = p;
            },
            None => {
                assert(acc + Seq::<char>::empty() =~= acc);
                break ;
            },
        }
    }
    cur
}

} // verus!
