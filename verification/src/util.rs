//! Byte classes, runs of bytes and small text helpers shared by the grammars.

use vstd::prelude::*;
use vstd::string::*;
use vstd::utf8::*;

verus! {

/// What a parser at a position yields: the position after the match and the
/// value matched, or nothing.
pub open spec fn agrees<T: View>(r: Option<(usize, T)>, m: Option<(int, T::V)>) -> bool {
    match r {
        Some((p, v)) => m == Some((p as int, v@)),
        None => m is None,
    }
}

/// The same for an entry point, which hands back the input left over.
pub open spec fn agrees_rest<T: View>(
    r: Result<(&[u8], T), ()>,
    s: Seq<u8>,
    m: Option<(int, T::V)>,
) -> bool {
    match r {
        Ok((rest, v)) => m matches Some((p, w)) && 0 <= p <= s.len() && rest@ == s.subrange(
            p,
            s.len() as int,
        ) && v@ == w,
        Err(_) => m is None,
    }
}

/// The views of the items of a sequence.
pub open spec fn views<T: View>(s: Seq<T>) -> Seq<T::V> {
    Seq::new(s.len(), |i: int| s[i]@)
}

/// The views of a sequence with one more item are the views of the
/// sequence with the view of the item.
pub proof fn lemma_views_push<T: View>(s: Seq<T>, x: T)
    ensures
        views(s.push(x)) == views(s).push(x@),
{
    assert(views(s.push(x)) =~= views(s).push(x@));
}

/// The longest input that the parsers take. The decoders behind them reserve
/// several bytes of output for each byte of input, so the limit keeps every
/// such size within `usize`.
pub open spec fn parsable(len: int) -> bool {
    len <= usize::MAX / 8
}

/// What a parser of a list yields at a position.
pub open spec fn agrees_all<T: View>(r: Option<(usize, Vec<T>)>, m: Option<(int, Seq<T::V>)>) -> bool {
    match r {
        Some((p, v)) => m == Some((p as int, views(v@))),
        None => m is None,
    }
}

/// The same for an entry point, which hands back the input left over.
pub open spec fn agrees_rest_all<T: View>(
    r: Result<(&[u8], Vec<T>), ()>,
    s: Seq<u8>,
    m: Option<(int, Seq<T::V>)>,
) -> bool {
    match r {
        Ok((rest, v)) => m matches Some((p, w)) && 0 <= p <= s.len() && rest@ == s.subrange(
            p,
            s.len() as int,
        ) && views(v@) == w,
        Err(_) => m is None,
    }
}

/// U+FFFD, which stands for an octet that has no meaning as text.
pub const REPLACEMENT: char = '\u{fffd}';

/// Printable ASCII but the space: `!` to `~`.
pub open spec fn is_graphic(b: u8) -> bool {
    0x21 <= b <= 0x7e
}

/// A decimal digit.
pub open spec fn is_digit(b: u8) -> bool {
    0x30 <= b <= 0x39
}

/// An ASCII letter.
pub open spec fn is_alpha(b: u8) -> bool {
    0x41 <= b <= 0x5a || 0x61 <= b <= 0x7a
}

/// A hexadecimal digit, in either case.
pub open spec fn is_hex_digit(b: u8) -> bool {
    is_digit(b) || 0x41 <= b <= 0x46 || 0x61 <= b <= 0x66
}

/// A blank: a space or a horizontal tab.
pub open spec fn is_wsp(b: u8) -> bool {
    b == 0x20 || b == 0x09
}

/// The characters `( ) < > @ , ; : \ " / [ ] ? =`, which end a MIME token.
pub open spec fn is_tspecial(b: u8) -> bool {
    b == 0x28 || b == 0x29 || b == 0x3c || b == 0x3e || b == 0x40 || b == 0x2c || b == 0x3b || b
        == 0x3a || b == 0x5c || b == 0x22 || b == 0x2f || b == 0x5b || b == 0x5d || b == 0x3f || b
        == 0x3d
}

/// The sets of bytes that the grammars take runs of.
#[derive(Clone, Copy, Debug)]
pub enum ByteClass {
    /// Space and horizontal tab.
    Wsp,
    /// Printable ASCII, `!` to `~`.
    Graphic,
    /// `0` to `9`.
    Digit,
    /// A token of an encoded word: printable ASCII but the tspecials, `.`
    /// and `*`, which parts the character set from the language.
    WordToken,
    /// RFC 2047 encoded text: printable ASCII but `?`.
    EncodedText,
    /// An RFC 2045 token: printable ASCII but the tspecials.
    MimeToken,
    /// An RFC 2231 attribute character: a token character but `*`, `'` and `%`.
    Attribute,
    /// A header field name: printable ASCII but `:`.
    FieldName,
}

/// Whether a class holds a byte.
pub open spec fn in_class(class: ByteClass, b: u8) -> bool {
    match class {
        ByteClass::Wsp => is_wsp(b),
        ByteClass::Graphic => is_graphic(b),
        ByteClass::Digit => is_digit(b),
        ByteClass::WordToken => is_graphic(b) && !is_tspecial(b) && b != 0x2e && b != 0x2a,
        ByteClass::EncodedText => is_graphic(b) && b != 0x3f,
        ByteClass::MimeToken => is_graphic(b) && !is_tspecial(b),
        ByteClass::Attribute => is_graphic(b) && !is_tspecial(b) && b != 0x2a && b != 0x27 && b
            != 0x25,
        ByteClass::FieldName => is_graphic(b) && b != 0x3a,
    }
}

/// Whether a byte is printable ASCII but the space.
pub fn graphic(b: u8) -> (r: bool)
    ensures
        r == is_graphic(b),
{
    0x21 <= b && b <= 0x7e
}

/// Whether a byte is a hexadecimal digit.
pub fn hex_digit(b: u8) -> (r: bool)
    ensures
        r == is_hex_digit(b),
{
    (0x30 <= b && b <= 0x39) || (0x41 <= b && b <= 0x46) || (0x61 <= b && b <= 0x66)
}

/// Whether a byte ends a MIME token.
pub fn tspecial(b: u8) -> (r: bool)
    ensures
        r == is_tspecial(b),
{
    b == 0x28 || b == 0x29 || b == 0x3c || b == 0x3e || b == 0x40 || b == 0x2c || b == 0x3b || b
        == 0x3a || b == 0x5c || b == 0x22 || b == 0x2f || b == 0x5b || b == 0x5d || b == 0x3f || b
        == 0x3d
}

impl ByteClass {
    /// Whether the class holds the byte.
    pub fn contains(self, b: u8) -> (r: bool)
        ensures
            r == in_class(self, b),
    {
        match self {
            ByteClass::Wsp => b == 0x20 || b == 0x09,
            ByteClass::Graphic => graphic(b),
            ByteClass::Digit => 0x30 <= b && b <= 0x39,
            ByteClass::WordToken => graphic(b) && !tspecial(b) && b != 0x2e && b != 0x2a,
            ByteClass::EncodedText => graphic(b) && b != 0x3f,
            ByteClass::MimeToken => graphic(b) && !tspecial(b),
            ByteClass::Attribute => graphic(b) && !tspecial(b) && b != 0x2a && b != 0x27 && b
                != 0x25,
            ByteClass::FieldName => graphic(b) && b != 0x3a,
        }
    }
}

/// Where the longest run of bytes of `class` that starts at `pos` ends.
pub open spec fn run_end(class: ByteClass, s: Seq<u8>, pos: int) -> int
    decreases s.len() - pos,
{
    if 0 <= pos < s.len() && in_class(class, s[pos]) {
        run_end(class, s, pos + 1)
    } else {
        pos
    }
}

/// A run ends at the first byte outside the class, or at the end of the input.
pub proof fn lemma_run_end(class: ByteClass, s: Seq<u8>, pos: int)
    requires
        0 <= pos <= s.len(),
    ensures
        pos <= run_end(class, s, pos) <= s.len(),
        forall|i: int| pos <= i < run_end(class, s, pos) ==> in_class(class, #[trigger] s[i]),
        run_end(class, s, pos) < s.len() ==> !in_class(class, s[run_end(class, s, pos)]),
    decreases s.len() - pos,
{
    if pos < s.len() && in_class(class, s[pos]) {
        lemma_run_end(class, s, pos + 1);
    }
}

/// A position that ends a stretch of bytes of the class, and is followed by
/// none, is where the run ends.
pub proof fn lemma_run_end_is(class: ByteClass, s: Seq<u8>, pos: int, end: int)
    requires
        0 <= pos <= end <= s.len(),
        forall|i: int| pos <= i < end ==> in_class(class, #[trigger] s[i]),
        end < s.len() ==> !in_class(class, s[end]),
    ensures
        run_end(class, s, pos) == end,
    decreases end - pos,
{
    if pos < end {
        lemma_run_end_is(class, s, pos + 1, end);
    }
}

/// Takes the longest run of bytes of `class` from `pos`, and returns where it ends.
pub fn scan(class: ByteClass, input: &[u8], pos: usize) -> (end: usize)
    requires
        pos <= input.len(),
    ensures
        end == run_end(class, input@, pos as int),
        pos <= end <= input.len(),
{
    let mut end = pos;
    while end < input.len() && class.contains(input[end])
        invariant
            pos <= end <= input.len(),
            forall|i: int| pos <= i < end ==> in_class(class, #[trigger] input@[i]),
        decreases input.len() - end,
    {
        end += 1;
    }
    proof {
        lemma_run_end_is(class, input@, pos as int, end as int);
    }
    end
}

/// Whether the byte `b` stands at `pos`.
pub open spec fn byte_at(s: Seq<u8>, pos: int, b: u8) -> bool {
    0 <= pos < s.len() && s[pos] == b
}

/// Whether the byte `b` stands at `pos`.
pub fn is_byte(input: &[u8], pos: usize, b: u8) -> (r: bool)
    ensures
        r == byte_at(input@, pos as int, b),
{
    pos < input.len() && input[pos] == b
}

/// Whether CR LF stands at `pos`.
pub open spec fn crlf_at(s: Seq<u8>, pos: int) -> bool {
    0 <= pos && pos + 2 <= s.len() && s[pos] == 0x0d && s[pos + 1] == 0x0a
}

/// Whether CR LF stands at `pos`.
pub fn is_crlf(input: &[u8], pos: usize) -> (r: bool)
    ensures
        r == crlf_at(input@, pos as int),
{
    pos < input.len() && input.len() - pos >= 2 && input[pos] == 0x0d && input[pos + 1] == 0x0a
}

/// The position after an optional CR LF.
pub open spec fn skip_crlf(s: Seq<u8>, pos: int) -> int {
    if crlf_at(s, pos) {
        pos + 2
    } else {
        pos
    }
}

/// The ASCII lower-case form of a byte.
pub open spec fn lower(b: u8) -> u8 {
    if 0x41 <= b <= 0x5a {
        (b + 0x20) as u8
    } else {
        b
    }
}

/// The ASCII lower-case form of a byte.
pub fn to_lower(b: u8) -> (r: u8)
    ensures
        r == lower(b),
{
    if 0x41 <= b && b <= 0x5a {
        b + 0x20
    } else {
        b
    }
}

/// Whether `word`, a lower-case ASCII word, stands at `pos` in any mix of case.
pub open spec fn keyword_at(s: Seq<u8>, pos: int, word: Seq<char>) -> bool {
    &&& 0 <= pos
    &&& pos + word.len() <= s.len()
    &&& forall|i: int| 0 <= i < word.len() ==> lower(#[trigger] s[pos + i]) as char == word[i]
}

/// Matches a lower-case ASCII word at `pos`, ignoring the case of the input.
pub fn keyword(input: &[u8], pos: usize, word: &str) -> (r: bool)
    requires
        pos <= input.len(),
        is_ascii(word),
    ensures
        r == keyword_at(input@, pos as int, word@),
{
    broadcast use is_ascii_spec_bytes;

    let w = word.as_bytes();
    let n = w.len();
    if n > input.len() - pos {
        return false;
    }
    let mut i: usize = 0;
    while i < n
        invariant
            pos + n <= input.len(),
            n == word@.len(),
            w@ == word.spec_bytes(),
            is_ascii(word),
            i <= n,
            forall|j: int| 0 <= j < i ==> lower(#[trigger] input@[pos + j]) as char == word@[j],
        decreases n - i,
    {
        if to_lower(input[pos + i]) != w[i] {
            assert(lower(input@[pos + i]) as char != word@[i as int]);
            return false;
        }
        i += 1;
    }
    true
}

/// Whether the bytes spell a lower-case ASCII word, in any mix of case, and
/// nothing else.
pub open spec fn is_word(bytes: Seq<u8>, word: Seq<char>) -> bool {
    bytes.len() == word.len() && keyword_at(bytes, 0, word)
}

/// Whether the bytes spell a lower-case ASCII word, in any mix of case, and
/// nothing else.
pub fn word_is(bytes: &[u8], word: &str) -> (r: bool)
    requires
        is_ascii(word),
    ensures
        r == is_word(bytes@, word@),
{
    broadcast use is_ascii_spec_bytes;

    bytes.len() == word.as_bytes().len() && keyword(bytes, 0, word)
}

/// The text that a stretch of bytes stands for, each byte taken as the
/// character of the same number.
pub open spec fn text_of(bytes: Seq<u8>) -> Seq<char> {
    Seq::new(bytes.len(), |i: int| bytes[i] as char)
}

/// The same in ASCII lower case.
pub open spec fn lower_text_of(bytes: Seq<u8>) -> Seq<char> {
    Seq::new(bytes.len(), |i: int| lower(bytes[i]) as char)
}

/// `String::push`: appends one character.
#[verifier::external_body]
pub(crate) fn push_char(s: &mut String, c: char)
    ensures
        final(s)@ == old(s)@.push(c),
{
    s.push(c)
}

/// `core::str::from_utf8`: the text that bytes encode in UTF-8, where they are
/// well formed.
#[verifier::external_body]
pub(crate) fn from_utf8(bytes: &[u8]) -> (r: Option<&str>)
    ensures
        match r {
            Some(t) => valid_utf8(bytes@) && t@ == decode_utf8(bytes@),
            None => !valid_utf8(bytes@),
        },
{
    core::str::from_utf8(bytes).ok()
}

/// Appends the bytes of `input` from `from` to `to`, each as the character of
/// the same number.
pub fn push_text(out: &mut String, input: &[u8], from: usize, to: usize)
    requires
        from <= to <= input.len(),
    ensures
        final(out)@ == old(out)@ + text_of(input@.subrange(from as int, to as int)),
{
    let mut i = from;
    while i < to
        invariant
            from <= i <= to <= input.len(),
            out@ == old(out)@ + text_of(input@.subrange(from as int, i as int)),
        decreases to - i,
    {
        push_char(out, input[i] as char);
        i += 1;
        assert(out@ =~= old(out)@ + text_of(input@.subrange(from as int, i as int)));
    }
}

/// The bytes of `input` from `from` to `to` as text.
pub fn text(input: &[u8], from: usize, to: usize) -> (r: String)
    requires
        from <= to <= input.len(),
    ensures
        r@ == text_of(input@.subrange(from as int, to as int)),
{
    let mut out = String::new();
    push_text(&mut out, input, from, to);
    assert(out@ =~= text_of(input@.subrange(from as int, to as int)));
    out
}

/// The bytes of `input` from `from` to `to` as text in ASCII lower case.
pub fn lower_text(input: &[u8], from: usize, to: usize) -> (r: String)
    requires
        from <= to <= input.len(),
    ensures
        r@ == lower_text_of(input@.subrange(from as int, to as int)),
{
    let mut out = String::new();
    let mut i = from;
    while i < to
        invariant
            from <= i <= to <= input.len(),
            out@ == lower_text_of(input@.subrange(from as int, i as int)),
        decreases to - i,
    {
        push_char(&mut out, to_lower(input[i]) as char);
        i += 1;
        assert(out@ =~= lower_text_of(input@.subrange(from as int, i as int)));
    }
    out
}

/// The input from `pos` on.
pub fn rest(input: &[u8], pos: usize) -> (r: &[u8])
    requires
        pos <= input.len(),
    ensures
        r@ == input@.subrange(pos as int, input@.len() as int),
{
    vstd::slice::slice_subrange(input, pos, input.len())
}

} // verus!
