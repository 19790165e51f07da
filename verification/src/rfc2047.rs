//! Header extensions for non-ASCII text: the encoded words of RFC 2047.

use crate::codec::{
    ascii_lossy, base64_decode, base64_decoding, charset_text, decodable, decode_ascii,
    decode_charset, reads_as_utf8,
};
use crate::escape::{decode_run, octets, Escape};
use crate::util::{
    agrees, agrees_rest, byte_at, is_alpha, is_byte, lower, parsable, rest, run_end, scan,
    to_lower, ByteClass,
};
use vstd::prelude::*;
use vstd::slice::{slice_subrange, slice_to_vec};
use vstd::string::*;
use vstd::utf8::*;

verus! {

/// What an encoded word holds: the label of its character set, and its
/// payload with the transfer encoding undone.
pub struct WordModel {
    pub charset: Seq<char>,
    pub bytes: Seq<u8>,
}

/// An encoded word. Constructed by [`encoded_word`].
#[derive(Debug)]
pub struct EncodedWord {
    charset: String,
    bytes: Vec<u8>,
}

impl View for EncodedWord {
    type V = WordModel;

    closed spec fn view(&self) -> WordModel {
        WordModel { charset: self.charset@, bytes: self.bytes@ }
    }
}

/// The text of a `Q` encoded word with the encoding undone: `=XX` is the
/// octet `XX`, `_` is a space and any other byte is itself. There is none
/// where a `=` is not followed by two hexadecimal digits.
pub open spec fn quoted_decoding(text: Seq<u8>) -> Option<Seq<u8>> {
    if octets(Escape::Quoted, text, 0).0 == text.len() {
        Some(octets(Escape::Quoted, text, 0).1)
    } else {
        None
    }
}

/// The encoded text with the transfer encoding that the letter names
/// undone: `Q` or `B`, in either case. There is none for another letter, nor
/// for a text that is malformed in its encoding.
pub open spec fn transfer_decoding(encoding: u8, text: Seq<u8>) -> Option<Seq<u8>> {
    if lower(encoding) == 0x71 {
        quoted_decoding(text)
    } else if lower(encoding) == 0x62 {
        base64_decoding(text)
    } else {
        None
    }
}

/// The payload of an encoded word: the decoded text, or the encoded text as
/// it stands where it cannot be decoded.
pub open spec fn payload_of(decoded: Option<Seq<u8>>, text: Seq<u8>) -> Seq<u8> {
    match decoded {
        Some(bytes) => bytes,
        None => text,
    }
}

/// Where the optional `*language` after the charset ends.
pub open spec fn language_end(s: Seq<u8>, pos: int) -> int {
    if byte_at(s, pos, 0x2a) && run_end(ByteClass::WordToken, s, pos + 1) > pos + 1 {
        run_end(ByteClass::WordToken, s, pos + 1)
    } else {
        pos
    }
}

/// An encoded word at `pos`: `=?charset[*language]?encoding?text?=`, where
/// the encoding is one letter.
pub open spec fn encoded_word_at(s: Seq<u8>, pos: int) -> Option<(int, WordModel)> {
    let charset_end = run_end(ByteClass::WordToken, s, pos + 2);
    let mark = language_end(s, charset_end);
    let text_end = run_end(ByteClass::EncodedText, s, mark + 3);
    if 0 <= pos && byte_at(s, pos, 0x3d) && byte_at(s, pos + 1, 0x3f) && charset_end > pos + 2
        && byte_at(s, mark, 0x3f) && mark + 1 < s.len() && is_alpha(s[mark + 1]) && byte_at(
        s,
        mark + 2,
        0x3f,
    ) && text_end > mark + 3 && byte_at(s, text_end, 0x3f) && byte_at(s, text_end + 1, 0x3d) {
        let text = s.subrange(mark + 3, text_end);
        Some(
            (
                text_end + 2,
                WordModel {
                    charset: ascii_lossy(s.subrange(pos + 2, charset_end)),
                    bytes: payload_of(transfer_decoding(s[mark + 1], text), text),
                },
            ),
        )
    } else {
        None
    }
}

/// The text that an encoded word stands for: its payload in its character
/// set, or in UTF-8 where the label names none.
pub open spec fn word_text(w: WordModel) -> Seq<char> {
    charset_text(encode_utf8(w.charset), w.bytes)
}

/// Undoes the modified quoted-printable encoding of an encoded word.
pub fn decode_qp(input: &[u8]) -> (r: Option<Vec<u8>>)
    ensures
        match r {
            Some(v) => quoted_decoding(input@) == Some(v@),
            None => quoted_decoding(input@) is None,
        },
        r matches Some(v) ==> v@.len() <= input@.len(),
{
    let (end, bytes) = decode_run(Escape::Quoted, input, 0);
    if end == input.len() {
        Some(bytes)
    } else {
        None
    }
}

/// Undoes the quoted-printable or base64 encoding.
pub fn decode_text(encoding: u8, text: &[u8]) -> (r: Option<Vec<u8>>)
    ensures
        match r {
            Some(v) => transfer_decoding(encoding, text@) == Some(v@),
            None => transfer_decoding(encoding, text@) is None,
        },
        r matches Some(v) ==> v@.len() <= (text@.len() + 3) / 4 * 3 || v@.len() <= text@.len(),
{
    let letter = to_lower(encoding);
    if letter == 0x71 {
        decode_qp(text)
    } else if letter == 0x62 {
        base64_decode(text)
    } else {
        None
    }
}

/// The payload of an encoded word, given what undoing the transfer encoding
/// came to: the decoded bytes, or a copy of the encoded text.
pub fn payload(decoded: Option<Vec<u8>>, text: &[u8]) -> (r: Vec<u8>)
    ensures
        r@ == payload_of(
            match decoded {
                Some(v) => Some(v@),
                None => None,
            },
            text@,
        ),
{
    match decoded {
        Some(v) => v,
        None => slice_to_vec(text),
    }
}

impl EncodedWord {
    #[verifier::type_invariant]
    spec fn fits(&self) -> bool {
        decodable(self.bytes@.len() as int)
    }

    /// The text of the word. Decoding never fails: a label that names no
    /// character set is read as UTF-8, and bytes that are malformed in the
    /// character set become U+FFFD. The text depends on the word alone, and
    /// is not decoded any further: a payload that is read as UTF-8 and is
    /// well formed yields the text that it encodes, whatever that text
    /// looks like.
    pub fn decode(&self) -> (r: String)
        ensures
            r@ == word_text(self@),
            reads_as_utf8(encode_utf8(self@.charset)) && valid_utf8(self@.bytes) ==> r@
                == decode_utf8(self@.bytes),
    {
        proof {
            use_type_invariant(self);
        }
        decode_charset(self.charset.as_str().as_bytes(), self.bytes.as_slice())
    }
}

/// Reads an encoded word at `pos`.
pub fn encoded_word_from(input: &[u8], pos: usize) -> (r: Option<(usize, EncodedWord)>)
    requires
        pos <= input.len(),
        parsable(input@.len() as int),
    ensures
        agrees(r, encoded_word_at(input@, pos as int)),
        r matches Some((p, _)) ==> pos < p <= input.len(),
{
    if !(is_byte(input, pos, 0x3d) && is_byte(input, pos + 1, 0x3f)) {
        return None;
    }
    let charset_end = scan(ByteClass::WordToken, input, pos + 2);
    if charset_end == pos + 2 {
        return None;
    }
    let mut mark = charset_end;
    if is_byte(input, charset_end, 0x2a) {
        let end = scan(ByteClass::WordToken, input, charset_end + 1);
        if end > charset_end + 1 {
            mark = end;
        }
    }
    if !is_byte(input, mark, 0x3f) || input.len() - mark < 3 {
        return None;
    }
    let encoding = input[mark + 1];
    let is_letter = (0x41 <= encoding && encoding <= 0x5a) || (0x61 <= encoding && encoding
        <= 0x7a);
    if !is_letter || input[mark + 2] != 0x3f {
        return None;
    }
    let text_end = scan(ByteClass::EncodedText, input, mark + 3);
    if text_end == mark + 3 || !is_byte(input, text_end, 0x3f) || !is_byte(
        input,
        text_end + 1,
        0x3d,
    ) {
        return None;
    }
    let text = slice_subrange(input, mark + 3, text_end);
    let bytes = payload(decode_text(encoding, text), text);
    let charset = decode_ascii(slice_subrange(input, pos + 2, charset_end));
    Some((text_end + 2, EncodedWord { charset, bytes }))
}

/// Decode an encoded word.
///
/// Returns the word and the input that follows it. An unknown encoding, or
/// a text that is malformed in its encoding, is no failure: the word then
/// holds the encoded text as it stands.
pub fn encoded_word(input: &[u8]) -> (r: Result<(&[u8], EncodedWord), ()>)
    requires
        parsable(input@.len() as int),
    ensures
        agrees_rest(r, input@, encoded_word_at(input@, 0)),
{
    match encoded_word_from(input, 0) {
        Some((p, w)) => Ok((rest(input, p), w)),
        None => Err(()),
    }
}

} // verus!
