//! Character sets and transfer encodings: the services that turn bytes into text.
//!
//! Label resolution and decoding are done by `encoding_rs`, base64 by `base64`
//! and the ASCII fallback by `charset`. What they return is named here, so
//! that the parsers built on them can say exactly what they yield.

use crate::util::REPLACEMENT;
use vstd::prelude::*;
use vstd::utf8::*;

verus! {

#[verifier::external_type_specification]
#[verifier::external_body]
pub struct ExEncoding(encoding_rs::Encoding);

/// The encoding that `encoding_rs::Encoding::for_label` finds for a label, if any.
pub uninterp spec fn encoding_for_label(label: Seq<u8>) -> Option<encoding_rs::Encoding>;

/// The text that `encoding_rs::Encoding::decode_without_bom_handling` makes of
/// bytes, malformed sequences replaced.
pub uninterp spec fn decoded_text(encoding: encoding_rs::Encoding, bytes: Seq<u8>) -> Seq<char>;

/// The bytes that the standard base64 engine of `base64` decodes a text to,
/// or nothing where it rejects the text.
pub uninterp spec fn base64_decoding(text: Seq<u8>) -> Option<Seq<u8>>;

/// The label `utf-8`.
pub open spec fn utf8_label() -> Seq<u8> {
    seq![0x75u8, 0x74u8, 0x66u8, 0x2du8, 0x38u8]
}

/// The longest input that can be handed to a decoder: the decoders reserve
/// up to three bytes of output for each byte of input, and a few more.
pub open spec fn decodable(len: int) -> bool {
    len <= usize::MAX / 4
}

/// The encoding in force for a charset label: the one that the label names,
/// and UTF-8 where it names none.
pub open spec fn codec_for(label: Seq<u8>) -> encoding_rs::Encoding {
    match encoding_for_label(label) {
        Some(e) => e,
        None => encoding_for_label(utf8_label())->0,
    }
}

/// The text of `bytes` in an encoding. No bytes are no text, whatever the
/// encoding.
pub open spec fn text_in(encoding: encoding_rs::Encoding, bytes: Seq<u8>) -> Seq<char> {
    if bytes.len() == 0 {
        Seq::empty()
    } else {
        decoded_text(encoding, bytes)
    }
}

/// The text of `bytes` in the character set that `label` names.
pub open spec fn charset_text(label: Seq<u8>, bytes: Seq<u8>) -> Seq<char> {
    text_in(codec_for(label), bytes)
}

/// The text of `bytes` read as UTF-8.
pub open spec fn utf8_text(bytes: Seq<u8>) -> Seq<char> {
    text_in(encoding_for_label(utf8_label())->0, bytes)
}

/// What `charset::decode_ascii` makes of bytes: ASCII stays, and each other
/// byte becomes U+FFFD.
pub open spec fn ascii_lossy(bytes: Seq<u8>) -> Seq<char> {
    Seq::new(
        bytes.len(),
        |i: int|
            if bytes[i] < 0x80 {
                bytes[i] as char
            } else {
                REPLACEMENT
            },
    )
}

/// Calls `encoding_rs::Encoding::for_label`. The contract names what it
/// returns and claims nothing more of it.
#[verifier::external_body]
pub(crate) fn for_label(label: &[u8]) -> (r: Option<&'static encoding_rs::Encoding>)
    ensures
        match r {
            Some(e) => encoding_for_label(label@) == Some(*e),
            None => encoding_for_label(label@) is None,
        },
{
    encoding_rs::Encoding::for_label(label)
}

/// Hands out `encoding_rs::UTF_8`. The contract claims that it is the
/// encoding that the label `utf-8` resolves to.
#[verifier::external_body]
pub(crate) fn utf8() -> (e: &'static encoding_rs::Encoding)
    ensures
        encoding_for_label(utf8_label()) == Some(*e),
{
    encoding_rs::UTF_8
}

/// Calls `encoding_rs::Encoding::decode_without_bom_handling` and keeps the
/// text. The contract names the text, and claims of it that no bytes give no
/// text and that UTF-8 decoding returns well-formed input as it is. Inputs
/// so long that the decoder's buffer size would overflow are left out.
#[verifier::external_body]
pub(crate) fn decode_with(encoding: &'static encoding_rs::Encoding, bytes: &[u8]) -> (r: String)
    requires
        decodable(bytes@.len() as int),
    ensures
        r@ == decoded_text(*encoding, bytes@),
        bytes@.len() == 0 ==> r@ == Seq::<char>::empty(),
        encoding_for_label(utf8_label()) == Some(*encoding) && valid_utf8(bytes@) ==> r@
            == decode_utf8(bytes@),
{
    encoding.decode_without_bom_handling(bytes).0.into_owned()
}

/// Calls `charset::decode_ascii`. The contract claims that ASCII bytes become
/// the characters of the same number and every other byte becomes U+FFFD.
#[verifier::external_body]
pub(crate) fn decode_ascii(bytes: &[u8]) -> (r: String)
    ensures
        r@ == ascii_lossy(bytes@),
{
    charset::decode_ascii(bytes).into_owned()
}

/// Calls `decode` of `base64::engine::general_purpose::STANDARD`. The
/// contract names the decoded bytes, and claims of them that they fit the
/// buffer that the engine sets up: three bytes for each four of the text,
/// rounded up.
#[verifier::external_body]
pub(crate) fn base64_decode(text: &[u8]) -> (r: Option<Vec<u8>>)
    ensures
        match r {
            Some(v) => base64_decoding(text@) == Some(v@) && v@.len() <= (text@.len() + 3) / 4
                * 3,
            None => base64_decoding(text@) is None,
        },
{
    match base64::Engine::decode(&base64::engine::general_purpose::STANDARD, text) {
        Ok(v) => Some(v),
        Err(_) => None,
    }
}

/// The encoding to decode with, given what the label resolved to: that
/// encoding, or the fallback where the label names none.
pub fn or_fallback(
    found: Option<&'static encoding_rs::Encoding>,
    fallback: &'static encoding_rs::Encoding,
) -> (e: &'static encoding_rs::Encoding)
    ensures
        *e == match found {
            Some(f) => *f,
            None => *fallback,
        },
{
    match found {
        Some(f) => f,
        None => fallback,
    }
}

/// Resolves a charset label, falling back to UTF-8.
pub fn codec(label: &[u8]) -> (e: &'static encoding_rs::Encoding)
    ensures
        *e == codec_for(label@),
        reads_as_utf8(label@) ==> encoding_for_label(utf8_label()) == Some(*e),
{
    or_fallback(for_label(label), utf8())
}

/// Decodes `bytes` in an encoding. Never fails: what cannot be decoded is
/// replaced.
pub fn decode(encoding: &'static encoding_rs::Encoding, bytes: &[u8]) -> (r: String)
    requires
        decodable(bytes@.len() as int),
    ensures
        r@ == text_in(*encoding, bytes@),
        encoding_for_label(utf8_label()) == Some(*encoding) && valid_utf8(bytes@) ==> r@
            == decode_utf8(bytes@),
{
    decode_with(encoding, bytes)
}

/// Whether bytes under a label are read as UTF-8: the label names UTF-8, or
/// it names no character set.
pub open spec fn reads_as_utf8(label: Seq<u8>) -> bool {
    codec_for(label) == encoding_for_label(utf8_label())->0
}

/// Decodes `bytes` in the character set that `label` names, or as UTF-8 where
/// it names none. Never fails: what cannot be decoded is replaced. Bytes
/// that are read as UTF-8 and are well formed come back as the text that
/// they encode.
pub fn decode_charset(label: &[u8], bytes: &[u8]) -> (r: String)
    requires
        decodable(bytes@.len() as int),
    ensures
        r@ == charset_text(label@, bytes@),
        reads_as_utf8(label@) && valid_utf8(bytes@) ==> r@ == decode_utf8(bytes@),
{
    decode(codec(label), bytes)
}

} // verus!
