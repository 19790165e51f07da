//! The MIME headers that carry a parameter list, and
//! `Content-Transfer-Encoding`.

use crate::rfc2231::grammar::{parameter_list_at, _parameter_list};
use crate::rfc2231::parameters::{decode_parameter_list, decoded_parameters};
use crate::rfc5322::lexical::{ofws, ofws_at};
use crate::util::{
    agrees, agrees_rest, byte_at, is_byte, is_word, keyword, keyword_at, lower_text,
    lower_text_of, parsable, rest, run_end, scan, text, text_of, views, word_is, ByteClass,
};
use vstd::prelude::*;
use vstd::slice::slice_subrange;
use vstd::string::*;

verus! {

/// A MIME type at `pos`: a token, `/` and a token.
pub open spec fn mime_type_at(s: Seq<u8>, pos: int) -> Option<int> {
    let slash = run_end(ByteClass::MimeToken, s, pos);
    let end = run_end(ByteClass::MimeToken, s, slash + 1);
    if 0 <= pos < slash && byte_at(s, slash, 0x2f) && end > slash + 1 {
        Some(end)
    } else {
        None
    }
}

/// The body of a `Content-Type` header: a MIME type with optional folding
/// white space on either side, and parameters. The type is in lower case.
pub open spec fn content_type_at(s: Seq<u8>) -> Option<
    (int, (Seq<char>, Seq<(Seq<char>, Seq<char>)>)),
> {
    let start = ofws_at(s, 0).0;
    match mime_type_at(s, start) {
        Some(end) => {
            let (last, parameters) = parameter_list_at(s, ofws_at(s, end).0);
            Some((last, (lower_text_of(s.subrange(start, end)), decoded_parameters(parameters))))
        },
        None => None,
    }
}

/// Reads a MIME type at `pos`, and returns where it ends.
pub fn _mime_type(input: &[u8], pos: usize) -> (r: Option<usize>)
    requires
        pos <= input.len(),
    ensures
        match r {
            Some(p) => mime_type_at(input@, pos as int) == Some(p as int) && pos < p
                <= input.len(),
            None => mime_type_at(input@, pos as int) is None,
        },
{
    let slash = scan(ByteClass::MimeToken, input, pos);
    if slash == pos || !is_byte(input, slash, 0x2f) {
        return None;
    }
    let end = scan(ByteClass::MimeToken, input, slash + 1);
    if end > slash + 1 {
        Some(end)
    } else {
        None
    }
}

/// Parse a MIME `"Content-Type"` header.
///
/// Returns the MIME type in lower case, the parameters, and the input that
/// follows them.
pub fn content_type(input: &[u8]) -> (r: Result<(&[u8], (String, Vec<(String, String)>)), ()>)
    requires
        parsable(input@.len() as int),
    ensures
        match r {
            Ok((rest, (mime_type, parameters))) => content_type_at(input@) matches Some(
                (p, (t, ps)),
            ) && 0 <= p <= input@.len() && rest@ == input@.subrange(p, input@.len() as int)
                && mime_type@ == t && views(parameters@) == ps,
            Err(_) => content_type_at(input@) is None,
        },
{
    let (start, _) = ofws(input, 0);
    match _mime_type(input, start) {
        Some(end) => {
            let (p, _) = ofws(input, end);
            let (last, parameters) = _parameter_list(input, p);
            Ok(
                (
                    rest(input, last),
                    (lower_text(input, start, end), decode_parameter_list(parameters)),
                ),
            )
        },
        None => Err(()),
    }
}

/// Value from a MIME `"Content-Disposition"` header.
#[derive(Debug, PartialEq)]
pub enum ContentDisposition {
    /// "inline"
    Inline,
    /// "attachment"
    Attachment,
    /// Value prefixed with "X-". The prefix is not stored in the
    /// string.
    Extended(String),
    /// Any syntactically valid token that is not any known disposition.
    Token(String),
}

/// The value of a [`ContentDisposition`].
pub enum DispositionModel {
    Inline,
    Attachment,
    Extended(Seq<char>),
    Token(Seq<char>),
}

impl View for ContentDisposition {
    type V = DispositionModel;

    open spec fn view(&self) -> DispositionModel {
        match self {
            ContentDisposition::Inline => DispositionModel::Inline,
            ContentDisposition::Attachment => DispositionModel::Attachment,
            ContentDisposition::Extended(s) => DispositionModel::Extended(s@),
            ContentDisposition::Token(t) => DispositionModel::Token(t@),
        }
    }
}

/// How a disposition is written.
pub open spec fn disposition_text(d: DispositionModel) -> Seq<char> {
    match d {
        DispositionModel::Inline => "inline"@,
        DispositionModel::Attachment => "attachment"@,
        DispositionModel::Extended(s) => "x-"@ + s,
        DispositionModel::Token(t) => t,
    }
}

impl ContentDisposition {
    /// The disposition as it is written in a header.
    pub fn to_string(&self) -> (r: String)
        ensures
            r@ == disposition_text(self@),
    {
        match self {
            ContentDisposition::Inline => String::from_str("inline"),
            ContentDisposition::Attachment => String::from_str("attachment"),
            ContentDisposition::Extended(s) => String::from_str("x-").concat(s.as_str()),
            ContentDisposition::Token(t) => t.clone(),
        }
    }
}

/// A token at `pos` after `x-`, in either case.
pub open spec fn x_token_at(s: Seq<u8>, pos: int) -> Option<(int, Seq<char>)> {
    let end = run_end(ByteClass::MimeToken, s, pos + 2);
    if keyword_at(s, pos, "x-"@) && end > pos + 2 {
        Some((end, text_of(s.subrange(pos + 2, end))))
    } else {
        None
    }
}

/// A token at `pos`, as text.
pub open spec fn token_at(s: Seq<u8>, pos: int) -> Option<(int, Seq<char>)> {
    let end = run_end(ByteClass::MimeToken, s, pos);
    if 0 <= pos < end {
        Some((end, text_of(s.subrange(pos, end))))
    } else {
        None
    }
}

/// What a token stands for as a disposition: `inline` or `attachment`
/// where the whole token spells one of them, in any mix of case; else what
/// follows `x-`; else the token itself.
pub open spec fn disposition_of(s: Seq<u8>, pos: int, end: int) -> DispositionModel {
    let whole = s.subrange(pos, end);
    if is_word(whole, "inline"@) {
        DispositionModel::Inline
    } else if is_word(whole, "attachment"@) {
        DispositionModel::Attachment
    } else {
        match x_token_at(s, pos) {
            Some((_, t)) => DispositionModel::Extended(t),
            None => DispositionModel::Token(text_of(whole)),
        }
    }
}

/// A disposition at `pos`: the whole token that stands there, classified.
pub open spec fn disposition_at(s: Seq<u8>, pos: int) -> Option<(int, DispositionModel)> {
    match token_at(s, pos) {
        Some((end, _)) => Some((end, disposition_of(s, pos, end))),
        None => None,
    }
}

/// The body of a `Content-Disposition` header: a disposition with optional
/// folding white space on either side, and parameters.
pub open spec fn content_disposition_at(s: Seq<u8>) -> Option<
    (int, (DispositionModel, Seq<(Seq<char>, Seq<char>)>)),
> {
    match disposition_at(s, ofws_at(s, 0).0) {
        Some((end, d)) => {
            let (last, parameters) = parameter_list_at(s, ofws_at(s, end).0);
            Some((last, (d, decoded_parameters(parameters))))
        },
        None => None,
    }
}

/// Reads a token at `pos`.
pub fn token(input: &[u8], pos: usize) -> (r: Option<(usize, String)>)
    requires
        pos <= input.len(),
    ensures
        agrees(r, token_at(input@, pos as int)),
        r matches Some((p, _)) ==> pos < p <= input.len(),
{
    let end = scan(ByteClass::MimeToken, input, pos);
    if end > pos {
        Some((end, text(input, pos, end)))
    } else {
        None
    }
}

/// Reads a token at `pos` after `x-`.
pub fn _x_token(input: &[u8], pos: usize) -> (r: Option<(usize, String)>)
    requires
        pos <= input.len(),
    ensures
        agrees(r, x_token_at(input@, pos as int)),
        r matches Some((p, _)) ==> pos < p <= input.len(),
{
    proof {
        reveal_strlit("x-");
    }
    if !keyword(input, pos, "x-") {
        return None;
    }
    let end = scan(ByteClass::MimeToken, input, pos + 2);
    if end > pos + 2 {
        Some((end, text(input, pos + 2, end)))
    } else {
        None
    }
}

/// Reads a disposition at `pos`.
pub fn _disposition(input: &[u8], pos: usize) -> (r: Option<(usize, ContentDisposition)>)
    requires
        pos <= input.len(),
    ensures
        agrees(r, disposition_at(input@, pos as int)),
        r matches Some((p, _)) ==> pos < p <= input.len(),
{
    proof {
        reveal_strlit("inline");
        reveal_strlit("attachment");
    }
    match token(input, pos) {
        Some((end, t)) => {
            let whole = slice_subrange(input, pos, end);
            if word_is(whole, "inline") {
                Some((end, ContentDisposition::Inline))
            } else if word_is(whole, "attachment") {
                Some((end, ContentDisposition::Attachment))
            } else {
                match _x_token(input, pos) {
                    Some((_, x)) => Some((end, ContentDisposition::Extended(x))),
                    None => Some((end, ContentDisposition::Token(t))),
                }
            }
        },
        None => None,
    }
}

/// Parse a MIME `"Content-Disposition"` header.
///
/// Returns the disposition, the parameters, and the input that follows
/// them. A disposition that is not known is no failure.
pub fn content_disposition(input: &[u8]) -> (r: Result<
    (&[u8], (ContentDisposition, Vec<(String, String)>)),
    (),
>)
    requires
        parsable(input@.len() as int),
    ensures
        match r {
            Ok((rest, (disposition, parameters))) => content_disposition_at(input@) matches Some(
                (p, (d, ps)),
            ) && 0 <= p <= input@.len() && rest@ == input@.subrange(p, input@.len() as int)
                && disposition@ == d && views(parameters@) == ps,
            Err(_) => content_disposition_at(input@) is None,
        },
{
    let (start, _) = ofws(input, 0);
    match _disposition(input, start) {
        Some((end, disposition)) => {
            let (p, _) = ofws(input, end);
            let (last, parameters) = _parameter_list(input, p);
            Ok((rest(input, last), (disposition, decode_parameter_list(parameters))))
        },
        None => Err(()),
    }
}

/// Value from a MIME `"Content-Transfer-Encoding"` header.
#[derive(Debug, PartialEq)]
pub enum ContentTransferEncoding {
    /// "7bit"
    SevenBit,
    /// "8bit"
    EightBit,
    /// "binary"
    Binary,
    /// "base64"
    Base64,
    /// "quoted-printable"
    QuotedPrintable,
    /// Value prefixed with "X-". The prefix is not stored in the
    /// string.
    Extended(String),
    /// Any syntactically valid token that is not any known encoding.
    Token(String),
}

/// The value of a [`ContentTransferEncoding`].
pub enum TransferEncodingModel {
    SevenBit,
    EightBit,
    Binary,
    Base64,
    QuotedPrintable,
    Extended(Seq<char>),
    Token(Seq<char>),
}

impl View for ContentTransferEncoding {
    type V = TransferEncodingModel;

    open spec fn view(&self) -> TransferEncodingModel {
        match self {
            ContentTransferEncoding::SevenBit => TransferEncodingModel::SevenBit,
            ContentTransferEncoding::EightBit => TransferEncodingModel::EightBit,
            ContentTransferEncoding::Binary => TransferEncodingModel::Binary,
            ContentTransferEncoding::Base64 => TransferEncodingModel::Base64,
            ContentTransferEncoding::QuotedPrintable => TransferEncodingModel::QuotedPrintable,
            ContentTransferEncoding::Extended(s) => TransferEncodingModel::Extended(s@),
            ContentTransferEncoding::Token(t) => TransferEncodingModel::Token(t@),
        }
    }
}

/// How a transfer encoding is written.
pub open spec fn transfer_encoding_text(e: TransferEncodingModel) -> Seq<char> {
    match e {
        TransferEncodingModel::SevenBit => "7bit"@,
        TransferEncodingModel::EightBit => "8bit"@,
        TransferEncodingModel::Binary => "binary"@,
        TransferEncodingModel::Base64 => "base64"@,
        TransferEncodingModel::QuotedPrintable => "quoted-printable"@,
        TransferEncodingModel::Extended(s) => "x-"@ + s,
        TransferEncodingModel::Token(t) => t,
    }
}

impl ContentTransferEncoding {
    /// The transfer encoding as it is written in a header.
    pub fn to_string(&self) -> (r: String)
        ensures
            r@ == transfer_encoding_text(self@),
    {
        match self {
            ContentTransferEncoding::SevenBit => String::from_str("7bit"),
            ContentTransferEncoding::EightBit => String::from_str("8bit"),
            ContentTransferEncoding::Binary => String::from_str("binary"),
            ContentTransferEncoding::Base64 => String::from_str("base64"),
            ContentTransferEncoding::QuotedPrintable => String::from_str("quoted-printable"),
            ContentTransferEncoding::Extended(s) => String::from_str("x-").concat(s.as_str()),
            ContentTransferEncoding::Token(t) => t.clone(),
        }
    }
}

/// What a token stands for as a transfer encoding: one of the five known
/// encodings where the whole token spells it, in any mix of case; else what
/// follows `x-`; else the token itself.
pub open spec fn transfer_encoding_of(s: Seq<u8>, pos: int, end: int) -> TransferEncodingModel {
    let whole = s.subrange(pos, end);
    if is_word(whole, "7bit"@) {
        TransferEncodingModel::SevenBit
    } else if is_word(whole, "8bit"@) {
        TransferEncodingModel::EightBit
    } else if is_word(whole, "binary"@) {
        TransferEncodingModel::Binary
    } else if is_word(whole, "base64"@) {
        TransferEncodingModel::Base64
    } else if is_word(whole, "quoted-printable"@) {
        TransferEncodingModel::QuotedPrintable
    } else {
        match x_token_at(s, pos) {
            Some((_, t)) => TransferEncodingModel::Extended(t),
            None => TransferEncodingModel::Token(text_of(whole)),
        }
    }
}

/// A transfer encoding at `pos`: the whole token that stands there,
/// classified.
pub open spec fn transfer_encoding_at(s: Seq<u8>, pos: int) -> Option<
    (int, TransferEncodingModel),
> {
    match token_at(s, pos) {
        Some((end, _)) => Some((end, transfer_encoding_of(s, pos, end))),
        None => None,
    }
}

/// The body of a `Content-Transfer-Encoding` header: a transfer encoding
/// with optional folding white space on either side.
pub open spec fn content_transfer_encoding_at(s: Seq<u8>) -> Option<(int, TransferEncodingModel)> {
    match transfer_encoding_at(s, ofws_at(s, 0).0) {
        Some((end, e)) => Some((ofws_at(s, end).0, e)),
        None => None,
    }
}

/// Reads a transfer encoding at `pos`.
pub fn transfer_encoding(input: &[u8], pos: usize) -> (r: Option<(usize, ContentTransferEncoding)>)
    requires
        pos <= input.len(),
    ensures
        agrees(r, transfer_encoding_at(input@, pos as int)),
        r matches Some((p, _)) ==> pos < p <= input.len(),
{
    proof {
        reveal_strlit("7bit");
        reveal_strlit("8bit");
        reveal_strlit("binary");
        reveal_strlit("base64");
        reveal_strlit("quoted-printable");
    }
    match token(input, pos) {
        Some((end, t)) => {
            let whole = slice_subrange(input, pos, end);
            if word_is(whole, "7bit") {
                Some((end, ContentTransferEncoding::SevenBit))
            } else if word_is(whole, "8bit") {
                Some((end, ContentTransferEncoding::EightBit))
            } else if word_is(whole, "binary") {
                Some((end, ContentTransferEncoding::Binary))
            } else if word_is(whole, "base64") {
                Some((end, ContentTransferEncoding::Base64))
            } else if word_is(whole, "quoted-printable") {
                Some((end, ContentTransferEncoding::QuotedPrintable))
            } else {
                match _x_token(input, pos) {
                    Some((_, x)) => Some((end, ContentTransferEncoding::Extended(x))),
                    None => Some((end, ContentTransferEncoding::Token(t))),
                }
            }
        },
        None => None,
    }
}

/// Parse a MIME `"Content-Transfer-Encoding"` header.
///
/// Returns the transfer encoding and the input that follows it. An
/// encoding that is not known is no failure.
pub fn content_transfer_encoding(input: &[u8]) -> (r: Result<
    (&[u8], ContentTransferEncoding),
    (),
>)
    ensures
        agrees_rest(r, input@, content_transfer_encoding_at(input@)),
{
    let (start, _) = ofws(input, 0);
    match transfer_encoding(input, start) {
        Some((end, encoding)) => {
            let (p, _) = ofws(input, end);
            Ok((rest(input, p), encoding))
        },
        None => Err(()),
    }
}

} // verus!
