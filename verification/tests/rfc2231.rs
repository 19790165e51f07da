use rustyknife::rfc2231::{
    content_disposition, content_transfer_encoding, content_type, ContentDisposition,
    ContentTransferEncoding,
};

fn pairs(list: &[(&str, &str)]) -> Vec<(String, String)> {
    list.iter().map(|(n, v)| (n.to_string(), v.to_string())).collect()
}

#[test]
fn content_type_plain() {
    let (rest, (mime, params)) = content_type(b"text/plain; charset=utf-8").unwrap();
    assert_eq!(rest, b"");
    assert_eq!(mime, "text/plain");
    assert_eq!(params, pairs(&[("charset", "utf-8")]));
}

#[test]
fn content_type_is_lower_cased() {
    let (_, (mime, params)) = content_type(b" Text/HTML ; CharSet=\"UTF-8\";\r\n").unwrap();
    assert_eq!(mime, "text/html");
    assert_eq!(params, pairs(&[("charset", "UTF-8")]));
}

#[test]
fn content_type_without_parameters() {
    let (rest, (mime, params)) = content_type(b"image/png").unwrap();
    assert_eq!(rest, b"");
    assert_eq!(mime, "image/png");
    assert!(params.is_empty());
}

#[test]
fn content_type_needs_a_type() {
    assert!(content_type(b"text").is_err());
    assert!(content_type(b"; charset=utf-8").is_err());
    assert!(content_type(b"text/").is_err());
}

#[test]
fn sections_in_order() {
    let (_, (_, params)) =
        content_type(b"a/b; title*0=\"hello\"; title*1=\"world\"").unwrap();
    assert_eq!(params, pairs(&[("title", "helloworld")]));
}

#[test]
fn sections_out_of_order() {
    let (_, (_, params)) =
        content_type(b"a/b; title*1=\"world\"; title*0=\"hello\"").unwrap();
    assert_eq!(params, pairs(&[("title", "helloworld")]));
}

#[test]
fn extended_value_with_charset() {
    let (_, (_, params)) =
        content_type(b"a/b; title*=iso-8859-1'en'caf%E9%20au%20lait").unwrap();
    assert_eq!(params, pairs(&[("title", "caf\u{e9} au lait")]));
}

#[test]
fn extended_value_without_charset_is_utf8() {
    let (_, (_, params)) = content_type(b"a/b; title*=''%C3%A9").unwrap();
    assert_eq!(params, pairs(&[("title", "\u{e9}")]));
}

#[test]
fn character_split_across_sections() {
    let (_, (_, params)) =
        content_type(b"a/b; t*1*=%A9; t*0*=utf-8''caf%C3; t*2=\" au lait\"").unwrap();
    assert_eq!(params, pairs(&[("t", "caf\u{e9} au lait")]));
}

#[test]
fn text_section_interrupts_the_bytes() {
    let (_, (_, params)) =
        content_type(b"a/b; t*0*=utf-8''%C3; t*1=x; t*2*=%A9").unwrap();
    assert_eq!(params, pairs(&[("t", "\u{fffd}x\u{fffd}")]));
}

#[test]
fn extended_value_wins_over_regular() {
    let (_, (_, params)) = content_type(b"a/b; n*=utf-8''new; n=old").unwrap();
    assert_eq!(params, pairs(&[("n", "new")]));
}

#[test]
fn last_regular_value_wins() {
    let (_, (_, params)) = content_type(b"a/b; N=one; x=y; n=two").unwrap();
    assert_eq!(params, pairs(&[("n", "two"), ("x", "y")]));
}

#[test]
fn missing_and_duplicate_sections_are_tolerated() {
    let (_, (_, params)) = content_type(b"a/b; t*3=c; t*1=a; t*1=b").unwrap();
    assert_eq!(params, pairs(&[("t", "abc")]));
}

#[test]
fn section_numbers_have_no_leading_zero() {
    let (rest, (_, params)) = content_type(b"a/b; t*01=x").unwrap();
    assert!(params.is_empty());
    assert_eq!(rest, b" t*01=x");
}

#[test]
fn section_number_of_eight_digits() {
    let (_, (_, params)) = content_type(b"a/b; t*99999999=z; t*0=a").unwrap();
    assert_eq!(params, pairs(&[("t", "az")]));
}

#[test]
fn disposition_known_values() {
    let (_, (d, params)) = content_disposition(b"attachment; filename=a.txt").unwrap();
    assert_eq!(d, ContentDisposition::Attachment);
    assert_eq!(params, pairs(&[("filename", "a.txt")]));
    let (_, (d, _)) = content_disposition(b"INLINE").unwrap();
    assert_eq!(d, ContentDisposition::Inline);
}

#[test]
fn disposition_fallbacks() {
    let (_, (d, _)) = content_disposition(b"X-Special").unwrap();
    assert_eq!(d, ContentDisposition::Extended("Special".to_string()));
    let (_, (d, _)) = content_disposition(b"form-data; name=f").unwrap();
    assert_eq!(d, ContentDisposition::Token("form-data".to_string()));
    assert!(content_disposition(b"").is_err());
}

#[test]
fn disposition_texts() {
    assert_eq!(ContentDisposition::Inline.to_string(), "inline");
    assert_eq!(ContentDisposition::Attachment.to_string(), "attachment");
    assert_eq!(ContentDisposition::Extended("y".to_string()).to_string(), "x-y");
    assert_eq!(ContentDisposition::Token("form-data".to_string()).to_string(), "form-data");
}

#[test]
fn transfer_encodings() {
    let cases: Vec<(&[u8], ContentTransferEncoding)> = vec![
        (b"7bit", ContentTransferEncoding::SevenBit),
        (b"8BIT", ContentTransferEncoding::EightBit),
        (b" binary ", ContentTransferEncoding::Binary),
        (b"Base64", ContentTransferEncoding::Base64),
        (b"quoted-printable", ContentTransferEncoding::QuotedPrintable),
        (b"x-uuencode", ContentTransferEncoding::Extended("uuencode".to_string())),
        (b"uuencode", ContentTransferEncoding::Token("uuencode".to_string())),
    ];
    for (input, expected) in cases {
        let (rest, found) = content_transfer_encoding(input).unwrap();
        assert_eq!(rest, b"");
        assert_eq!(found, expected);
    }
    assert!(content_transfer_encoding(b"").is_err());
    assert!(content_transfer_encoding(b"/").is_err());
}

#[test]
fn transfer_encoding_texts() {
    assert_eq!(ContentTransferEncoding::SevenBit.to_string(), "7bit");
    assert_eq!(ContentTransferEncoding::EightBit.to_string(), "8bit");
    assert_eq!(ContentTransferEncoding::Binary.to_string(), "binary");
    assert_eq!(ContentTransferEncoding::Base64.to_string(), "base64");
    assert_eq!(ContentTransferEncoding::QuotedPrintable.to_string(), "quoted-printable");
    assert_eq!(ContentTransferEncoding::Extended("u".to_string()).to_string(), "x-u");
    assert_eq!(ContentTransferEncoding::Token("u".to_string()).to_string(), "u");
}

#[test]
fn disposition_is_the_whole_token() {
    let (rest, (d, params)) = content_disposition(b"inlinefoo").unwrap();
    assert_eq!(rest, b"");
    assert_eq!(d, ContentDisposition::Token("inlinefoo".to_string()));
    assert!(params.is_empty());
    let (_, (d, _)) = content_disposition(b"attachments; a=b").unwrap();
    assert_eq!(d, ContentDisposition::Token("attachments".to_string()));
    let (_, (d, _)) = content_disposition(b"AttachMent").unwrap();
    assert_eq!(d, ContentDisposition::Attachment);
    let (_, (d, _)) = content_disposition(b"x-").unwrap();
    assert_eq!(d, ContentDisposition::Token("x-".to_string()));
    let (rest, (d, _)) = content_disposition(b"inline/x").unwrap();
    assert_eq!(d, ContentDisposition::Inline);
    assert_eq!(rest, b"/x");
}

#[test]
fn transfer_encoding_is_the_whole_token() {
    let (rest, e) = content_transfer_encoding(b"base64x").unwrap();
    assert_eq!(rest, b"");
    assert_eq!(e, ContentTransferEncoding::Token("base64x".to_string()));
    let (_, e) = content_transfer_encoding(b"7bits").unwrap();
    assert_eq!(e, ContentTransferEncoding::Token("7bits".to_string()));
    let (_, e) = content_transfer_encoding(b"Quoted-Printable\r\n").unwrap();
    assert_eq!(e, ContentTransferEncoding::QuotedPrintable);
    let (_, e) = content_transfer_encoding(b"X-7bit").unwrap();
    assert_eq!(e, ContentTransferEncoding::Extended("7bit".to_string()));
}

#[test]
fn no_bytes_add_no_text() {
    let (_, (_, params)) = content_type(b"a/b; t*0*=utf-16le''; t*1=x").unwrap();
    assert_eq!(params, pairs(&[("t", "x")]));
    let (_, (_, params)) = content_type(b"a/b; t*0*=hz-gb-2312''; t*1=x; t*2=y").unwrap();
    assert_eq!(params, pairs(&[("t", "xy")]));
    let (_, (_, params)) = content_type(b"a/b; t*0*=iso-8859-1''%E9; t*1=x").unwrap();
    assert_eq!(params, pairs(&[("t", "\u{e9}x")]));
    let (_, (_, params)) = content_type(b"a/b; t*=utf-16be''").unwrap();
    assert_eq!(params, pairs(&[("t", "")]));
}
