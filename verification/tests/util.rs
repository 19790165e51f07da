use rustyknife::escape::{decode_run, hexpair, octet, Escape};
use rustyknife::rfc2231::grammar::is_attribute_char;
use rustyknife::types::AddressLiteral;
use rustyknife::util::{keyword, lower_text, scan, text, ByteClass};

#[test]
fn runs_of_bytes() {
    assert_eq!(scan(ByteClass::Wsp, b" \t x", 0), 3);
    assert_eq!(scan(ByteClass::Wsp, b"x", 0), 0);
    assert_eq!(scan(ByteClass::Digit, b"a123", 1), 4);
    assert_eq!(scan(ByteClass::Graphic, b"ab c", 0), 2);
    assert_eq!(scan(ByteClass::WordToken, b"a.b", 0), 1);
    assert_eq!(scan(ByteClass::WordToken, b"utf-8*en", 0), 5);
    assert_eq!(scan(ByteClass::MimeToken, b"a.b/c", 0), 3);
    assert_eq!(scan(ByteClass::Attribute, b"a.b*c", 0), 3);
    assert_eq!(scan(ByteClass::EncodedText, b"a=b?c", 0), 3);
    assert_eq!(scan(ByteClass::FieldName, b"X-A:b", 0), 3);
    assert_eq!(scan(ByteClass::Graphic, b"", 0), 0);
}

#[test]
fn keywords() {
    assert!(keyword(b"InLiNe;", 0, "inline"));
    assert!(keyword(b"x inline", 2, "inline"));
    assert!(!keyword(b"inlin", 0, "inline"));
    assert!(!keyword(b"online", 0, "inline"));
    assert!(keyword(b"", 0, ""));
}

#[test]
fn text_of_bytes() {
    assert_eq!(text(b"Hello", 1, 4), "ell");
    assert_eq!(lower_text(b"Text/HTML", 0, 9), "text/html");
    assert_eq!(text(b"abc", 2, 2), "");
}

#[test]
fn attribute_characters() {
    assert!(is_attribute_char(b'a'));
    assert!(is_attribute_char(b'-'));
    assert!(is_attribute_char(b'.'));
    for c in b"*'%()<>@,;:\\\"/[]?= \x7f\x80" {
        assert!(!is_attribute_char(*c));
    }
}

#[test]
fn hexadecimal_pairs() {
    assert_eq!(hexpair(b"4a", 0), Some((2, 0x4a)));
    assert_eq!(hexpair(b"xFf", 1), Some((3, 0xff)));
    assert_eq!(hexpair(b"00", 0), Some((2, 0)));
    assert_eq!(hexpair(b"4", 0), None);
    assert_eq!(hexpair(b"4g", 0), None);
    assert_eq!(hexpair(b"", 0), None);
}

#[test]
fn escaped_octets() {
    assert_eq!(octet(Escape::Xtext, b"+41", 0), Some((3, 0x41)));
    assert_eq!(octet(Escape::Xtext, b"+4", 0), None);
    assert_eq!(octet(Escape::Xtext, b"=", 0), None);
    assert_eq!(octet(Escape::Percent, b"%20", 0), Some((3, 0x20)));
    assert_eq!(octet(Escape::Percent, b"*", 0), None);
    assert_eq!(octet(Escape::Quoted, b"_", 0), Some((1, 0x20)));
    assert_eq!(octet(Escape::Quoted, b"=3d", 0), Some((3, 0x3d)));
    assert_eq!(octet(Escape::Quoted, b"=", 0), None);
    assert_eq!(octet(Escape::Quoted, b"\xff", 0), Some((1, 0xff)));
    assert_eq!(decode_run(Escape::Xtext, b"a+2Bb c", 0), (5, b"a+b".to_vec()));
    assert_eq!(decode_run(Escape::Percent, b"a%41%4", 0), (4, b"aA".to_vec()));
    assert_eq!(decode_run(Escape::Quoted, b"", 0), (0, vec![]));
}

#[test]
fn address_literals() {
    let ip = |t: &str| AddressLiteral::classify(t.to_string());
    assert_eq!(ip("1.2.3.4"), AddressLiteral::IPv4(1, 2, 3, 4));
    assert_eq!(ip("255.255.255.255"), AddressLiteral::IPv4(255, 255, 255, 255));
    assert_eq!(ip("001.02.3.004"), AddressLiteral::IPv4(1, 2, 3, 4));
    assert_eq!(ip("256.1.1.1"), AddressLiteral::FreeForm("256.1.1.1".to_string()));
    assert_eq!(ip("1.2.3"), AddressLiteral::FreeForm("1.2.3".to_string()));
    assert_eq!(ip("1.2.3.4.5"), AddressLiteral::FreeForm("1.2.3.4.5".to_string()));
    assert_eq!(ip("1234.1.1.1"), AddressLiteral::FreeForm("1234.1.1.1".to_string()));
    assert_eq!(ip("1.2.3.4 "), AddressLiteral::FreeForm("1.2.3.4 ".to_string()));
    assert_eq!(ip(""), AddressLiteral::FreeForm(String::new()));
    assert_eq!(ip("ipv6:fe80::1"), AddressLiteral::IPv6("fe80::1".to_string()));
    assert_eq!(ip("IPv6:"), AddressLiteral::IPv6(String::new()));
    assert_eq!(ip("IPv4:1"), AddressLiteral::FreeForm("IPv4:1".to_string()));
    assert_eq!(ip("\u{e9}.1"), AddressLiteral::FreeForm("\u{e9}.1".to_string()));
    assert_eq!(AddressLiteral::IPv4(1, 2, 3, 4).upgrade(), None);
    assert_eq!(
        AddressLiteral::FreeForm("1.2.3.4".to_string()).upgrade(),
        Some(AddressLiteral::IPv4(1, 2, 3, 4))
    );
    assert_eq!(AddressLiteral::FreeForm("x".to_string()).upgrade(), None);
}
