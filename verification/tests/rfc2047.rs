use rustyknife::rfc2047::encoded_word;

fn decode(input: &[u8]) -> (Vec<u8>, String) {
    let (rest, word) = encoded_word(input).unwrap();
    (rest.to_vec(), word.decode())
}

#[test]
fn shift_jis_base64() {
    let (rest, text) = decode(b"=?x-sjis?B?lEWWQI7Kg4GM9ZTygs6CtSiPzik=?=");
    assert_eq!(text, "忍法写メ光飛ばし(笑)");
    assert!(rest.is_empty());
}

#[test]
fn unknown_encoding_letter_keeps_text() {
    let (rest, text) = decode(b"=?us-ascii?Z?abc?=");
    assert_eq!(text, "abc");
    assert!(rest.is_empty());
}

#[test]
fn quoted_printable_underscore_and_escape() {
    let (_, text) = decode(b"=?utf-8?Q?a_b=3Dc?=");
    assert_eq!(text, "a b=c");
}

#[test]
fn quoted_printable_lower_case_letter_and_hex() {
    let (_, text) = decode(b"=?ISO-8859-1?q?caf=e9?=");
    assert_eq!(text, "caf\u{e9}");
}

#[test]
fn quoted_printable_malformed_escape_keeps_text() {
    let (_, text) = decode(b"=?utf-8?Q?a_b=zz?=");
    assert_eq!(text, "a_b=zz");
}

#[test]
fn base64_malformed_keeps_text() {
    let (_, text) = decode(b"=?utf-8?B?a?=");
    assert_eq!(text, "a");
}

#[test]
fn base64_plain() {
    let (_, text) = decode(b"=?utf-8?b?aGVsbG8=?=");
    assert_eq!(text, "hello");
}

#[test]
fn unknown_charset_is_read_as_utf8() {
    let (_, text) = decode(b"=?no-such-charset?Q?=C3=A9?=");
    assert_eq!(text, "\u{e9}");
}

#[test]
fn invalid_bytes_become_replacement_characters() {
    let (_, text) = decode(b"=?utf-8?Q?=FF=FEa?=");
    assert_eq!(text, "\u{fffd}\u{fffd}a");
}

#[test]
fn decode_twice_gives_the_same_text() {
    let (_, word) = encoded_word(b"=?utf-8?Q?=3D=3Futf-8=3FQ=3Fx=3F=3D?=").unwrap();
    let first = word.decode();
    let second = word.decode();
    assert_eq!(first, "=?utf-8?Q?x?=");
    assert_eq!(first, second);
}

#[test]
fn leftover_is_returned() {
    let (rest, text) = decode(b"=?utf-8?Q?x?= tail");
    assert_eq!(text, "x");
    assert_eq!(rest, b" tail");
}

#[test]
fn not_an_encoded_word() {
    assert!(encoded_word(b"plain").is_err());
    assert!(encoded_word(b"=?utf-8?Q??=").is_err());
    assert!(encoded_word(b"=?utf-8?QQ?abc?=").is_err());
    assert!(encoded_word(b"=?utf-8?Q?a b?=").is_err());
    assert!(encoded_word(b"").is_err());
}

#[test]
fn language_is_no_part_of_the_charset() {
    let (rest, text) = decode(b"=?iso-8859-1*fr?Q?caf=E9?=");
    assert_eq!(text, "caf\u{e9}");
    assert!(rest.is_empty());
    assert!(encoded_word(b"=?iso-8859-1*?Q?caf=E9?=").is_err());
}
