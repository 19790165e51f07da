use rustyknife::rfc5234::{crlf, vchar, wsp};

#[test]
fn visible_character() {
    assert_eq!(vchar(b"ab"), Ok((&b"b"[..], 'a')));
    assert_eq!(vchar(b"~"), Ok((&b""[..], '~')));
    assert_eq!(vchar(b" a"), Err(()));
    assert_eq!(vchar(b"\x7f"), Err(()));
    assert_eq!(vchar(b"\xe9"), Err(()));
    assert_eq!(vchar(b""), Err(()));
}

#[test]
fn line_break() {
    assert_eq!(crlf(b"\r\nx"), Ok((&b"x"[..], &b"\r\n"[..])));
    assert_eq!(crlf(b"\n"), Err(()));
    assert_eq!(crlf(b"\r"), Err(()));
}

#[test]
fn blank() {
    assert_eq!(wsp(b" \tx", 0), Some((1, b' ')));
    assert_eq!(wsp(b" \tx", 1), Some((2, b'\t')));
    assert_eq!(wsp(b" \tx", 2), None);
    assert_eq!(wsp(b" \tx", 3), None);
}
