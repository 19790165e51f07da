use rustyknife::headersection::{header, header_section, Error, HeaderField};

#[test]
fn two_fields_and_body() {
    let (body, fields) = header_section(b"From: a@example.org\r\nSubject: hi\r\n\r\nbody").unwrap();
    let expected: Vec<HeaderField> = vec![
        Ok((&b"From"[..], &b" a@example.org"[..])),
        Ok((&b"Subject"[..], &b" hi"[..])),
    ];
    assert_eq!(fields, expected);
    assert_eq!(body, b"body");
}

#[test]
fn line_without_colon_is_kept_raw() {
    let (body, fields) = header_section(b"no colon here\r\nSubject: hi\r\n\r\nbody").unwrap();
    let expected: Vec<HeaderField> =
        vec![Err(&b"no colon here"[..]), Ok((&b"Subject"[..], &b" hi"[..]))];
    assert_eq!(fields, expected);
    assert_eq!(body, b"body");
}

#[test]
fn eight_bit_name_is_kept_raw() {
    let (_, fields) = header_section(b"Subj\xe9ct: hi\r\nX: y\r\n\r\n").unwrap();
    let expected: Vec<HeaderField> =
        vec![Err(&b"Subj\xe9ct: hi"[..]), Ok((&b"X"[..], &b" y"[..]))];
    assert_eq!(fields, expected);
}

#[test]
fn bare_line_breaks() {
    let (body, fields) = header_section(b"\r\n\r\nbody").unwrap();
    assert!(fields.is_empty());
    assert_eq!(body, b"\r\nbody");
    let (body, fields) = header_section(b"\r\nbody").unwrap();
    assert!(fields.is_empty());
    assert_eq!(body, b"body");
}

#[test]
fn folded_value() {
    let (body, fields) = header_section(b"Subject: a\r\n b\r\n\tc \r\n\r\n").unwrap();
    let expected: Vec<HeaderField> = vec![Ok((&b"Subject"[..], &b" a\r\n b\r\n\tc "[..]))];
    assert_eq!(fields, expected);
    assert_eq!(body, b"");
}

#[test]
fn eight_bit_value() {
    let (_, fields) = header_section(b"Subject: caf\xe9 au lait\r\n\r\n").unwrap();
    let expected: Vec<HeaderField> = vec![Ok((&b"Subject"[..], &b" caf\xe9 au lait"[..]))];
    assert_eq!(fields, expected);
}

#[test]
fn more_bytes_needed() {
    assert_eq!(header_section(b""), Err(Error::Incomplete));
    assert_eq!(header_section(b"Subject"), Err(Error::Incomplete));
    assert_eq!(header_section(b"Subject: hi"), Err(Error::Incomplete));
    assert_eq!(header_section(b"Subject: hi\r"), Err(Error::Incomplete));
    assert_eq!(header_section(b"Subject: hi\r\n"), Err(Error::Incomplete));
    assert_eq!(header_section(b"Subject: hi\r\n\r"), Err(Error::Incomplete));
    assert!(header_section(b"Subject: hi\r\n\r\n").is_ok());
}

#[test]
fn single_header() {
    let (rest, field) = header(b"A: b\r\nC: d\r\n\r\n").unwrap();
    assert_eq!(field, Some(Ok((&b"A"[..], &b" b"[..]))));
    assert_eq!(rest, b"C: d\r\n\r\n");
    let (rest, field) = header(b"\r\nbody").unwrap();
    assert_eq!(field, None);
    assert_eq!(rest, b"body");
    let (rest, field) = header(b"junk\r\nC: d\r\n").unwrap();
    assert_eq!(field, Some(Err(&b"junk"[..])));
    assert_eq!(rest, b"C: d\r\n");
    assert_eq!(header(b"A: b\r\n"), Err(Error::Incomplete));
    assert_eq!(header(b"\r"), Err(Error::Incomplete));
}
