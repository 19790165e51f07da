use rustyknife::behaviour::{Intl, Legacy};
use rustyknife::headersection::header_section;
use rustyknife::rfc2047::encoded_word;
use rustyknife::rfc2231::{content_disposition, content_transfer_encoding, content_type};
use rustyknife::rfc3461::{dsn_notify, orcpt_address};
use rustyknife::rfc5322::{from, sender, unstructured};
use rustyknife::xforward::command;

const ALPHABET: &[u8] =
    b"ab.@<>()[]\"\\ \t\r\n,;:=?*'%+-_/01Qq8xX\xc3\xa9\xe2\x82\xac\xff\x80IPv6inlet";

fn inputs(count: usize, max_len: usize) -> Vec<Vec<u8>> {
    let mut state: u64 = 0x2545_f491_4f6c_dd1d;
    let mut next = move || {
        state ^= state << 13;
        state ^= state >> 7;
        state ^= state << 17;
        state
    };
    let mut out = Vec::with_capacity(count);
    for _ in 0..count {
        let len = (next() % (max_len as u64 + 1)) as usize;
        let mut input = Vec::with_capacity(len);
        for _ in 0..len {
            input.push(ALPHABET[(next() % ALPHABET.len() as u64) as usize]);
        }
        out.push(input);
    }
    out
}

#[test]
fn address_parsers_take_any_bytes() {
    for input in inputs(4000, 24) {
        if let Ok((rest, _)) = from::<Intl>(&input) {
            assert!(input.ends_with(rest));
        }
        if let Ok((rest, _)) = sender::<Legacy>(&input) {
            assert!(input.ends_with(rest));
        }
    }
}

#[test]
fn unstructured_takes_any_bytes() {
    for input in inputs(4000, 24) {
        let (rest, _) = unstructured::<Intl>(&input).unwrap();
        assert!(input.ends_with(rest));
        let (rest, _) = unstructured::<Legacy>(&input).unwrap();
        assert!(input.ends_with(rest));
    }
}

#[test]
fn mime_parsers_take_any_bytes() {
    for mut input in inputs(4000, 24) {
        let _ = content_transfer_encoding(&input);
        let _ = content_disposition(&input);
        let mut header = b"a/b;".to_vec();
        header.append(&mut input);
        let (rest, (mime, _)) = content_type(&header).unwrap();
        assert_eq!(mime, "a/b");
        assert!(header.ends_with(rest));
    }
}

#[test]
fn encoded_words_take_any_payload() {
    for input in inputs(4000, 16) {
        let mut word = b"=?utf-8?Q?x".to_vec();
        for b in &input {
            word.extend_from_slice(format!("={:02X}", b).as_bytes());
        }
        word.extend_from_slice(b"?=");
        let (rest, parsed) = encoded_word(&word).unwrap();
        assert!(rest.is_empty());
        let text = parsed.decode();
        assert!(text.starts_with('x'));
        assert_eq!(text, parsed.decode());
        let mut raw = b"x".to_vec();
        raw.extend_from_slice(&input);
        assert_eq!(text, String::from_utf8_lossy(&raw));
    }
}

#[test]
fn smtp_parsers_take_any_bytes() {
    for input in inputs(4000, 24) {
        let _ = orcpt_address(&input);
        let _ = command(&input);
        let _ = header_section(&input);
        let text = String::from_utf8_lossy(&input).into_owned();
        if let Ok((rest, _)) = dsn_notify(&text) {
            assert!(text.ends_with(rest));
        }
    }
}
