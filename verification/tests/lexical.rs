use rustyknife::behaviour::{Intl, Legacy};
use rustyknife::rfc2047::encoded_word;
use rustyknife::rfc5322::address::{
    addr_spec, angle_addr, atom, display_name, dot_atom, Text, _concat_atom_and_qs,
};
use rustyknife::rfc5322::lexical::{
    cfws, comment, concat_qs, fws, ofws, quoted_pair, quoted_string, skip_cfws, CommentContent,
    QContent, _concat_comment, _inner_quoted_string,
};
use rustyknife::rfc5322::policy::{utf8_non_ascii, Utf8Policy, _8bit_char, _single_char};
use rustyknife::types;
use rustyknife::types::{DomainPart, DotAtom, LocalPart};

fn show(items: &[CommentContent]) -> String {
    let mut out = String::new();
    for item in items {
        match item {
            CommentContent::Text(t) => {
                out.push('[');
                out.push_str(t);
                out.push(']');
            }
            CommentContent::QP(c) => {
                out.push('\\');
                out.push(*c);
            }
            CommentContent::Comment(inner) => {
                out.push('(');
                out.push_str(&show(inner));
                out.push(')');
            }
        }
    }
    out
}

#[test]
fn folding_white_space() {
    assert_eq!(fws(b"  x", 0), Some((2, "  ".to_string())));
    assert_eq!(fws(b" \r\n\tx", 0), Some((4, " \t".to_string())));
    assert_eq!(fws(b"\r\n x", 0), Some((3, " ".to_string())));
    assert_eq!(fws(b" \r\nx", 0), None);
    assert_eq!(fws(b"\r\n", 0), None);
    assert_eq!(fws(b"x", 0), None);
    assert_eq!(fws(b"", 0), None);
    assert_eq!(ofws(b"x", 0), (0, String::new()));
    assert_eq!(ofws(b"a \t", 1), (3, " \t".to_string()));
}

#[test]
fn quoted_pairs() {
    assert_eq!(quoted_pair::<Legacy>(b"\\\"", 0), Some((2, '"')));
    assert_eq!(quoted_pair::<Legacy>(b"\\ ", 0), Some((2, ' ')));
    assert_eq!(quoted_pair::<Legacy>(b"\\\xc3\xa9", 0), None);
    assert_eq!(quoted_pair::<Intl>(b"\\\xc3\xa9", 0), Some((3, '\u{e9}')));
    assert_eq!(quoted_pair::<Intl>(b"\\", 0), None);
    assert_eq!(quoted_pair::<Intl>(b"a", 0), None);
}

#[test]
fn comment_text_is_run_together() {
    let (end, items) = comment::<Intl>(b"(a \\) b)x", 0).unwrap();
    assert_eq!(end, 8);
    assert_eq!(show(&items), "[a ) b]");
}

#[test]
fn nested_comments_stay_apart() {
    let (end, items) = comment::<Intl>(b"(a(b (c))d\r\n e)", 0).unwrap();
    assert_eq!(end, 15);
    assert_eq!(show(&items), "[a]([b ]([c]))[d e]");
}

#[test]
fn empty_and_unfinished_comments() {
    let (end, items) = comment::<Intl>(b"()", 0).unwrap();
    assert_eq!(end, 2);
    assert!(items.is_empty());
    assert!(comment::<Intl>(b"(a", 0).is_none());
    assert!(comment::<Intl>(b"(a(b)", 0).is_none());
    assert!(comment::<Intl>(b"a)", 0).is_none());
    assert!(comment::<Legacy>(b"(\xc3\xa9)", 0).is_none());
    assert!(comment::<Intl>(b"(\xc3\xa9)", 0).is_some());
}

#[test]
fn concat_comment_directly() {
    let items = vec![
        CommentContent::Text("a".to_string()),
        CommentContent::QP('b'),
        CommentContent::Text(String::new()),
        CommentContent::Comment(vec![CommentContent::Text("in".to_string())]),
        CommentContent::Comment(vec![]),
        CommentContent::QP('c'),
    ];
    assert_eq!(show(&_concat_comment(items)), "[ab]([in])()[c]");
    assert!(_concat_comment(vec![CommentContent::Text(String::new())]).is_empty());
    assert!(_concat_comment(vec![]).is_empty());
}

#[test]
fn comments_and_folding_white_space() {
    assert_eq!(cfws::<Intl>(b" (a) (b) x", 0), Some(9));
    assert_eq!(cfws::<Intl>(b"  x", 0), Some(2));
    assert_eq!(cfws::<Intl>(b"(a)x", 0), Some(3));
    assert_eq!(cfws::<Intl>(b"x", 0), None);
    assert_eq!(cfws::<Intl>(b" (a", 0), Some(1));
    assert_eq!(skip_cfws::<Intl>(b"x", 0), 0);
    assert_eq!(skip_cfws::<Intl>(b"x (a) ", 1), 6);
}

#[test]
fn quoted_string_text() {
    assert_eq!(quoted_string::<Intl>(b"\"a b\"", 0), Some((5, "a b".to_string())));
    assert_eq!(quoted_string::<Intl>(b" (c) \"\" (d) x", 0), Some((12, String::new())));
    assert_eq!(quoted_string::<Intl>(b"\"a\r\n b \"", 0), Some((8, "a b ".to_string())));
    assert_eq!(quoted_string::<Intl>(b"\"a\\\\b\"", 0), Some((6, "a\\b".to_string())));
    assert_eq!(quoted_string::<Intl>(b"\"a", 0), None);
    assert_eq!(quoted_string::<Intl>(b"a\"", 0), None);
}

#[test]
fn quoted_string_items() {
    let (end, items) =
        _inner_quoted_string::<Intl>(b"\" =?utf-8?Q?a?= =?utf-8?Q?b?= c\\d \"", 0).unwrap();
    assert_eq!(end, 35);
    let kinds: Vec<String> = items
        .iter()
        .map(|i| match i {
            QContent::Literal(t) => format!("L{}", t),
            QContent::EncodedWord(w) => format!("W{}", w.decode()),
            QContent::QP(c) => format!("Q{}", c),
        })
        .collect();
    assert_eq!(kinds, vec!["L ", "Wa", "Wb", "L ", "Lc", "Qd", "L "]);
    assert_eq!(concat_qs(items), " ab cd ");
}

#[test]
fn concat_qs_directly() {
    let (_, word) = encoded_word(b"=?utf-8?Q?=C3=A9?=").unwrap();
    let items = vec![
        QContent::Literal("a".to_string()),
        QContent::QP('"'),
        QContent::EncodedWord(word),
    ];
    assert_eq!(concat_qs(items), "a\"\u{e9}");
    assert_eq!(concat_qs(vec![]), "");
}

#[test]
fn concat_atom_and_qs_directly() {
    let words = vec![
        Text::Atom("a".to_string()),
        Text::Atom("b".to_string()),
        Text::Literal("c".to_string()),
        Text::Literal("d".to_string()),
        Text::Atom("e".to_string()),
    ];
    assert_eq!(_concat_atom_and_qs(words), "a b cd e");
    assert_eq!(
        _concat_atom_and_qs(vec![Text::Literal("John".to_string()), Text::Atom("Doe".to_string())]),
        "John Doe"
    );
    assert_eq!(
        _concat_atom_and_qs(vec![Text::Literal("a".to_string()), Text::Literal("b".to_string())]),
        "ab"
    );
    assert_eq!(_concat_atom_and_qs(vec![Text::Atom("a".to_string())]), "a");
    assert_eq!(_concat_atom_and_qs(vec![]), "");
}

#[test]
fn atoms_and_dot_atoms() {
    assert_eq!(atom::<Intl>(b" a.b", 0), Some((2, "a".to_string())));
    assert_eq!(dot_atom::<Intl>(b" a.b (c) ", 0), Some((9, "a.b".to_string())));
    assert_eq!(dot_atom::<Intl>(b"a..b", 0), Some((1, "a".to_string())));
    assert_eq!(dot_atom::<Intl>(b"a.", 0), Some((1, "a".to_string())));
    assert_eq!(dot_atom::<Intl>(b".a", 0), None);
    assert_eq!(atom::<Intl>(b"(c)", 0), None);
    assert_eq!(display_name::<Intl>(b"a b <", 0), Some((4, "a b".to_string())));
    assert_eq!(display_name::<Intl>(b"<", 0), None);
}

#[test]
fn wide_characters() {
    assert_eq!(_single_char(b"\xc3\xa9", 0, 2), Some((2, '\u{e9}')));
    assert_eq!(_single_char(b"\xc3\xa9a", 0, 3), None);
    assert_eq!(_single_char(b"\xc3", 0, 2), None);
    assert_eq!(utf8_non_ascii(b"\xe2\x82\xacx", 0), Some((3, '\u{20ac}')));
    assert_eq!(utf8_non_ascii(b"\xf0\x9f\x98\x80", 0), Some((4, '\u{1f600}')));
    assert_eq!(utf8_non_ascii(b"ab", 0), None);
    assert_eq!(utf8_non_ascii(b"\xc0\x80", 0), None);
    assert_eq!(utf8_non_ascii(b"\xed\xa0\x80", 0), None);
    assert_eq!(_8bit_char(b"\x80", 0), Some((1, '\u{fffd}')));
    assert_eq!(_8bit_char(b"\x7f", 0), None);
    assert_eq!(_8bit_char(b"", 0), None);
}

#[test]
fn policies() {
    assert_eq!(Legacy::atext(b"a", 0), Some((1, 'a')));
    assert_eq!(Legacy::atext(b"@", 0), None);
    assert_eq!(Legacy::atext(b"\xc3\xa9", 0), None);
    assert_eq!(Intl::atext(b"\xc3\xa9", 0), Some((2, '\u{e9}')));
    assert_eq!(Legacy::qtext(b"\xc3\xa9", 0), Some((1, '\u{fffd}')));
    assert_eq!(Intl::qtext(b"\xc3\xa9", 0), Some((2, '\u{e9}')));
    assert_eq!(Intl::qtext(b"\xa9", 0), Some((1, '\u{fffd}')));
    assert_eq!(Legacy::qtext(b"\"", 0), None);
    assert_eq!(Legacy::ctext(b"(", 0), None);
    assert_eq!(Legacy::ctext(b"\"", 0), Some((1, '"')));
    assert_eq!(Legacy::dtext(b"]", 0), None);
    assert_eq!(Intl::dtext(b"\xff", 0), None);
    assert_eq!(Legacy::vchar(b" ", 0), None);
    assert_eq!(Intl::vchar(b"~", 0), Some((1, '~')));
}

#[test]
fn address_text_is_read_again() {
    let inputs: Vec<&[u8]> = vec![
        b"bob@example.org",
        b" (x) bob.smith (y) @ (z) example . org",
        b"a.b.c@d.e.f rest",
        "andr\u{e9}.x@\u{4f8b}.example".as_bytes(),
    ];
    for input in inputs {
        let (_, first) = addr_spec::<Intl>(input, 0).unwrap();
        let text = match &first {
            types::Mailbox(LocalPart::DotAtom(DotAtom(l)), DomainPart::Domain(types::Domain(d))) => {
                format!("{}@{}", l, d)
            }
            _ => panic!("not a dot-atom address"),
        };
        let (end, second) = addr_spec::<Intl>(text.as_bytes(), 0).unwrap();
        assert_eq!(end, text.len());
        assert_eq!(second, first);
    }
}

#[test]
fn angle_address() {
    let (end, m) = angle_addr::<Legacy>(b" <a@b> ", 0).unwrap();
    assert_eq!(end, 7);
    assert_eq!(
        m,
        types::Mailbox(
            LocalPart::DotAtom(DotAtom("a".to_string())),
            DomainPart::Domain(types::Domain("b".to_string()))
        )
    );
    assert!(angle_addr::<Legacy>(b"a@b", 0).is_none());
}
