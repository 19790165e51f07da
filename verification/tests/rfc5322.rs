use rustyknife::behaviour::{Intl, Legacy};
use rustyknife::rfc5322::{from, reply_to, sender, unstructured, Address, Group, Mailbox};
use rustyknife::types;
use rustyknife::types::{AddressLiteral, DomainPart, DotAtom, LocalPart, QuotedString};

fn plain(local: &str, domain: &str) -> types::Mailbox {
    types::Mailbox(
        LocalPart::DotAtom(DotAtom(local.to_string())),
        DomainPart::Domain(types::Domain(domain.to_string())),
    )
}

fn mailbox(dname: Option<&str>, local: &str, domain: &str) -> Mailbox {
    Mailbox { dname: dname.map(|d| d.to_string()), address: plain(local, domain) }
}

fn single(input: &[u8]) -> Address {
    let (rest, address) = sender::<Intl>(input).unwrap();
    assert_eq!(rest, b"");
    address
}

#[test]
fn bare_address() {
    assert_eq!(single(b"bob@example.org"), Address::Mailbox(mailbox(None, "bob", "example.org")));
}

#[test]
fn address_with_display_name() {
    assert_eq!(
        single(b"Bob Smith <bob.smith@example.org>"),
        Address::Mailbox(mailbox(Some("Bob Smith"), "bob.smith", "example.org"))
    );
}

#[test]
fn comments_and_folding_are_ignored() {
    assert_eq!(
        single(b" (a (nested) comment) bob (x)@(y) example.org\r\n (z)"),
        Address::Mailbox(mailbox(None, "bob", "example.org"))
    );
}

#[test]
fn angle_address_without_name() {
    assert_eq!(single(b"<bob@example.org>"), Address::Mailbox(mailbox(None, "bob", "example.org")));
}

#[test]
fn quoted_display_name() {
    assert_eq!(
        single(b"\"Smith, Bob\" <bob@example.org>"),
        Address::Mailbox(mailbox(Some("Smith, Bob"), "bob", "example.org"))
    );
}

#[test]
fn quoted_pair_in_display_name() {
    assert_eq!(
        single(b"\"a \\\"b\\\" c\" <bob@example.org>"),
        Address::Mailbox(mailbox(Some("a \"b\" c"), "bob", "example.org"))
    );
}

#[test]
fn encoded_word_display_name() {
    assert_eq!(
        single(b"=?utf-8?Q?Andr=C3=A9?= Pirard <pirard@example.org>"),
        Address::Mailbox(mailbox(Some("Andr\u{e9} Pirard"), "pirard", "example.org"))
    );
}

#[test]
fn atom_next_to_another_word_gets_a_space() {
    assert_eq!(
        single(b"John \"Q.\" Public <jq@example.org>"),
        Address::Mailbox(mailbox(Some("John Q. Public"), "jq", "example.org"))
    );
    assert_eq!(
        single(b"\"John\" Doe <jd@example.org>"),
        Address::Mailbox(mailbox(Some("John Doe"), "jd", "example.org"))
    );
    assert_eq!(
        single(b"\"John\" \"Doe\" <jd@example.org>"),
        Address::Mailbox(mailbox(Some("JohnDoe"), "jd", "example.org"))
    );
}

#[test]
fn encoded_words_in_a_quoted_string_run_together() {
    assert_eq!(
        single(b"\"=?utf-8?Q?a?= =?utf-8?Q?b?= c\" <x@example.org>"),
        Address::Mailbox(mailbox(Some("ab c"), "x", "example.org"))
    );
}

#[test]
fn quoted_local_part() {
    assert_eq!(
        single(b"\"bob smith\"@example.org"),
        Address::Mailbox(Mailbox {
            dname: None,
            address: types::Mailbox(
                LocalPart::Quoted(QuotedString("bob smith".to_string())),
                DomainPart::Domain(types::Domain("example.org".to_string())),
            ),
        })
    );
}

#[test]
fn domain_literal_ipv4() {
    assert_eq!(
        single(b"bob@[192.168.0.1]"),
        Address::Mailbox(Mailbox {
            dname: None,
            address: types::Mailbox(
                LocalPart::DotAtom(DotAtom("bob".to_string())),
                DomainPart::Address(AddressLiteral::IPv4(192, 168, 0, 1)),
            ),
        })
    );
}

#[test]
fn domain_literal_ipv6() {
    assert_eq!(
        single(b"bob@[IPv6:::1]"),
        Address::Mailbox(Mailbox {
            dname: None,
            address: types::Mailbox(
                LocalPart::DotAtom(DotAtom("bob".to_string())),
                DomainPart::Address(AddressLiteral::IPv6("::1".to_string())),
            ),
        })
    );
}

#[test]
fn domain_literal_free_form() {
    assert_eq!(
        single(b"bob@[ 256.1.1.1 ]"),
        Address::Mailbox(Mailbox {
            dname: None,
            address: types::Mailbox(
                LocalPart::DotAtom(DotAtom("bob".to_string())),
                DomainPart::Address(AddressLiteral::FreeForm(" 256.1.1.1 ".to_string())),
            ),
        })
    );
}

#[test]
fn group_with_members() {
    assert_eq!(
        single(b"Team: a@example.org, B <b@example.org>;"),
        Address::Group(Group {
            dname: "Team".to_string(),
            members: vec![
                mailbox(None, "a", "example.org"),
                mailbox(Some("B"), "b", "example.org"),
            ],
        })
    );
}

#[test]
fn group_without_members() {
    assert_eq!(
        single(b"Undisclosed recipients:;"),
        Address::Group(Group { dname: "Undisclosed recipients".to_string(), members: vec![] })
    );
    assert_eq!(
        single(b"Nobody: (none) ;"),
        Address::Group(Group { dname: "Nobody".to_string(), members: vec![] })
    );
}

#[test]
fn from_takes_several_addresses() {
    let (rest, list) = from::<Intl>(b"a@example.org, B: c@example.org;, d@example.org\r\n").unwrap();
    assert_eq!(rest, b"");
    assert_eq!(
        list,
        vec![
            Address::Mailbox(mailbox(None, "a", "example.org")),
            Address::Group(Group {
                dname: "B".to_string(),
                members: vec![mailbox(None, "c", "example.org")],
            }),
            Address::Mailbox(mailbox(None, "d", "example.org")),
        ]
    );
}

#[test]
fn reply_to_leaves_what_it_cannot_read() {
    let (rest, list) = reply_to::<Legacy>(b"a@example.org, @").unwrap();
    assert_eq!(rest, b", @");
    assert_eq!(list, vec![Address::Mailbox(mailbox(None, "a", "example.org"))]);
}

#[test]
fn sender_takes_one_address() {
    let (rest, address) = sender::<Legacy>(b"a@example.org, b@example.org").unwrap();
    assert_eq!(rest, b", b@example.org");
    assert_eq!(address, Address::Mailbox(mailbox(None, "a", "example.org")));
}

#[test]
fn no_address() {
    assert!(from::<Intl>(b"").is_err());
    assert!(sender::<Intl>(b"bob").is_err());
    assert!(sender::<Intl>(b"bob@").is_err());
    assert!(sender::<Intl>(b"<bob@example.org").is_err());
    assert!(reply_to::<Intl>(b"@example.org").is_err());
}

#[test]
fn international_local_part() {
    assert_eq!(
        single("andr\u{e9}@example.org".as_bytes()),
        Address::Mailbox(mailbox(None, "andr\u{e9}", "example.org"))
    );
    assert!(sender::<Legacy>("andr\u{e9}@example.org".as_bytes()).is_err());
}

#[test]
fn eight_bit_in_quoted_string() {
    let (_, strict) = sender::<Legacy>(b"\"a\xc3\xa9b\" <x@example.org>").unwrap();
    assert_eq!(strict, Address::Mailbox(mailbox(Some("a\u{fffd}\u{fffd}b"), "x", "example.org")));
    let (_, intl) = sender::<Intl>(b"\"a\xc3\xa9b\xff\" <x@example.org>").unwrap();
    assert_eq!(intl, Address::Mailbox(mailbox(Some("a\u{e9}b\u{fffd}"), "x", "example.org")));
}

#[test]
fn unstructured_plain() {
    let (rest, text) = unstructured::<Intl>(b"Hello  world \t").unwrap();
    assert_eq!(rest, b"");
    assert_eq!(text, "Hello  world \t");
}

#[test]
fn unstructured_folded() {
    let (rest, text) = unstructured::<Intl>(b"Hello\r\n world\r\n").unwrap();
    assert_eq!(text, "Hello world");
    assert_eq!(rest, b"\r\n");
}

#[test]
fn unstructured_encoded_words() {
    let (_, text) = unstructured::<Intl>(b"=?utf-8?Q?a?=\r\n =?utf-8?Q?b?= c =?utf-8?Q?d?=").unwrap();
    assert_eq!(text, "ab c d");
}

#[test]
fn unstructured_eight_bit() {
    let (_, strict) = unstructured::<Legacy>(b"caf\xc3\xa9 \xff").unwrap();
    assert_eq!(strict, "caf\u{fffd}\u{fffd} \u{fffd}");
    let (_, intl) = unstructured::<Intl>(b"caf\xc3\xa9 \xff").unwrap();
    assert_eq!(intl, "caf\u{e9} \u{fffd}");
}

#[test]
fn unstructured_empty() {
    let (rest, text) = unstructured::<Intl>(b"").unwrap();
    assert_eq!(text, "");
    assert_eq!(rest, b"");
}

#[test]
fn names_with_punctuation() {
    let (rest, list) = from::<Intl>(
        b"Mary Smith <mary@x.test>, jdoe@example.org, Who? <one@y.test>",
    )
    .unwrap();
    assert_eq!(rest, b"");
    assert_eq!(
        list,
        vec![
            Address::Mailbox(mailbox(Some("Mary Smith"), "mary", "x.test")),
            Address::Mailbox(mailbox(None, "jdoe", "example.org")),
            Address::Mailbox(mailbox(Some("Who?"), "one", "y.test")),
        ]
    );
}

#[test]
fn group_from_the_standard() {
    assert_eq!(
        single(b"A Group:Ed Jones <c@a.test>,joe@where.test,John <jdoe@one.test>;"),
        Address::Group(Group {
            dname: "A Group".to_string(),
            members: vec![
                mailbox(Some("Ed Jones"), "c", "a.test"),
                mailbox(None, "joe", "where.test"),
                mailbox(Some("John"), "jdoe", "one.test"),
            ],
        })
    );
}

#[test]
fn comments_everywhere() {
    assert_eq!(
        single(b"Pete(A nice \\) chap) <pete(his account)@silly.test(his host)>"),
        Address::Mailbox(mailbox(Some("Pete"), "pete", "silly.test"))
    );
}

#[test]
fn folded_address_list() {
    let (rest, list) =
        reply_to::<Intl>(b"\"Joe Q. Public\" <john.q.public@example.com>,\r\n a@b\r\n").unwrap();
    assert_eq!(rest, b"");
    assert_eq!(
        list,
        vec![
            Address::Mailbox(mailbox(Some("Joe Q. Public"), "john.q.public", "example.com")),
            Address::Mailbox(mailbox(None, "a", "b")),
        ]
    );
}

#[test]
fn several_encoded_words_in_a_name() {
    assert_eq!(
        single(b"=?utf-8?Q?a?= =?utf-8?Q?b?= <x@example.org>"),
        Address::Mailbox(mailbox(Some("ab"), "x", "example.org"))
    );
}

#[test]
fn a_name_needs_angle_brackets() {
    assert!(sender::<Intl>(b"Bob bob@example.org").is_err());
    let (rest, address) = sender::<Intl>(b"bob@example.org Bob").unwrap();
    assert_eq!(rest, b"Bob");
    assert_eq!(address, Address::Mailbox(mailbox(None, "bob", "example.org")));
}

#[test]
fn unstructured_word_inside_text_is_left_alone() {
    let (_, text) = unstructured::<Intl>(b"x=?utf-8?Q?a?= =?utf-8?Q?b?=y").unwrap();
    assert_eq!(text, "x=?utf-8?Q?a?= by");
}
