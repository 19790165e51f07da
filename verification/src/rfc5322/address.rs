//! The address grammar: atoms, domains, mailboxes, groups and lists of them.

use crate::rfc2047::{encoded_word_at, encoded_word_from, word_text, EncodedWord, WordModel};
use crate::rfc5322::lexical::{
    cfws, cfws_at, ofws, ofws_at, quoted_string, quoted_string_at, skip_cfws, skip_cfws_at,
};
use crate::rfc5322::policy::{run, run_at, TextClass, Utf8Policy};
use crate::types;
use crate::types::{
    classified, AddressLiteral, DomainPart, DomainPartModel, DotAtom, LocalPart, LocalPartModel,
    QuotedString,
};
use crate::util::{
    agrees, agrees_all, agrees_rest, agrees_rest_all, byte_at, is_byte, is_crlf, lemma_views_push,
    parsable, push_char, rest, skip_crlf, views,
};
use vstd::prelude::*;
use vstd::string::*;

verus! {

/// A single mailbox with an optional display name.
#[derive(Clone, Debug, PartialEq)]
pub struct Mailbox {
    /// The display name.
    pub dname: Option<String>,
    /// The address of this mailbox.
    pub address: types::Mailbox,
}

/// A group of many [`Mailbox`].
#[derive(Clone, Debug, PartialEq)]
pub struct Group {
    /// This group's display name.
    pub dname: String,
    /// The members of this group. May be empty.
    pub members: Vec<Mailbox>,
}

/// An address is either a single [`Mailbox`] or a [`Group`].
#[derive(Clone, Debug, PartialEq)]
pub enum Address {
    /// Single [`Mailbox`].
    Mailbox(Mailbox),
    /// [`Group`] of many [`Mailbox`].
    Group(Group),
}

/// The value of a [`Mailbox`].
pub struct MailboxModel {
    pub dname: Option<Seq<char>>,
    pub address: (LocalPartModel, DomainPartModel),
}

/// The value of a [`Group`].
pub struct GroupModel {
    pub dname: Seq<char>,
    pub members: Seq<MailboxModel>,
}

/// The value of an [`Address`].
pub enum AddressModel {
    Mailbox(MailboxModel),
    Group(GroupModel),
}

impl View for Mailbox {
    type V = MailboxModel;

    open spec fn view(&self) -> MailboxModel {
        MailboxModel {
            dname: match self.dname {
                Some(name) => Some(name@),
                None => None,
            },
            address: self.address@,
        }
    }
}

impl View for Group {
    type V = GroupModel;

    open spec fn view(&self) -> GroupModel {
        GroupModel { dname: self.dname@, members: views(self.members@) }
    }
}

impl View for Address {
    type V = AddressModel;

    open spec fn view(&self) -> AddressModel {
        match self {
            Address::Mailbox(m) => AddressModel::Mailbox(m@),
            Address::Group(g) => AddressModel::Group(g@),
        }
    }
}

/// A word of a display name.
#[derive(Clone, Debug)]
pub enum Text {
    /// Text of a quoted string or of an encoded word.
    Literal(String),
    /// An atom.
    Atom(String),
}

/// The value of a [`Text`].
pub enum TextModel {
    Literal(Seq<char>),
    Atom(Seq<char>),
}

impl View for Text {
    type V = TextModel;

    open spec fn view(&self) -> TextModel {
        match self {
            Text::Literal(text) => TextModel::Literal(text@),
            Text::Atom(text) => TextModel::Atom(text@),
        }
    }
}

/// The dots and atoms that follow the first atom of a dot-atom.
pub open spec fn dot_parts_at(intl: bool, s: Seq<u8>, pos: int) -> (int, Seq<char>)
    decreases s.len() - pos,
{
    if byte_at(s, pos, 0x2e) {
        let (end, text) = run_at(intl, TextClass::Atext, s, pos + 1);
        if pos + 1 < end <= s.len() {
            let (last, rest) = dot_parts_at(intl, s, end);
            (last, seq!['.'] + text + rest)
        } else {
            (pos, Seq::empty())
        }
    } else {
        (pos, Seq::empty())
    }
}

/// Atoms joined by single dots at `pos`, with nothing around them.
pub open spec fn dot_atom_text_at(intl: bool, s: Seq<u8>, pos: int) -> Option<(int, Seq<char>)> {
    let (end, text) = run_at(intl, TextClass::Atext, s, pos);
    if end > pos {
        let (last, rest) = dot_parts_at(intl, s, end);
        Some((last, text + rest))
    } else {
        None
    }
}

/// A dot-atom at `pos`, with optional comments and folding white space on
/// either side, which are no part of its text.
pub open spec fn dot_atom_at(intl: bool, s: Seq<u8>, pos: int) -> Option<(int, Seq<char>)> {
    match dot_atom_text_at(intl, s, skip_cfws_at(intl, s, pos)) {
        Some((p, text)) => Some((skip_cfws_at(intl, s, p), text)),
        None => None,
    }
}

/// An atom at `pos`, with optional comments and folding white space on
/// either side.
pub open spec fn atom_at(intl: bool, s: Seq<u8>, pos: int) -> Option<(int, Seq<char>)> {
    let start = skip_cfws_at(intl, s, pos);
    let (end, text) = run_at(intl, TextClass::Atext, s, start);
    if end > start {
        Some((skip_cfws_at(intl, s, end), text))
    } else {
        None
    }
}

/// An encoded word at `pos`, with optional comments and folding white space
/// on either side.
pub open spec fn padded_encoded_word_at(intl: bool, s: Seq<u8>, pos: int) -> Option<
    (int, WordModel),
> {
    match encoded_word_at(s, skip_cfws_at(intl, s, pos)) {
        Some((p, word)) => Some((skip_cfws_at(intl, s, p), word)),
        None => None,
    }
}

/// A word of a display name at `pos`: an encoded word, else an atom, else a
/// quoted string.
pub open spec fn word_at(intl: bool, s: Seq<u8>, pos: int) -> Option<(int, TextModel)> {
    match padded_encoded_word_at(intl, s, pos) {
        Some((p, word)) => Some((p, TextModel::Literal(word_text(word)))),
        None => match atom_at(intl, s, pos) {
            Some((p, text)) => Some((p, TextModel::Atom(text))),
            None => match quoted_string_at(intl, s, pos) {
                Some((p, text)) => Some((p, TextModel::Literal(text))),
                None => None,
            },
        },
    }
}

/// The words from `pos`.
pub open spec fn words_at(intl: bool, s: Seq<u8>, pos: int) -> (int, Seq<TextModel>)
    decreases s.len() - pos,
{
    match word_at(intl, s, pos) {
        Some((p, word)) => if pos < p <= s.len() {
            let (end, rest) = words_at(intl, s, p);
            (end, seq![word] + rest)
        } else {
            (pos, Seq::empty())
        },
        None => (pos, Seq::empty()),
    }
}

/// The text of one word.
pub open spec fn word_text_of(word: TextModel) -> Seq<char> {
    match word {
        TextModel::Atom(text) => text,
        TextModel::Literal(text) => text,
    }
}

/// What parts a word from the word after it: one space where either of the
/// two is an atom, and nothing between two words of which none is.
pub open spec fn gap(word: TextModel, next: TextModel) -> Seq<char> {
    if word is Atom || next is Atom {
        seq![' ']
    } else {
        Seq::empty()
    }
}

/// The words of a display name as one text: every word stands once, in
/// order, with one space between two words of which at least one is an
/// atom. Words that are no atoms, such as two encoded words, follow each
/// other with nothing between them.
pub open spec fn joined(words: Seq<TextModel>) -> Seq<char>
    decreases words.len(),
{
    if words.len() == 0 {
        Seq::empty()
    } else if words.len() == 1 {
        word_text_of(words[0])
    } else {
        word_text_of(words[0]) + gap(words[0], words[1]) + joined(words.drop_first())
    }
}

/// A display name at `pos`: one or more words.
pub open spec fn display_name_at(intl: bool, s: Seq<u8>, pos: int) -> Option<(int, Seq<char>)> {
    let (end, words) = words_at(intl, s, pos);
    if words.len() > 0 {
        Some((end, joined(words)))
    } else {
        None
    }
}

/// The local part of an address at `pos`: a dot-atom, else a quoted string.
pub open spec fn local_part_at(intl: bool, s: Seq<u8>, pos: int) -> Option<(int, LocalPartModel)> {
    match dot_atom_at(intl, s, pos) {
        Some((p, text)) => Some((p, LocalPartModel::DotAtom(text))),
        None => match quoted_string_at(intl, s, pos) {
            Some((p, text)) => Some((p, LocalPartModel::Quoted(text))),
            None => None,
        },
    }
}

/// The text of a domain literal from `pos`: runs of literal text, each with
/// the folding white space before it.
pub open spec fn dtext_parts_at(intl: bool, s: Seq<u8>, pos: int) -> (int, Seq<char>)
    decreases s.len() - pos,
{
    let (p, blank) = ofws_at(s, pos);
    if pos <= p <= s.len() {
        let (end, text) = run_at(intl, TextClass::Dtext, s, p);
        if p < end <= s.len() {
            let (last, rest) = dtext_parts_at(intl, s, end);
            (last, blank + text + rest)
        } else {
            (pos, Seq::empty())
        }
    } else {
        (pos, Seq::empty())
    }
}

/// A domain literal at `pos`: `[`, text and `]`, with optional comments and
/// folding white space on either side. The text is classified.
pub open spec fn domain_literal_at(intl: bool, s: Seq<u8>, pos: int) -> Option<
    (int, types::LiteralModel),
> {
    let open = skip_cfws_at(intl, s, pos);
    let (p, text) = dtext_parts_at(intl, s, open + 1);
    let (close, blank) = ofws_at(s, p);
    if byte_at(s, open, 0x5b) && byte_at(s, close, 0x5d) {
        Some((skip_cfws_at(intl, s, close + 1), classified(text + blank)))
    } else {
        None
    }
}

/// The domain of an address at `pos`: a dot-atom, else a domain literal.
pub open spec fn domain_at(intl: bool, s: Seq<u8>, pos: int) -> Option<(int, DomainPartModel)> {
    match dot_atom_at(intl, s, pos) {
        Some((p, text)) => Some((p, DomainPartModel::Domain(text))),
        None => match domain_literal_at(intl, s, pos) {
            Some((p, literal)) => Some((p, DomainPartModel::Address(literal))),
            None => None,
        },
    }
}

/// An address at `pos`: a local part, `@` and a domain.
pub open spec fn addr_spec_at(intl: bool, s: Seq<u8>, pos: int) -> Option<
    (int, (LocalPartModel, DomainPartModel)),
> {
    match local_part_at(intl, s, pos) {
        Some((p, local)) => if byte_at(s, p, 0x40) {
            match domain_at(intl, s, p + 1) {
                Some((q, domain)) => Some((q, (local, domain))),
                None => None,
            }
        } else {
            None
        },
        None => None,
    }
}

/// An address in angle brackets at `pos`, with optional comments and folding
/// white space on either side.
pub open spec fn angle_addr_at(intl: bool, s: Seq<u8>, pos: int) -> Option<
    (int, (LocalPartModel, DomainPartModel)),
> {
    let open = skip_cfws_at(intl, s, pos);
    if byte_at(s, open, 0x3c) {
        match addr_spec_at(intl, s, open + 1) {
            Some((p, address)) => if byte_at(s, p, 0x3e) {
                Some((skip_cfws_at(intl, s, p + 1), address))
            } else {
                None
            },
            None => None,
        }
    } else {
        None
    }
}

/// An optional display name and an address in angle brackets at `pos`.
pub open spec fn name_addr_at(intl: bool, s: Seq<u8>, pos: int) -> Option<(int, MailboxModel)> {
    let (start, dname) = match display_name_at(intl, s, pos) {
        Some((p, name)) => (p, Some(name)),
        None => (pos, None),
    };
    match angle_addr_at(intl, s, start) {
        Some((p, address)) => Some((p, MailboxModel { dname, address })),
        None => None,
    }
}

/// A mailbox at `pos`: a name and an address in angle brackets, else a bare
/// address.
#[verifier::opaque]
pub open spec fn mailbox_at(intl: bool, s: Seq<u8>, pos: int) -> Option<(int, MailboxModel)> {
    match name_addr_at(intl, s, pos) {
        Some(found) => Some(found),
        None => match addr_spec_at(intl, s, pos) {
            Some((p, address)) => Some((p, MailboxModel { dname: None, address })),
            None => None,
        },
    }
}

/// The mailboxes that follow the first of a list, each after a comma.
pub open spec fn more_mailboxes_at(intl: bool, s: Seq<u8>, pos: int) -> (int, Seq<MailboxModel>)
    decreases s.len() - pos,
{
    if byte_at(s, pos, 0x2c) {
        match mailbox_at(intl, s, pos + 1) {
            Some((p, mailbox)) => if pos < p <= s.len() {
                let (end, rest) = more_mailboxes_at(intl, s, p);
                (end, seq![mailbox] + rest)
            } else {
                (pos, Seq::empty())
            },
            None => (pos, Seq::empty()),
        }
    } else {
        (pos, Seq::empty())
    }
}

/// One or more mailboxes at `pos`, with a comma between each two.
pub open spec fn mailbox_list_at(intl: bool, s: Seq<u8>, pos: int) -> Option<
    (int, Seq<MailboxModel>),
> {
    match mailbox_at(intl, s, pos) {
        Some((p, mailbox)) => {
            let (end, rest) = more_mailboxes_at(intl, s, p);
            Some((end, seq![mailbox] + rest))
        },
        None => None,
    }
}

/// The members of a group at `pos`: a list of mailboxes, else comments and
/// folding white space, which stand for no member.
pub open spec fn group_list_at(intl: bool, s: Seq<u8>, pos: int) -> Option<
    (int, Seq<MailboxModel>),
> {
    match mailbox_list_at(intl, s, pos) {
        Some(found) => Some(found),
        None => match cfws_at(intl, s, pos) {
            Some(p) => Some((p, Seq::empty())),
            None => None,
        },
    }
}

/// A group at `pos`: a display name, `:`, optional members, `;` and optional
/// comments and folding white space.
pub open spec fn group_at(intl: bool, s: Seq<u8>, pos: int) -> Option<(int, GroupModel)> {
    match display_name_at(intl, s, pos) {
        Some((p, dname)) => if byte_at(s, p, 0x3a) {
            let (q, members) = match group_list_at(intl, s, p + 1) {
                Some(found) => found,
                None => (p + 1, Seq::empty()),
            };
            if byte_at(s, q, 0x3b) {
                Some((skip_cfws_at(intl, s, q + 1), GroupModel { dname, members }))
            } else {
                None
            }
        } else {
            None
        },
        None => None,
    }
}

/// An address at `pos`: a mailbox, else a group.
#[verifier::opaque]
pub open spec fn address_at(intl: bool, s: Seq<u8>, pos: int) -> Option<(int, AddressModel)> {
    match mailbox_at(intl, s, pos) {
        Some((p, mailbox)) => Some((p, AddressModel::Mailbox(mailbox))),
        None => match group_at(intl, s, pos) {
            Some((p, group)) => Some((p, AddressModel::Group(group))),
            None => None,
        },
    }
}

/// The addresses that follow the first of a list, each after a comma.
pub open spec fn more_addresses_at(intl: bool, s: Seq<u8>, pos: int) -> (int, Seq<AddressModel>)
    decreases s.len() - pos,
{
    if byte_at(s, pos, 0x2c) {
        match address_at(intl, s, pos + 1) {
            Some((p, address)) => if pos < p <= s.len() {
                let (end, rest) = more_addresses_at(intl, s, p);
                (end, seq![address] + rest)
            } else {
                (pos, Seq::empty())
            },
            None => (pos, Seq::empty()),
        }
    } else {
        (pos, Seq::empty())
    }
}

/// One or more addresses at `pos`, with a comma between each two.
pub open spec fn address_list_at(intl: bool, s: Seq<u8>, pos: int) -> Option<
    (int, Seq<AddressModel>),
> {
    match address_at(intl, s, pos) {
        Some((p, address)) => {
            let (end, rest) = more_addresses_at(intl, s, p);
            Some((end, seq![address] + rest))
        },
        None => None,
    }
}

/// A list of addresses at `pos` and the line break after it, if there is one.
pub open spec fn address_list_crlf_at(intl: bool, s: Seq<u8>, pos: int) -> Option<
    (int, Seq<AddressModel>),
> {
    match address_list_at(intl, s, pos) {
        Some((p, list)) => Some((skip_crlf(s, p), list)),
        None => None,
    }
}

/// One address at `pos` and the line break after it, if there is one.
pub open spec fn address_crlf_at(intl: bool, s: Seq<u8>, pos: int) -> Option<(int, AddressModel)> {
    match address_at(intl, s, pos) {
        Some((p, address)) => Some((skip_crlf(s, p), address)),
        None => None,
    }
}

/// Reads atoms joined by single dots at `pos`.
pub fn dot_atom_text<P: Utf8Policy>(input: &[u8], pos: usize) -> (r: Option<(usize, String)>)
    requires
        pos <= input.len(),
    ensures
        agrees(r, dot_atom_text_at(P::international(), input@, pos as int)),
        r matches Some((p, _)) ==> pos < p <= input.len(),
{
    let ghost intl = P::international();
    let mut out = String::new();
    let first = run::<P>(TextClass::Atext, input, pos, &mut out);
    if first == pos {
        return None;
    }
    let ghost head = out@;
    let ghost acc = Seq::<char>::empty();
    let mut cur = first;
    assert(out@ =~= head + acc);
    assert(head =~= run_at(intl, TextClass::Atext, input@, pos as int).1);
    loop
        invariant
            intl == P::international(),
            pos < first <= cur <= input.len(),
            out@ == head + acc,
            dot_parts_at(intl, input@, first as int) == (
                dot_parts_at(intl, input@, cur as int).0,
                acc + dot_parts_at(intl, input@, cur as int).1,
            ),
        ensures
            pos < cur <= input.len(),
            out@ == head + acc,
            dot_parts_at(intl, input@, first as int) == (cur as int, acc),
        decreases input.len() - cur,
    {
        if !is_byte(input, cur, 0x2e) {
            assert(acc + Seq::<char>::empty() =~= acc);
            break ;
        }
        let mut part = String::new();
        let end = run::<P>(TextClass::Atext, input, cur + 1, &mut part);
        if end == cur + 1 {
            assert(acc + Seq::<char>::empty() =~= acc);
            break ;
        }
        push_char(&mut out, '.');
        out.append(part.as_str());
        proof {
            let text = run_at(intl, TextClass::Atext, input@, cur + 1).1;
            let more = dot_parts_at(intl, input@, end as int).1;
            assert(part@ =~= text);
            assert(acc + (seq!['.'] + text + more) =~= (acc + seq!['.'] + text) + more);
            assert(out@ =~= head + (acc + seq!['.'] + text));
            acc = acc + seq!['.'] + text;
        }
        cur = end;
    }
    Some((cur, out))
}

/// Reads a dot-atom at `pos`, with the comments and folding white space
/// around it.
pub fn dot_atom<P: Utf8Policy>(input: &[u8], pos: usize) -> (r: Option<(usize, String)>)
    requires
        pos <= input.len(),
    ensures
        agrees(r, dot_atom_at(P::international(), input@, pos as int)),
        r matches Some((p, _)) ==> pos < p <= input.len(),
{
    let start = skip_cfws::<P>(input, pos);
    match dot_atom_text::<P>(input, start) {
        Some((p, text)) => Some((skip_cfws::<P>(input, p), text)),
        None => None,
    }
}

/// Reads an atom at `pos`, with the comments and folding white space around it.
pub fn atom<P: Utf8Policy>(input: &[u8], pos: usize) -> (r: Option<(usize, String)>)
    requires
        pos <= input.len(),
    ensures
        agrees(r, atom_at(P::international(), input@, pos as int)),
        r matches Some((p, _)) ==> pos < p <= input.len(),
{
    let start = skip_cfws::<P>(input, pos);
    let mut text = String::new();
    let end = run::<P>(TextClass::Atext, input, start, &mut text);
    if end > start {
        assert(text@ =~= run_at(P::international(), TextClass::Atext, input@, start as int).1);
        Some((skip_cfws::<P>(input, end), text))
    } else {
        None
    }
}

/// Reads an encoded word at `pos`, with the comments and folding white space
/// around it.
pub fn _padded_encoded_word<P: Utf8Policy>(input: &[u8], pos: usize) -> (r: Option<
    (usize, EncodedWord),
>)
    requires
        pos <= input.len(),
        parsable(input@.len() as int),
    ensures
        agrees(r, padded_encoded_word_at(P::international(), input@, pos as int)),
        r matches Some((p, _)) ==> pos < p <= input.len(),
{
    let start = skip_cfws::<P>(input, pos);
    match encoded_word_from(input, start) {
        Some((p, word)) => Some((skip_cfws::<P>(input, p), word)),
        None => None,
    }
}

/// Reads a word of a display name at `pos`.
pub fn word<P: Utf8Policy>(input: &[u8], pos: usize) -> (r: Option<(usize, Text)>)
    requires
        pos <= input.len(),
        parsable(input@.len() as int),
    ensures
        agrees(r, word_at(P::international(), input@, pos as int)),
        r matches Some((p, _)) ==> pos < p <= input.len(),
{
    match _padded_encoded_word::<P>(input, pos) {
        Some((p, w)) => Some((p, Text::Literal(w.decode()))),
        None => match atom::<P>(input, pos) {
            Some((p, text)) => Some((p, Text::Atom(text))),
            None => match quoted_string::<P>(input, pos) {
                Some((p, text)) => Some((p, Text::Literal(text))),
                None => None,
            },
        },
    }
}

/// Whether a word is an atom.
fn is_atom(word: &Text) -> (r: bool)
    ensures
        r == (word@ is Atom),
{
    match word {
        Text::Atom(_) => true,
        Text::Literal(_) => false,
    }
}

/// The text of a word.
fn text_of_word(word: &Text) -> (r: &str)
    ensures
        r@ == word_text_of(word@),
{
    match word {
        Text::Atom(v) => v.as_str(),
        Text::Literal(v) => v.as_str(),
    }
}

/// Joins the words of a display name.
pub fn _concat_atom_and_qs(input: Vec<Text>) -> (out: String)
    ensures
        out@ == joined(views(input@)),
{
    let ghost all = views(input@);
    let mut out = String::new();
    let mut i: usize = 0;
    assert(all.skip(0) =~= all);
    while i < input.len()
        invariant
            all == views(input@),
            i <= input.len(),
            joined(all) == out@ + joined(all.skip(i as int)),
        decreases input.len() - i,
    {
        proof {
            assert(all.skip(i as int)[0] == input@[i as int]@);
            assert(all.skip(i as int).drop_first() =~= all.skip(i + 1));
            assert(all.skip(i as int).len() == input.len() - i);
            if i + 1 < input.len() {
                assert(all.skip(i as int)[1] == input@[i + 1]@);
            } else {
                assert(all.skip(i + 1).len() == 0);
            }
        }
        let ghost before = out@;
        let ghost rest = joined(all.skip(i + 1));
        let ghost piece = word_text_of(input@[i as int]@);
        out.append(text_of_word(&input[i]));
        if i + 1 < input.len() && (is_atom(&input[i]) || is_atom(&input[i + 1])) {
            push_char(&mut out, ' ');
            proof {
                piece = piece.push(' ');
                assert(piece =~= word_text_of(input@[i as int]@) + gap(
                    input@[i as int]@,
                    input@[i + 1]@,
                ));
            }
        } else {
            proof {
                if i + 1 < input.len() {
                    assert(piece =~= word_text_of(input@[i as int]@) + gap(
                        input@[i as int]@,
                        input@[i + 1]@,
                    ));
                }
            }
        }
        proof {
            assert(out@ =~= before + piece);
            assert(before + (piece + rest) =~= (before + piece) + rest);
            if i + 1 >= input.len() {
                assert(piece + rest =~= piece);
            }
        }
        i += 1;
    }
    assert(out@ + joined(all.skip(i as int)) =~= out@);
    out
}

/// Reads a display name at `pos`.
pub fn display_name<P: Utf8Policy>(input: &[u8], pos: usize) -> (r: Option<(usize, String)>)
    requires
        pos <= input.len(),
        parsable(input@.len() as int),
    ensures
        agrees(r, display_name_at(P::international(), input@, pos as int)),
        r matches Some((p, _)) ==> pos < p <= input.len(),
{
    let ghost intl = P::international();
    let mut words: Vec<Text> = Vec::new();
    let mut cur = pos;
    assert(views(words@) =~= Seq::<TextModel>::empty());
    loop
        invariant
            intl == P::international(),
            parsable(input@.len() as int),
            pos <= cur <= input.len(),
            words@.len() > 0 ==> pos < cur,
            words_at(intl, input@, pos as int) == (
                words_at(intl, input@, cur as int).0,
                views(words@) + words_at(intl, input@, cur as int).1,
            ),
        ensures
            pos <= cur <= input.len(),
            words@.len() > 0 ==> pos < cur,
            words_at(intl, input@, pos as int) == (cur as int, views(words@)),
        decreases input.len() - cur,
    {
        match word::<P>(input, cur) {
            Some((p, w)) => {
                proof {
                    let rest = words_at(intl, input@, p as int).1;
                    lemma_views_push(words@, w);
                    assert(views(words@) + (seq![w@] + rest) =~= views(words@).push(w@) + rest);
                }
                words.push(w);
                cur = p;
            },
            None => {
                assert(views(words@) + Seq::<TextModel>::empty() =~= views(words@));
                break ;
            },
        }
    }
    if words.len() > 0 {
        Some((cur, _concat_atom_and_qs(words)))
    } else {
        None
    }
}

/// Reads the local part of an address at `pos`.
pub fn local_part<P: Utf8Policy>(input: &[u8], pos: usize) -> (r: Option<(usize, LocalPart)>)
    requires
        pos <= input.len(),
        parsable(input@.len() as int),
    ensures
        agrees(r, local_part_at(P::international(), input@, pos as int)),
        r matches Some((p, _)) ==> pos < p <= input.len(),
{
    match dot_atom::<P>(input, pos) {
        Some((p, text)) => Some((p, LocalPart::DotAtom(DotAtom(text)))),
        None => match quoted_string::<P>(input, pos) {
            Some((p, text)) => Some((p, LocalPart::Quoted(QuotedString(text)))),
            None => None,
        },
    }
}

/// Reads a domain literal at `pos`.
pub fn domain_literal<P: Utf8Policy>(input: &[u8], pos: usize) -> (r: Option<
    (usize, AddressLiteral),
>)
    requires
        pos <= input.len(),
    ensures
        agrees(r, domain_literal_at(P::international(), input@, pos as int)),
        r matches Some((p, _)) ==> pos < p <= input.len(),
{
    let ghost intl = P::international();
    let open = skip_cfws::<P>(input, pos);
    if !is_byte(input, open, 0x5b) {
        return None;
    }
    let mut out = String::new();
    let mut cur = open + 1;
    loop
        invariant
            intl == P::international(),
            open < cur <= input.len(),
            dtext_parts_at(intl, input@, open + 1) == (
                dtext_parts_at(intl, input@, cur as int).0,
                out@ + dtext_parts_at(intl, input@, cur as int).1,
            ),
        ensures
            open < cur <= input.len(),
            dtext_parts_at(intl, input@, open + 1) == (cur as int, out@),
        decreases input.len() - cur,
    {
        let (p, blank) = ofws(input, cur);
        let mut text = String::new();
        let end = run::<P>(TextClass::Dtext, input, p, &mut text);
        if end == p {
            assert(out@ + Seq::<char>::empty() =~= out@);
            break ;
        }
        proof {
            let t = run_at(intl, TextClass::Dtext, input@, p as int).1;
            let more = dtext_parts_at(intl, input@, end as int).1;
            assert(text@ =~= t);
            assert(out@ + (blank@ + t + more) =~= (out@ + blank@ + t) + more);
        }
        out.append(blank.as_str());
        out.append(text.as_str());
        cur = end;
    }
    let (close, blank) = ofws(input, cur);
    if !is_byte(input, close, 0x5d) {
        return None;
    }
    out.append(blank.as_str());
    Some((skip_cfws::<P>(input, close + 1), AddressLiteral::classify(out)))
}

/// Reads the domain of an address at `pos`.
pub fn domain<P: Utf8Policy>(input: &[u8], pos: usize) -> (r: Option<(usize, DomainPart)>)
    requires
        pos <= input.len(),
    ensures
        agrees(r, domain_at(P::international(), input@, pos as int)),
        r matches Some((p, _)) ==> pos < p <= input.len(),
{
    match dot_atom::<P>(input, pos) {
        Some((p, text)) => Some((p, DomainPart::Domain(types::Domain(text)))),
        None => match domain_literal::<P>(input, pos) {
            Some((p, literal)) => Some((p, DomainPart::Address(literal))),
            None => None,
        },
    }
}

/// Reads an address at `pos`: local part, `@`, domain.
pub fn addr_spec<P: Utf8Policy>(input: &[u8], pos: usize) -> (r: Option<(usize, types::Mailbox)>)
    requires
        pos <= input.len(),
        parsable(input@.len() as int),
    ensures
        agrees(r, addr_spec_at(P::international(), input@, pos as int)),
        r matches Some((p, _)) ==> pos < p <= input.len(),
{
    match local_part::<P>(input, pos) {
        Some((p, local)) => {
            if !is_byte(input, p, 0x40) {
                return None;
            }
            match domain::<P>(input, p + 1) {
                Some((q, dom)) => Some((q, types::Mailbox(local, dom))),
                None => None,
            }
        },
        None => None,
    }
}

/// Reads an address in angle brackets at `pos`.
pub fn angle_addr<P: Utf8Policy>(input: &[u8], pos: usize) -> (r: Option<(usize, types::Mailbox)>)
    requires
        pos <= input.len(),
        parsable(input@.len() as int),
    ensures
        agrees(r, angle_addr_at(P::international(), input@, pos as int)),
        r matches Some((p, _)) ==> pos < p <= input.len(),
{
    let open = skip_cfws::<P>(input, pos);
    if !is_byte(input, open, 0x3c) {
        return None;
    }
    match addr_spec::<P>(input, open + 1) {
        Some((p, address)) => {
            if is_byte(input, p, 0x3e) {
                Some((skip_cfws::<P>(input, p + 1), address))
            } else {
                None
            }
        },
        None => None,
    }
}

/// Reads an optional display name and an address in angle brackets at `pos`.
pub fn name_addr<P: Utf8Policy>(input: &[u8], pos: usize) -> (r: Option<(usize, Mailbox)>)
    requires
        pos <= input.len(),
        parsable(input@.len() as int),
    ensures
        agrees(r, name_addr_at(P::international(), input@, pos as int)),
        r matches Some((p, _)) ==> pos < p <= input.len(),
{
    let (start, dname) = match display_name::<P>(input, pos) {
        Some((p, name)) => (p, Some(name)),
        None => (pos, None),
    };
    match angle_addr::<P>(input, start) {
        Some((p, address)) => Some((p, Mailbox { dname, address })),
        None => None,
    }
}

/// Reads a mailbox at `pos`.
pub fn mailbox<P: Utf8Policy>(input: &[u8], pos: usize) -> (r: Option<(usize, Mailbox)>)
    requires
        pos <= input.len(),
        parsable(input@.len() as int),
    ensures
        agrees(r, mailbox_at(P::international(), input@, pos as int)),
        r matches Some((p, _)) ==> pos < p <= input.len(),
{
    reveal(mailbox_at);
    match name_addr::<P>(input, pos) {
        Some(found) => Some(found),
        None => match addr_spec::<P>(input, pos) {
            Some((p, address)) => Some((p, Mailbox { dname: None, address })),
            None => None,
        },
    }
}

/// Reads one or more mailboxes at `pos`, with a comma between each two.
pub fn mailbox_list<P: Utf8Policy>(input: &[u8], pos: usize) -> (r: Option<(usize, Vec<Mailbox>)>)
    requires
        pos <= input.len(),
        parsable(input@.len() as int),
    ensures
        agrees_all(r, mailbox_list_at(P::international(), input@, pos as int)),
        r matches Some((p, _)) ==> pos < p <= input.len(),
{
    let ghost intl = P::international();
    let (first_end, first) = match mailbox::<P>(input, pos) {
        Some(found) => found,
        None => {
            return None;
        },
    };
    let ghost head = first@;
    let mut out: Vec<Mailbox> = Vec::new();
    out.push(first);
    let mut cur = first_end;
    let ghost acc = Seq::<MailboxModel>::empty();
    assert(views(out@) =~= seq![head] + acc);
    loop
        invariant
            intl == P::international(),
            parsable(input@.len() as int),
            pos < first_end <= cur <= input.len(),
            views(out@) == seq![head] + acc,
            more_mailboxes_at(intl, input@, first_end as int) == (
                more_mailboxes_at(intl, input@, cur as int).0,
                acc + more_mailboxes_at(intl, input@, cur as int).1,
            ),
        ensures
            pos < cur <= input.len(),
            views(out@) == seq![head] + acc,
            more_mailboxes_at(intl, input@, first_end as int) == (cur as int, acc),
        decreases input.len() - cur,
    {
        if !is_byte(input, cur, 0x2c) {
            assert(acc + Seq::<MailboxModel>::empty() =~= acc);
            break ;
        }
        match mailbox::<P>(input, cur + 1) {
            Some((p, m)) => {
                proof {
                    let more = more_mailboxes_at(intl, input@, p as int).1;
                    lemma_views_push(out@, m);
                    assert(acc + (seq![m@] + more) =~= acc.push(m@) + more);
                    assert((seq![head] + acc).push(m@) =~= seq![head] + acc.push(m@));
                    acc = acc.push(m@);
                }
                out.push(m);
                cur = p;
            },
            None => {
                assert(acc + Seq::<MailboxModel>::empty() =~= acc);
                break ;
            },
        }
    }
    Some((cur, out))
}

/// Reads the members of a group at `pos`.
pub fn group_list<P: Utf8Policy>(input: &[u8], pos: usize) -> (r: Option<(usize, Vec<Mailbox>)>)
    requires
        pos <= input.len(),
        parsable(input@.len() as int),
    ensures
        agrees_all(r, group_list_at(P::international(), input@, pos as int)),
        r matches Some((p, _)) ==> pos < p <= input.len(),
{
    match mailbox_list::<P>(input, pos) {
        Some(found) => Some(found),
        None => match cfws::<P>(input, pos) {
            Some(p) => {
                let none: Vec<Mailbox> = Vec::new();
                assert(views(none@) =~= Seq::<MailboxModel>::empty());
                Some((p, none))
            },
            None => None,
        },
    }
}

/// Reads a group at `pos`.
pub fn group<P: Utf8Policy>(input: &[u8], pos: usize) -> (r: Option<(usize, Group)>)
    requires
        pos <= input.len(),
        parsable(input@.len() as int),
    ensures
        agrees(r, group_at(P::international(), input@, pos as int)),
        r matches Some((p, _)) ==> pos < p <= input.len(),
{
    match display_name::<P>(input, pos) {
        Some((p, dname)) => {
            if !is_byte(input, p, 0x3a) {
                return None;
            }
            let (q, members) = match group_list::<P>(input, p + 1) {
                Some(found) => found,
                None => {
                    let none: Vec<Mailbox> = Vec::new();
                    assert(views(none@) =~= Seq::<MailboxModel>::empty());
                    (p + 1, none)
                },
            };
            if is_byte(input, q, 0x3b) {
                Some((skip_cfws::<P>(input, q + 1), Group { dname, members }))
            } else {
                None
            }
        },
        None => None,
    }
}

/// Reads an address at `pos`: a mailbox, else a group.
pub fn address<P: Utf8Policy>(input: &[u8], pos: usize) -> (r: Option<(usize, Address)>)
    requires
        pos <= input.len(),
        parsable(input@.len() as int),
    ensures
        agrees(r, address_at(P::international(), input@, pos as int)),
        r matches Some((p, _)) ==> pos < p <= input.len(),
{
    reveal(address_at);
    match mailbox::<P>(input, pos) {
        Some((p, m)) => Some((p, Address::Mailbox(m))),
        None => match group::<P>(input, pos) {
            Some((p, g)) => Some((p, Address::Group(g))),
            None => None,
        },
    }
}

/// Reads one or more addresses at `pos`, with a comma between each two.
pub fn address_list<P: Utf8Policy>(input: &[u8], pos: usize) -> (r: Option<(usize, Vec<Address>)>)
    requires
        pos <= input.len(),
        parsable(input@.len() as int),
    ensures
        agrees_all(r, address_list_at(P::international(), input@, pos as int)),
        r matches Some((p, _)) ==> pos < p <= input.len(),
{
    let ghost intl = P::international();
    let (first_end, first) = match address::<P>(input, pos) {
        Some(found) => found,
        None => {
            return None;
        },
    };
    let ghost head = first@;
    let mut out: Vec<Address> = Vec::new();
    out.push(first);
    let mut cur = first_end;
    let ghost acc = Seq::<AddressModel>::empty();
    assert(views(out@) =~= seq![head] + acc);
    loop
        invariant
            intl == P::international(),
            parsable(input@.len() as int),
            pos < first_end <= cur <= input.len(),
            views(out@) == seq![head] + acc,
            more_addresses_at(intl, input@, first_end as int) == (
                more_addresses_at(intl, input@, cur as int).0,
                acc + more_addresses_at(intl, input@, cur as int).1,
            ),
        ensures
            pos < cur <= input.len(),
            views(out@) == seq![head] + acc,
            more_addresses_at(intl, input@, first_end as int) == (cur as int, acc),
        decreases input.len() - cur,
    {
        if !is_byte(input, cur, 0x2c) {
            assert(acc + Seq::<AddressModel>::empty() =~= acc);
            break ;
        }
        match address::<P>(input, cur + 1) {
            Some((p, a)) => {
                proof {
                    let more = more_addresses_at(intl, input@, p as int).1;
                    lemma_views_push(out@, a);
                    assert(acc + (seq![a@] + more) =~= acc.push(a@) + more);
                    assert((seq![head] + acc).push(a@) =~= seq![head] + acc.push(a@));
                    acc = acc.push(a@);
                }
                out.push(a);
                cur = p;
            },
            None => {
                assert(acc + Seq::<AddressModel>::empty() =~= acc);
                break ;
            },
        }
    }
    Some((cur, out))
}

/// Reads a list of addresses at `pos` and the line break after it, if any.
pub fn address_list_crlf<P: Utf8Policy>(input: &[u8], pos: usize) -> (r: Option<
    (usize, Vec<Address>),
>)
    requires
        pos <= input.len(),
        parsable(input@.len() as int),
    ensures
        agrees_all(r, address_list_crlf_at(P::international(), input@, pos as int)),
        r matches Some((p, _)) ==> pos < p <= input.len(),
{
    match address_list::<P>(input, pos) {
        Some((p, list)) => {
            if is_crlf(input, p) {
                Some((p + 2, list))
            } else {
                Some((p, list))
            }
        },
        None => None,
    }
}

/// Reads one address at `pos` and the line break after it, if any.
pub fn address_crlf<P: Utf8Policy>(input: &[u8], pos: usize) -> (r: Option<(usize, Address)>)
    requires
        pos <= input.len(),
        parsable(input@.len() as int),
    ensures
        agrees(r, address_crlf_at(P::international(), input@, pos as int)),
        r matches Some((p, _)) ==> pos < p <= input.len(),
{
    match address::<P>(input, pos) {
        Some((p, a)) => {
            if is_crlf(input, p) {
                Some((p + 2, a))
            } else {
                Some((p, a))
            }
        },
        None => None,
    }
}

/// Parse the content of a `"From:"` header.
///
/// Returns a list of addresses, since RFC 6854 allows multiple mail
/// authors, and the input that follows them.
pub fn from<P: Utf8Policy>(i: &[u8]) -> (r: Result<(&[u8], Vec<Address>), ()>)
    requires
        parsable(i@.len() as int),
    ensures
        agrees_rest_all(r, i@, address_list_crlf_at(P::international(), i@, 0)),
{
    match address_list_crlf::<P>(i, 0) {
        Some((p, list)) => Ok((rest(i, p), list)),
        None => Err(()),
    }
}

/// Parse the content of a `"Sender:"` header.
///
/// Returns a single address, and the input that follows it.
pub fn sender<P: Utf8Policy>(i: &[u8]) -> (r: Result<(&[u8], Address), ()>)
    requires
        parsable(i@.len() as int),
    ensures
        agrees_rest(r, i@, address_crlf_at(P::international(), i@, 0)),
{
    match address_crlf::<P>(i, 0) {
        Some((p, a)) => Ok((rest(i, p), a)),
        None => Err(()),
    }
}

/// Parse the content of a `"Reply-To:"` header.
///
/// Returns a list of addresses, and the input that follows them.
pub fn reply_to<P: Utf8Policy>(i: &[u8]) -> (r: Result<(&[u8], Vec<Address>), ()>)
    requires
        parsable(i@.len() as int),
    ensures
        agrees_rest_all(r, i@, address_list_crlf_at(P::international(), i@, 0)),
{
    match address_list_crlf::<P>(i, 0) {
        Some((p, list)) => Ok((rest(i, p), list)),
        None => Err(()),
    }
}

} // verus!
