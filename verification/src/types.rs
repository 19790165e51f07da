//! The parts of a mail address.

use vstd::prelude::*;
use vstd::string::*;

verus! {

/// A dot-atom: atoms joined by single dots.
#[derive(Clone, Debug, PartialEq, Eq)]
pub struct DotAtom(pub String);

/// The content of a quoted string, quotes and escapes removed.
#[derive(Clone, Debug, PartialEq, Eq)]
pub struct QuotedString(pub String);

/// A domain name.
#[derive(Clone, Debug, PartialEq, Eq)]
pub struct Domain(pub String);

/// The part of an address before the `@`.
#[derive(Clone, Debug, PartialEq, Eq)]
pub enum LocalPart {
    /// A dot-atom.
    DotAtom(DotAtom),
    /// A quoted string.
    Quoted(QuotedString),
}

/// What stands between `[` and `]` in the place of a domain.
#[derive(Clone, Debug, PartialEq, Eq)]
pub enum AddressLiteral {
    /// Text of no form that is recognised.
    FreeForm(String),
    /// An IPv4 address, from its four decimal fields.
    IPv4(u8, u8, u8, u8),
    /// Text that follows the tag `IPv6:`.
    IPv6(String),
}

/// The part of an address after the `@`.
#[derive(Clone, Debug, PartialEq, Eq)]
pub enum DomainPart {
    /// A domain name.
    Domain(Domain),
    /// An address literal.
    Address(AddressLiteral),
}

/// A local part and a domain part: never one without the other.
#[derive(Clone, Debug, PartialEq, Eq)]
pub struct Mailbox(pub LocalPart, pub DomainPart);

/// The value of a [`LocalPart`].
pub enum LocalPartModel {
    DotAtom(Seq<char>),
    Quoted(Seq<char>),
}

/// The value of an [`AddressLiteral`].
pub enum LiteralModel {
    FreeForm(Seq<char>),
    IPv4(u8, u8, u8, u8),
    IPv6(Seq<char>),
}

/// The value of a [`DomainPart`].
pub enum DomainPartModel {
    Domain(Seq<char>),
    Address(LiteralModel),
}

impl View for LocalPart {
    type V = LocalPartModel;

    open spec fn view(&self) -> LocalPartModel {
        match self {
            LocalPart::DotAtom(a) => LocalPartModel::DotAtom(a.0@),
            LocalPart::Quoted(q) => LocalPartModel::Quoted(q.0@),
        }
    }
}

impl View for AddressLiteral {
    type V = LiteralModel;

    open spec fn view(&self) -> LiteralModel {
        match self {
            AddressLiteral::FreeForm(text) => LiteralModel::FreeForm(text@),
            AddressLiteral::IPv4(a, b, c, d) => LiteralModel::IPv4(*a, *b, *c, *d),
            AddressLiteral::IPv6(text) => LiteralModel::IPv6(text@),
        }
    }
}

impl View for DomainPart {
    type V = DomainPartModel;

    open spec fn view(&self) -> DomainPartModel {
        match self {
            DomainPart::Domain(d) => DomainPartModel::Domain(d.0@),
            DomainPart::Address(a) => DomainPartModel::Address(a@),
        }
    }
}

impl View for Mailbox {
    type V = (LocalPartModel, DomainPartModel);

    open spec fn view(&self) -> (LocalPartModel, DomainPartModel) {
        (self.0@, self.1@)
    }
}

/// Whether a character is a decimal digit.
pub open spec fn is_digit_char(c: char) -> bool {
    0x30 <= c as u32 <= 0x39
}

/// How many digits stand at `i`, counting no more than three.
pub open spec fn digits_at(text: Seq<char>, i: int) -> int {
    if !(0 <= i < text.len() && is_digit_char(text[i])) {
        0
    } else if !(i + 1 < text.len() && is_digit_char(text[i + 1])) {
        1
    } else if !(i + 2 < text.len() && is_digit_char(text[i + 2])) {
        2
    } else {
        3
    }
}

/// The number that the `n` digits at `i` spell.
pub open spec fn number_at(text: Seq<char>, i: int, n: int) -> int
    decreases n,
{
    if n <= 0 {
        0
    } else {
        10 * number_at(text, i, n - 1) + (text[i + n - 1] as u32 - 0x30)
    }
}

/// One field of an IPv4 address at `i`: one to three digits that spell a
/// number up to 255.
pub open spec fn field_at(text: Seq<char>, i: int) -> Option<(int, u8)> {
    let n = digits_at(text, i);
    if n >= 1 && number_at(text, i, n) <= 255 {
        Some((i + n, number_at(text, i, n) as u8))
    } else {
        None
    }
}

/// Whether a dot stands at `i`.
pub open spec fn dot_at(text: Seq<char>, i: int) -> bool {
    0 <= i < text.len() && text[i] == '.'
}

/// The IPv4 address that a text spells: four fields with a dot between each
/// two, and nothing else.
pub open spec fn ipv4_of(text: Seq<char>) -> Option<(u8, u8, u8, u8)> {
    match field_at(text, 0) {
        Some((i, a)) => match field_at(text, i + 1) {
            Some((j, b)) => match field_at(text, j + 1) {
                Some((k, c)) => match field_at(text, k + 1) {
                    Some((end, d)) => if dot_at(text, i) && dot_at(text, j) && dot_at(text, k)
                        && end == text.len() {
                        Some((a, b, c, d))
                    } else {
                        None
                    },
                    None => None,
                },
                None => None,
            },
            None => None,
        },
        None => None,
    }
}

/// Whether a text begins with the tag `IPv6:`, in any mix of case.
pub open spec fn has_ipv6_tag(text: Seq<char>) -> bool {
    &&& text.len() >= 5
    &&& (text[0] == 'I' || text[0] == 'i')
    &&& (text[1] == 'P' || text[1] == 'p')
    &&& (text[2] == 'V' || text[2] == 'v')
    &&& text[3] == '6'
    &&& text[4] == ':'
}

/// The form that is recognised in the text of a literal, if any: an IPv4
/// address, else text tagged `IPv6:`.
pub open spec fn upgraded(text: Seq<char>) -> Option<LiteralModel> {
    match ipv4_of(text) {
        Some((a, b, c, d)) => Some(LiteralModel::IPv4(a, b, c, d)),
        None => if has_ipv6_tag(text) {
            Some(LiteralModel::IPv6(text.skip(5)))
        } else {
            None
        },
    }
}

/// The literal that a text between `[` and `]` stands for: the form that is
/// recognised in it, or the text as it is.
pub open spec fn classified(text: Seq<char>) -> LiteralModel {
    match upgraded(text) {
        Some(literal) => literal,
        None => LiteralModel::FreeForm(text),
    }
}

/// The value of a decimal digit.
fn digit(c: char) -> (r: Option<u8>)
    ensures
        match r {
            Some(d) => is_digit_char(c) && d == c as u32 - 0x30,
            None => !is_digit_char(c),
        },
{
    let n = c as u32;
    if 0x30 <= n && n <= 0x39 {
        Some((n - 0x30) as u8)
    } else {
        None
    }
}

/// Reads one field of an IPv4 address at `i`.
fn field(text: &str, len: usize, i: usize) -> (r: Option<(usize, u8)>)
    requires
        len == text@.len(),
        i <= len,
    ensures
        match r {
            Some((p, n)) => field_at(text@, i as int) == Some((p as int, n)) && i < p <= len,
            None => field_at(text@, i as int) is None,
        },
{
    reveal_with_fuel(number_at, 4);
    let mut value: u32 = 0;
    let mut n: usize = 0;
    while n < 3 && n < len - i
        invariant
            len == text@.len(),
            i <= len,
            n <= 3,
            i + n <= len,
            forall|j: int| i <= j < i + n ==> is_digit_char(#[trigger] text@[j]),
            value == number_at(text@, i as int, n as int),
            n == 0 ==> value == 0,
            n == 1 ==> value <= 9,
            n == 2 ==> value <= 99,
            value <= 999,
        ensures
            n <= 3,
            i + n <= len,
            n == digits_at(text@, i as int),
            value == number_at(text@, i as int, n as int),
        decreases 3 - n,
    {
        match digit(text.get_char(i + n)) {
            Some(d) => {
                value = value * 10 + d as u32;
                n += 1;
            },
            None => {
                break ;
            },
        }
    }
    if n >= 1 && value <= 255 {
        Some((i + n, value as u8))
    } else {
        None
    }
}

/// Whether a dot stands at `i`.
fn dot(text: &str, len: usize, i: usize) -> (r: bool)
    requires
        len == text@.len(),
    ensures
        r == dot_at(text@, i as int),
{
    i < len && text.get_char(i) == '.'
}

/// The IPv4 address that a text spells.
fn ipv4(text: &str) -> (r: Option<(u8, u8, u8, u8)>)
    ensures
        r == ipv4_of(text@),
{
    let len = text.unicode_len();
    match field(text, len, 0) {
        Some((i, a)) => {
            if i >= len {
                return None;
            }
            match field(text, len, i + 1) {
                Some((j, b)) => {
                    if j >= len {
                        return None;
                    }
                    match field(text, len, j + 1) {
                        Some((k, c)) => {
                            if k >= len {
                                return None;
                            }
                            match field(text, len, k + 1) {
                                Some((end, d)) => {
                                    if dot(text, len, i) && dot(text, len, j) && dot(text, len, k)
                                        && end == len {
                                        Some((a, b, c, d))
                                    } else {
                                        None
                                    }
                                },
                                None => None,
                            }
                        },
                        None => None,
                    }
                },
                None => None,
            }
        },
        None => None,
    }
}

/// Whether a text begins with the tag `IPv6:`.
fn ipv6_tag(text: &str, len: usize) -> (r: bool)
    requires
        len == text@.len(),
    ensures
        r == has_ipv6_tag(text@),
{
    if len < 5 {
        return false;
    }
    let c0 = text.get_char(0);
    let c1 = text.get_char(1);
    let c2 = text.get_char(2);
    (c0 == 'I' || c0 == 'i') && (c1 == 'P' || c1 == 'p') && (c2 == 'V' || c2 == 'v')
        && text.get_char(3) == '6' && text.get_char(4) == ':'
}

impl AddressLiteral {
    /// The more formal literal that the text of a free-form literal spells,
    /// if it spells one.
    pub fn upgrade(&self) -> (r: Option<AddressLiteral>)
        ensures
            match r {
                Some(literal) => self matches AddressLiteral::FreeForm(text) && upgraded(text@)
                    == Some(literal@),
                None => self matches AddressLiteral::FreeForm(text) ==> upgraded(text@) is None,
            },
    {
        match self {
            AddressLiteral::FreeForm(text) => {
                let t = text.as_str();
                match ipv4(t) {
                    Some((a, b, c, d)) => Some(AddressLiteral::IPv4(a, b, c, d)),
                    None => {
                        let len = t.unicode_len();
                        if ipv6_tag(t, len) {
                            let rest = t.substring_char(5, len);
                            assert(rest@ =~= text@.skip(5));
                            Some(AddressLiteral::IPv6(String::from_str(rest)))
                        } else {
                            None
                        }
                    },
                }
            },
            _ => None,
        }
    }

    /// The literal that a text between `[` and `]` stands for.
    pub fn classify(text: String) -> (r: AddressLiteral)
        ensures
            r@ == classified(text@),
    {
        let literal = AddressLiteral::FreeForm(text);
        match literal.upgrade() {
            Some(formal) => formal,
            None => literal,
        }
    }
}

} // verus!
