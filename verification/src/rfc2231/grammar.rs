//! The grammar of a parameter list.

use crate::behaviour::Intl;
use crate::escape::{decode_run, octets, Escape};
use crate::rfc5322::lexical::{ofws, ofws_at, quoted_string, quoted_string_at};
use crate::util::{
    agrees, byte_at, in_class, is_byte, is_crlf, lemma_run_end, lemma_views_push, parsable,
    run_end, scan, skip_crlf, text, text_of, views, ByteClass,
};
use vstd::prelude::*;
use vstd::slice::{slice_subrange, slice_to_vec};
use vstd::string::*;

verus! {

/// The name of a parameter: the attribute, and the number of the section
/// where the value is split.
#[derive(Debug)]
pub struct Name {
    pub section: Option<u32>,
    pub name: Vec<u8>,
}

/// An extended value: the first, which names the character set and the
/// language of the whole, or one that continues it.
#[derive(Debug)]
pub enum ExtendedValue {
    Initial { encoding: Option<Vec<u8>>, language: Option<Vec<u8>>, value: Vec<u8> },
    Other(Vec<u8>),
}

/// The value of a parameter: text, or bytes in a character set.
#[derive(Debug)]
pub enum Value {
    Regular(String),
    Extended(ExtendedValue),
}

/// One parameter as it stands in a header.
#[derive(Debug)]
pub struct Parameter {
    pub name: Name,
    pub value: Value,
}

/// The value of a [`Value`].
pub enum ValueModel {
    Regular(Seq<char>),
    Initial { encoding: Option<Seq<u8>>, language: Option<Seq<u8>>, value: Seq<u8> },
    Other(Seq<u8>),
}

/// The value of a [`Parameter`].
pub struct ParameterModel {
    pub name: Seq<u8>,
    pub section: Option<u32>,
    pub value: ValueModel,
}

/// The view of optional bytes.
pub open spec fn bytes_view(bytes: Option<Vec<u8>>) -> Option<Seq<u8>> {
    match bytes {
        Some(v) => Some(v@),
        None => None,
    }
}

impl View for Value {
    type V = ValueModel;

    open spec fn view(&self) -> ValueModel {
        match self {
            Value::Regular(text) => ValueModel::Regular(text@),
            Value::Extended(ExtendedValue::Initial { encoding, language, value }) => {
                ValueModel::Initial {
                    encoding: bytes_view(*encoding),
                    language: bytes_view(*language),
                    value: value@,
                }
            },
            Value::Extended(ExtendedValue::Other(value)) => ValueModel::Other(value@),
        }
    }
}

impl View for Parameter {
    type V = ParameterModel;

    open spec fn view(&self) -> ParameterModel {
        ParameterModel { name: self.name.name@, section: self.name.section, value: self.value@ }
    }
}

/// Whether a byte may stand in an attribute: printable ASCII but the
/// tspecials, `*`, `'` and `%`.
pub fn is_attribute_char(c: u8) -> (r: bool)
    ensures
        r == in_class(ByteClass::Attribute, c),
{
    ByteClass::Attribute.contains(c)
}

/// `=` at `pos`, with optional folding white space on either side.
pub open spec fn equals_at(s: Seq<u8>, pos: int) -> Option<int> {
    let p = ofws_at(s, pos).0;
    if byte_at(s, p, 0x3d) {
        Some(ofws_at(s, p + 1).0)
    } else {
        None
    }
}

/// The number that decimal digits spell.
pub open spec fn decimal(digits: Seq<u8>) -> nat
    decreases digits.len(),
{
    if digits.len() == 0 {
        0
    } else {
        (decimal(digits.drop_last()) * 10 + (digits.last() - 0x30)) as nat
    }
}

/// `*0` at `pos`: the number of the first section.
pub open spec fn initial_section_at(s: Seq<u8>, pos: int) -> Option<(int, u32)> {
    if byte_at(s, pos, 0x2a) && byte_at(s, pos + 1, 0x30) {
        Some((pos + 2, 0u32))
    } else {
        None
    }
}

/// How many digits of a section number stand at `pos`: up to eight.
pub open spec fn section_digits(s: Seq<u8>, pos: int) -> int {
    let n = run_end(ByteClass::Digit, s, pos) - pos;
    if n > 8 {
        8
    } else {
        n
    }
}

/// `*` and the number of a later section at `pos`: one to eight digits, of
/// which the first is not `0`.
pub open spec fn other_section_at(s: Seq<u8>, pos: int) -> Option<(int, u32)> {
    let n = section_digits(s, pos + 1);
    if byte_at(s, pos, 0x2a) && n >= 1 && s[pos + 1] != 0x30 {
        Some((pos + 1 + n, decimal(s.subrange(pos + 1, pos + 1 + n)) as u32))
    } else {
        None
    }
}

/// The number of a section at `pos`.
pub open spec fn section_at(s: Seq<u8>, pos: int) -> Option<(int, u32)> {
    if initial_section_at(s, pos) is Some {
        initial_section_at(s, pos)
    } else {
        other_section_at(s, pos)
    }
}

/// Where the attribute at `pos` ends, if one stands there.
pub open spec fn attribute_at(s: Seq<u8>, pos: int) -> Option<int> {
    if 0 <= pos && run_end(ByteClass::Attribute, s, pos) > pos {
        Some(run_end(ByteClass::Attribute, s, pos))
    } else {
        None
    }
}

/// The name of a regular parameter at `pos`: an attribute, and the number
/// of a section if one follows.
pub open spec fn regular_parameter_name_at(s: Seq<u8>, pos: int) -> Option<
    (int, (Seq<u8>, Option<u32>)),
> {
    match attribute_at(s, pos) {
        Some(end) => match section_at(s, end) {
            Some((p, k)) => Some((p, (s.subrange(pos, end), Some(k)))),
            None => Some((end, (s.subrange(pos, end), None))),
        },
        None => None,
    }
}

/// The value of a regular parameter at `pos`: a token, else a quoted string.
pub open spec fn value_at(s: Seq<u8>, pos: int) -> Option<(int, Seq<char>)> {
    let end = run_end(ByteClass::MimeToken, s, pos);
    if 0 <= pos && end > pos {
        Some((end, text_of(s.subrange(pos, end))))
    } else {
        quoted_string_at(true, s, pos)
    }
}

/// A regular parameter at `pos`: name, `=` and value.
pub open spec fn regular_parameter_at(s: Seq<u8>, pos: int) -> Option<(int, ParameterModel)> {
    match regular_parameter_name_at(s, pos) {
        Some((p, (name, section))) => match equals_at(s, p) {
            Some(q) => match value_at(s, q) {
                Some((end, v)) => Some(
                    (end, ParameterModel { name, section, value: ValueModel::Regular(v) }),
                ),
                None => None,
            },
            None => None,
        },
        None => None,
    }
}

/// The name of a first extended value at `pos`: an attribute, `*0` or
/// nothing, and `*`.
pub open spec fn extended_initial_name_at(s: Seq<u8>, pos: int) -> Option<
    (int, (Seq<u8>, Option<u32>)),
> {
    match attribute_at(s, pos) {
        Some(end) => {
            let (p, section) = match initial_section_at(s, end) {
                Some((p, k)) => (p, Some(k)),
                None => (end, None),
            };
            if byte_at(s, p, 0x2a) {
                Some((p + 1, (s.subrange(pos, end), section)))
            } else {
                None
            }
        },
        None => None,
    }
}

/// The name of a later extended value at `pos`: an attribute, the number of
/// the section, and `*`.
pub open spec fn extended_other_names_at(s: Seq<u8>, pos: int) -> Option<
    (int, (Seq<u8>, Option<u32>)),
> {
    match attribute_at(s, pos) {
        Some(end) => match other_section_at(s, end) {
            Some((p, k)) => if byte_at(s, p, 0x2a) {
                Some((p + 1, (s.subrange(pos, end), Some(k))))
            } else {
                None
            },
            None => None,
        },
        None => None,
    }
}

/// An optional attribute at `pos`: where it ends, and its bytes if there are any.
pub open spec fn optional_attribute_at(s: Seq<u8>, pos: int) -> (int, Option<Seq<u8>>) {
    match attribute_at(s, pos) {
        Some(end) => (end, Some(s.subrange(pos, end))),
        None => (pos, None),
    }
}

/// A first extended value at `pos`: the character set, `'`, the language,
/// `'`, and the bytes of the value with their `%XX` escapes undone.
pub open spec fn extended_initial_value_at(s: Seq<u8>, pos: int) -> Option<(int, ValueModel)> {
    let (p, encoding) = optional_attribute_at(s, pos);
    let (q, language) = optional_attribute_at(s, p + 1);
    if byte_at(s, p, 0x27) && byte_at(s, q, 0x27) {
        let (end, value) = octets(Escape::Percent, s, q + 1);
        Some((end, ValueModel::Initial { encoding, language, value }))
    } else {
        None
    }
}

/// An extended parameter at `pos`: a first value, else a later one.
pub open spec fn extended_parameter_at(s: Seq<u8>, pos: int) -> Option<(int, ParameterModel)> {
    let first = match extended_initial_name_at(s, pos) {
        Some((p, (name, section))) => match equals_at(s, p) {
            Some(q) => match extended_initial_value_at(s, q) {
                Some((end, value)) => Some((end, ParameterModel { name, section, value })),
                None => None,
            },
            None => None,
        },
        None => None,
    };
    if first is Some {
        first
    } else {
        match extended_other_names_at(s, pos) {
            Some((p, (name, section))) => match equals_at(s, p) {
                Some(q) => {
                    let (end, value) = octets(Escape::Percent, s, q);
                    Some((end, ParameterModel { name, section, value: ValueModel::Other(value) }))
                },
                None => None,
            },
            None => None,
        }
    }
}

/// A parameter at `pos`: a regular one, else an extended one.
#[verifier::opaque]
pub open spec fn parameter_at(s: Seq<u8>, pos: int) -> Option<(int, ParameterModel)> {
    if regular_parameter_at(s, pos) is Some {
        regular_parameter_at(s, pos)
    } else {
        extended_parameter_at(s, pos)
    }
}

/// The parameters from `pos`, each after `;` and optional folding white space.
pub open spec fn parameters_at(s: Seq<u8>, pos: int) -> (int, Seq<ParameterModel>)
    decreases s.len() - pos,
{
    if byte_at(s, pos, 0x3b) {
        match parameter_at(s, ofws_at(s, pos + 1).0) {
            Some((p, parameter)) => if pos < p <= s.len() {
                let (end, rest) = parameters_at(s, p);
                (end, seq![parameter] + rest)
            } else {
                (pos, Seq::empty())
            },
            None => (pos, Seq::empty()),
        }
    } else {
        (pos, Seq::empty())
    }
}

/// A list of parameters at `pos`, with the `;` and the line break that may
/// follow it. Every input holds one, if only an empty one.
pub open spec fn parameter_list_at(s: Seq<u8>, pos: int) -> (int, Seq<ParameterModel>) {
    let (p, parameters) = parameters_at(s, pos);
    let q = if byte_at(s, p, 0x3b) {
        p + 1
    } else {
        p
    };
    (skip_crlf(s, q), parameters)
}

/// Whether bytes are attribute characters throughout.
pub open spec fn is_attribute(name: Seq<u8>) -> bool {
    forall|i: int| 0 <= i < name.len() ==> in_class(ByteClass::Attribute, #[trigger] name[i])
}

/// Whether a parameter is one that the grammar yields: its name is made of
/// attribute characters, and a value that continues another has the number
/// of its section.
pub open spec fn grammatical(parameter: ParameterModel) -> bool {
    is_attribute(parameter.name) && (parameter.value is Other ==> parameter.section is Some)
}

/// Whether every parameter of a list is one that the grammar yields.
pub open spec fn all_grammatical(parameters: Seq<ParameterModel>) -> bool {
    forall|i: int| 0 <= i < parameters.len() ==> grammatical(#[trigger] parameters[i])
}

/// How many bytes of a value are still to be decoded.
pub open spec fn value_weight(value: ValueModel) -> nat {
    match value {
        ValueModel::Regular(_) => 0,
        ValueModel::Initial { value, .. } => value.len(),
        ValueModel::Other(value) => value.len(),
    }
}

/// How many bytes of the values of a list are still to be decoded.
pub open spec fn weight(parameters: Seq<ParameterModel>) -> nat
    decreases parameters.len(),
{
    if parameters.len() == 0 {
        0
    } else {
        weight(parameters.drop_last()) + value_weight(parameters.last().value)
    }
}

/// Reads `=` at `pos`, with the folding white space around it.
pub fn _equals(input: &[u8], pos: usize) -> (r: Option<usize>)
    requires
        pos <= input.len(),
    ensures
        match r {
            Some(p) => equals_at(input@, pos as int) == Some(p as int) && pos < p <= input.len(),
            None => equals_at(input@, pos as int) is None,
        },
{
    let (p, _) = ofws(input, pos);
    if is_byte(input, p, 0x3d) {
        let (q, _) = ofws(input, p + 1);
        Some(q)
    } else {
        None
    }
}

/// Reads an attribute at `pos`, and returns where it ends.
pub fn attribute(input: &[u8], pos: usize) -> (r: Option<usize>)
    requires
        pos <= input.len(),
    ensures
        match r {
            Some(p) => attribute_at(input@, pos as int) == Some(p as int) && pos < p
                <= input.len() && is_attribute(input@.subrange(pos as int, p as int)),
            None => attribute_at(input@, pos as int) is None,
        },
{
    let end = scan(ByteClass::Attribute, input, pos);
    proof {
        lemma_run_end(ByteClass::Attribute, input@, pos as int);
        assert forall|i: int| 0 <= i < end - pos implies in_class(
            ByteClass::Attribute,
            #[trigger] input@.subrange(pos as int, end as int)[i],
        ) by {
            assert(input@.subrange(pos as int, end as int)[i] == input@[pos + i]);
        }
    }
    if end > pos {
        Some(end)
    } else {
        None
    }
}

/// Reads `*0` at `pos`.
pub fn initial_section(input: &[u8], pos: usize) -> (r: Option<(usize, u32)>)
    requires
        pos <= input.len(),
    ensures
        agrees(r, initial_section_at(input@, pos as int)),
        r matches Some((p, _)) ==> pos < p <= input.len(),
{
    if is_byte(input, pos, 0x2a) && pos + 1 < input.len() && input[pos + 1] == 0x30 {
        Some((pos + 2, 0))
    } else {
        None
    }
}

/// Reads `*` and the number of a later section at `pos`.
pub fn other_sections(input: &[u8], pos: usize) -> (r: Option<(usize, u32)>)
    requires
        pos <= input.len(),
    ensures
        agrees(r, other_section_at(input@, pos as int)),
        r matches Some((p, _)) ==> pos < p <= input.len(),
{
    if !is_byte(input, pos, 0x2a) {
        return None;
    }
    let start = pos + 1;
    let run = scan(ByteClass::Digit, input, start) - start;
    let n = if run > 8 {
        8
    } else {
        run
    };
    if n == 0 || input[start] == 0x30 {
        return None;
    }
    let mut value: u32 = 0;
    let mut i: usize = 0;
    proof {
        lemma_run_end(ByteClass::Digit, input@, start as int);
        assert(input@.subrange(start as int, start as int) =~= Seq::<u8>::empty());
    }
    while i < n
        invariant
            i <= n <= 8,
            start + n <= input.len(),
            forall|j: int| start <= j < start + n ==> in_class(ByteClass::Digit, #[trigger] input@[j]),
            value == decimal(input@.subrange(start as int, start + i)),
            i == 0 ==> value == 0,
            i == 1 ==> value < 10,
            i == 2 ==> value < 100,
            i == 3 ==> value < 1000,
            i == 4 ==> value < 10000,
            i == 5 ==> value < 100000,
            i == 6 ==> value < 1000000,
            i == 7 ==> value < 10000000,
            i == 8 ==> value < 100000000,
        decreases n - i,
    {
        proof {
            let next = input@.subrange(start as int, start + i + 1);
            assert(next.drop_last() =~= input@.subrange(start as int, start + i));
            assert(next.last() == input@[start + i]);
        }
        value = value * 10 + (input[start + i] - 0x30) as u32;
        i += 1;
    }
    Some((start + n, value))
}

/// Reads the number of a section at `pos`.
pub fn section(input: &[u8], pos: usize) -> (r: Option<(usize, u32)>)
    requires
        pos <= input.len(),
    ensures
        agrees(r, section_at(input@, pos as int)),
        r matches Some((p, _)) ==> pos < p <= input.len(),
{
    let first = initial_section(input, pos);
    if first.is_some() {
        first
    } else {
        other_sections(input, pos)
    }
}

/// What a reader of a name returns at a position.
pub open spec fn reads_name(r: Option<(usize, Name)>, m: Option<(int, (Seq<u8>, Option<u32>))>) -> bool {
    match r {
        Some((p, name)) => m == Some((p as int, (name.name@, name.section))),
        None => m is None,
    }
}

/// Reads the name of a regular parameter at `pos`.
pub fn regular_parameter_name(input: &[u8], pos: usize) -> (r: Option<(usize, Name)>)
    requires
        pos <= input.len(),
    ensures
        reads_name(r, regular_parameter_name_at(input@, pos as int)),
        r matches Some((p, name)) ==> pos < p <= input.len() && is_attribute(name.name@),
{
    match attribute(input, pos) {
        Some(end) => {
            let name = slice_to_vec(slice_subrange(input, pos, end));
            match section(input, end) {
                Some((p, k)) => Some((p, Name { section: Some(k), name })),
                None => Some((end, Name { section: None, name })),
            }
        },
        None => None,
    }
}

/// Reads the value of a regular parameter at `pos`.
pub fn value(input: &[u8], pos: usize) -> (r: Option<(usize, String)>)
    requires
        pos <= input.len(),
        parsable(input@.len() as int),
    ensures
        agrees(r, value_at(input@, pos as int)),
        r matches Some((p, _)) ==> pos < p <= input.len(),
{
    let end = scan(ByteClass::MimeToken, input, pos);
    if end > pos {
        Some((end, text(input, pos, end)))
    } else {
        quoted_string::<Intl>(input, pos)
    }
}

/// Reads a regular parameter at `pos`.
pub fn regular_parameter(input: &[u8], pos: usize) -> (r: Option<(usize, Parameter)>)
    requires
        pos <= input.len(),
        parsable(input@.len() as int),
    ensures
        agrees(r, regular_parameter_at(input@, pos as int)),
        r matches Some((p, v)) ==> pos < p <= input.len() && grammatical(v@),
{
    match regular_parameter_name(input, pos) {
        Some((p, name)) => match _equals(input, p) {
            Some(q) => match value(input, q) {
                Some((end, v)) => Some((end, Parameter { name, value: Value::Regular(v) })),
                None => None,
            },
            None => None,
        },
        None => None,
    }
}

/// Reads the name of a first extended value at `pos`.
pub fn extended_initial_name(input: &[u8], pos: usize) -> (r: Option<(usize, Name)>)
    requires
        pos <= input.len(),
    ensures
        reads_name(r, extended_initial_name_at(input@, pos as int)),
        r matches Some((p, name)) ==> pos < p <= input.len() && is_attribute(name.name@),
{
    match attribute(input, pos) {
        Some(end) => {
            let (p, section) = match initial_section(input, end) {
                Some((p, k)) => (p, Some(k)),
                None => (end, None),
            };
            if is_byte(input, p, 0x2a) {
                let name = slice_to_vec(slice_subrange(input, pos, end));
                Some((p + 1, Name { section, name }))
            } else {
                None
            }
        },
        None => None,
    }
}

/// Reads the name of a later extended value at `pos`.
pub fn extended_other_names(input: &[u8], pos: usize) -> (r: Option<(usize, Name)>)
    requires
        pos <= input.len(),
    ensures
        reads_name(r, extended_other_names_at(input@, pos as int)),
        r matches Some((p, name)) ==> pos < p <= input.len() && is_attribute(name.name@),
{
    match attribute(input, pos) {
        Some(end) => match other_sections(input, end) {
            Some((p, k)) => {
                if is_byte(input, p, 0x2a) {
                    let name = slice_to_vec(slice_subrange(input, pos, end));
                    Some((p + 1, Name { section: Some(k), name }))
                } else {
                    None
                }
            },
            None => None,
        },
        None => None,
    }
}

/// Reads the bytes of an extended value from `pos`, undoing `%XX` escapes.
pub fn extended_other_values(input: &[u8], pos: usize) -> (r: (usize, Vec<u8>))
    requires
        pos <= input.len(),
    ensures
        (r.0 as int, r.1@) == octets(Escape::Percent, input@, pos as int),
        pos <= r.0 <= input.len(),
        r.1@.len() <= r.0 - pos,
{
    decode_run(Escape::Percent, input, pos)
}

/// Reads an optional attribute at `pos`.
fn optional_attribute(input: &[u8], pos: usize) -> (r: (usize, Option<Vec<u8>>))
    requires
        pos <= input.len(),
    ensures
        (r.0 as int, bytes_view(r.1)) == optional_attribute_at(input@, pos as int),
        pos <= r.0 <= input.len(),
{
    match attribute(input, pos) {
        Some(end) => (end, Some(slice_to_vec(slice_subrange(input, pos, end)))),
        None => (pos, None),
    }
}

/// Reads a first extended value at `pos`.
pub fn extended_initial_value(input: &[u8], pos: usize) -> (r: Option<(usize, ExtendedValue)>)
    requires
        pos <= input.len(),
    ensures
        match r {
            Some((p, v)) => extended_initial_value_at(input@, pos as int) == Some(
                (p as int, Value::Extended(v)@),
            ) && pos < p <= input.len() && value_weight(Value::Extended(v)@) <= p - pos,
            None => extended_initial_value_at(input@, pos as int) is None,
        },
{
    let (p, encoding) = optional_attribute(input, pos);
    if !is_byte(input, p, 0x27) {
        return None;
    }
    let (q, language) = optional_attribute(input, p + 1);
    if !is_byte(input, q, 0x27) {
        return None;
    }
    let (end, value) = extended_other_values(input, q + 1);
    Some((end, ExtendedValue::Initial { encoding, language, value }))
}

/// Reads an extended parameter at `pos`.
pub fn extended_parameter(input: &[u8], pos: usize) -> (r: Option<(usize, Parameter)>)
    requires
        pos <= input.len(),
    ensures
        agrees(r, extended_parameter_at(input@, pos as int)),
        r matches Some((p, v)) ==> pos < p <= input.len() && value_weight(v@.value) <= p - pos
            && grammatical(v@),
{
    let first = match extended_initial_name(input, pos) {
        Some((p, name)) => match _equals(input, p) {
            Some(q) => match extended_initial_value(input, q) {
                Some((end, v)) => Some((end, Parameter { name, value: Value::Extended(v) })),
                None => None,
            },
            None => None,
        },
        None => None,
    };
    if first.is_some() {
        return first;
    }
    match extended_other_names(input, pos) {
        Some((p, name)) => match _equals(input, p) {
            Some(q) => {
                let (end, v) = extended_other_values(input, q);
                Some(
                    (end, Parameter { name, value: Value::Extended(ExtendedValue::Other(v)) }),
                )
            },
            None => None,
        },
        None => None,
    }
}

/// Reads a parameter at `pos`.
pub fn parameter(input: &[u8], pos: usize) -> (r: Option<(usize, Parameter)>)
    requires
        pos <= input.len(),
        parsable(input@.len() as int),
    ensures
        agrees(r, parameter_at(input@, pos as int)),
        r matches Some((p, v)) ==> pos < p <= input.len() && value_weight(v@.value) <= p - pos
            && grammatical(v@),
{
    reveal(parameter_at);
    let regular = regular_parameter(input, pos);
    if regular.is_some() {
        regular
    } else {
        extended_parameter(input, pos)
    }
}

/// Reads a list of parameters at `pos`.
pub fn _parameter_list(input: &[u8], pos: usize) -> (r: (usize, Vec<Parameter>))
    requires
        pos <= input.len(),
        parsable(input@.len() as int),
    ensures
        (r.0 as int, views(r.1@)) == parameter_list_at(input@, pos as int),
        pos <= r.0 <= input.len(),
        weight(views(r.1@)) <= input.len(),
        all_grammatical(views(r.1@)),
{
    let mut out: Vec<Parameter> = Vec::new();
    let mut cur = pos;
    assert(views(out@) =~= Seq::<ParameterModel>::empty());
    loop
        invariant
            parsable(input@.len() as int),
            pos <= cur <= input.len(),
            weight(views(out@)) <= cur - pos,
            all_grammatical(views(out@)),
            parameters_at(input@, pos as int) == (
                parameters_at(input@, cur as int).0,
                views(out@) + parameters_at(input@, cur as int).1,
            ),
        ensures
            pos <= cur <= input.len(),
            weight(views(out@)) <= cur - pos,
            all_grammatical(views(out@)),
            parameters_at(input@, pos as int) == (cur as int, views(out@)),
        decreases input.len() - cur,
    {
        if !is_byte(input, cur, 0x3b) {
            assert(views(out@) + Seq::<ParameterModel>::empty() =~= views(out@));
            break ;
        }
        let (p, _) = ofws(input, cur + 1);
        match parameter(input, p) {
            Some((q, item)) => {
                proof {
                    let more = parameters_at(input@, q as int).1;
                    lemma_views_push(out@, item);
                    assert(views(out@) + (seq![item@] + more) =~= views(out@).push(item@) + more);
                    assert(views(out@).push(item@).drop_last() =~= views(out@));
                }
                out.push(item);
                cur = q;
            },
            None => {
                assert(views(out@) + Seq::<ParameterModel>::empty() =~= views(out@));
                break ;
            },
        }
    }
    if is_byte(input, cur, 0x3b) {
        cur = cur + 1;
    }
    if is_crlf(input, cur) {
        cur = cur + 2;
    }
    (cur, out)
}

} // verus!
