//! Robust parser for extracting a header section from a mail message.
//!
//! Headers must be separated by CRLF. Loosely based on RFC 5322 but
//! tolerates bytes above 127. The header section is considered to be
//! everything above a double CRLF.
//!
//! The input may be the beginning of a message only. Where the bytes at
//! hand do not decide how a rule ends, the outcome is that more are needed,
//! which is another outcome than a rule that does not match.

use crate::util::{crlf_at, is_crlf, rest, run_end, scan, ByteClass};
use vstd::prelude::*;
use vstd::slice::slice_subrange;

verus! {

/// Used to represent a split header.
///
/// - The [`Ok`] variant is used when a valid header with a name was
///   found. This variant contains a tuple with the header name and
///   value.
/// - The [`Err`] variant is returned when the first line of a header
///   does not contain a colon or contains 8bit bytes on the left hand
///   side of the colon.
pub type HeaderField<'a> = Result<(&'a [u8], &'a [u8]), &'a [u8]>;

/// Why a rule could not be read.
#[derive(Clone, Copy, Debug, PartialEq, Eq)]
pub enum Error {
    /// The input ends before the rule does: more bytes are needed.
    Incomplete,
    /// The input does not match the rule.
    NoMatch,
}

/// What a rule comes to at a position of an input that may go on.
pub enum Scan<T> {
    /// The rule ends at a position, with a value.
    Done(int, T),
    /// The input ends before it is decided where the rule ends.
    Incomplete,
    /// The rule does not match.
    NoMatch,
}

/// What a reader returns at a position.
pub enum Step<T> {
    Done(usize, T),
    Incomplete,
    NoMatch,
}

/// A header field as a value.
pub enum FieldModel {
    /// A name and a value.
    Named(Seq<u8>, Seq<u8>),
    /// A line without a name.
    Raw(Seq<u8>),
}

/// The value of a [`HeaderField`].
pub open spec fn field_model(field: HeaderField<'_>) -> FieldModel {
    match field {
        Ok((name, value)) => FieldModel::Named(name@, value@),
        Err(line) => FieldModel::Raw(line@),
    }
}

/// The values of header fields.
pub open spec fn field_models(fields: Seq<HeaderField<'_>>) -> Seq<FieldModel> {
    Seq::new(fields.len(), |i: int| field_model(fields[i]))
}

/// Whether a reader returned what the rule comes to.
pub open spec fn steps(r: Step<()>, m: Scan<()>) -> bool {
    match r {
        Step::Done(p, _) => m == Scan::Done(p as int, ()),
        Step::Incomplete => m is Incomplete,
        Step::NoMatch => m is NoMatch,
    }
}

/// A run of blanks from `pos`, which may be empty. It is not decided where
/// it ends as long as the input ends with it.
pub open spec fn blanks_at(s: Seq<u8>, pos: int) -> Scan<()> {
    let end = run_end(ByteClass::Wsp, s, pos);
    if end >= s.len() {
        Scan::Incomplete
    } else {
        Scan::Done(end, ())
    }
}

/// A run of one or more blanks from `pos`.
pub open spec fn blanks1_at(s: Seq<u8>, pos: int) -> Scan<()> {
    let end = run_end(ByteClass::Wsp, s, pos);
    if end >= s.len() {
        Scan::Incomplete
    } else if end > pos {
        Scan::Done(end, ())
    } else {
        Scan::NoMatch
    }
}

/// A line break at `pos`. One that the end of the input cuts short is not
/// decided.
pub open spec fn line_break_at(s: Seq<u8>, pos: int) -> Scan<()> {
    if pos >= s.len() {
        Scan::Incomplete
    } else if s[pos] != 0x0d {
        Scan::NoMatch
    } else if pos + 1 >= s.len() {
        Scan::Incomplete
    } else if s[pos + 1] != 0x0a {
        Scan::NoMatch
    } else {
        Scan::Done(pos + 2, ())
    }
}

/// Folding white space at `pos`: blanks and a line break, if there are
/// any, and one or more blanks.
pub open spec fn fws_at(s: Seq<u8>, pos: int) -> Scan<()> {
    match blanks_at(s, pos) {
        Scan::Done(p, _) => match line_break_at(s, p) {
            Scan::Done(q, _) => blanks1_at(s, q),
            Scan::Incomplete => Scan::Incomplete,
            Scan::NoMatch => blanks1_at(s, pos),
        },
        Scan::Incomplete => Scan::Incomplete,
        Scan::NoMatch => Scan::NoMatch,
    }
}

/// Folding white space at `pos`, or nothing.
pub open spec fn ofws_at(s: Seq<u8>, pos: int) -> Scan<()> {
    match fws_at(s, pos) {
        Scan::NoMatch => Scan::Done(pos, ()),
        found => found,
    }
}

/// The name of a field at `pos`: one or more printable characters but `:`.
pub open spec fn field_name_at(s: Seq<u8>, pos: int) -> Scan<()> {
    let end = run_end(ByteClass::FieldName, s, pos);
    if end >= s.len() {
        Scan::Incomplete
    } else if end > pos {
        Scan::Done(end, ())
    } else {
        Scan::NoMatch
    }
}

/// Where the first line break at or after `pos` stands, if there is one.
pub open spec fn first_line_break(s: Seq<u8>, pos: int) -> Option<int>
    decreases s.len() - pos,
{
    if pos < 0 || pos + 2 > s.len() {
        None
    } else if crlf_at(s, pos) {
        Some(pos)
    } else {
        first_line_break(s, pos + 1)
    }
}

/// One or more bytes at `pos` up to the next line break.
pub open spec fn until_crlf_at(s: Seq<u8>, pos: int) -> Scan<()> {
    match first_line_break(s, pos) {
        Some(p) => if p > pos {
            Scan::Done(p, ())
        } else {
            Scan::NoMatch
        },
        None => Scan::Incomplete,
    }
}

/// One stretch of a field's value at `pos`, with the folding white space
/// before it: visible characters, else everything up to the next line break.
pub open spec fn stretch_at(s: Seq<u8>, pos: int) -> Scan<()> {
    match ofws_at(s, pos) {
        Scan::Done(p, _) => {
            let end = run_end(ByteClass::Graphic, s, p);
            if end > p {
                Scan::Done(end, ())
            } else {
                until_crlf_at(s, p)
            }
        },
        other => other,
    }
}

/// The stretches of a field's value from `pos`.
pub open spec fn stretches_at(s: Seq<u8>, pos: int) -> Scan<()>
    decreases s.len() - pos,
{
    match stretch_at(s, pos) {
        Scan::Done(p, _) => if pos < p <= s.len() {
            stretches_at(s, p)
        } else {
            Scan::Done(pos, ())
        },
        Scan::Incomplete => Scan::Incomplete,
        Scan::NoMatch => Scan::Done(pos, ()),
    }
}

/// The value of a field at `pos`: stretches, and the blanks after the last.
pub open spec fn unstructured_at(s: Seq<u8>, pos: int) -> Scan<()> {
    match stretches_at(s, pos) {
        Scan::Done(p, _) => blanks_at(s, p),
        other => other,
    }
}

/// A field with a name at `pos`: name, `:`, value and line break.
pub open spec fn field_at(s: Seq<u8>, pos: int) -> Scan<FieldModel> {
    match field_name_at(s, pos) {
        Scan::Done(colon, _) => if s[colon] == 0x3a {
            match unstructured_at(s, colon + 1) {
                Scan::Done(end, _) => match line_break_at(s, end) {
                    Scan::Done(next, _) => Scan::Done(
                        next,
                        FieldModel::Named(s.subrange(pos, colon), s.subrange(colon + 1, end)),
                    ),
                    Scan::Incomplete => Scan::Incomplete,
                    Scan::NoMatch => Scan::NoMatch,
                },
                Scan::Incomplete => Scan::Incomplete,
                Scan::NoMatch => Scan::NoMatch,
            }
        } else {
            Scan::NoMatch
        },
        Scan::Incomplete => Scan::Incomplete,
        Scan::NoMatch => Scan::NoMatch,
    }
}

/// A line without a name at `pos`: one or more bytes and a line break.
pub open spec fn invalid_field_at(s: Seq<u8>, pos: int) -> Scan<FieldModel> {
    match until_crlf_at(s, pos) {
        Scan::Done(end, _) => Scan::Done(end + 2, FieldModel::Raw(s.subrange(pos, end))),
        Scan::Incomplete => Scan::Incomplete,
        Scan::NoMatch => Scan::NoMatch,
    }
}

/// A field at `pos`: one with a name, else a line without.
pub open spec fn any_field_at(s: Seq<u8>, pos: int) -> Scan<FieldModel> {
    match field_at(s, pos) {
        Scan::NoMatch => invalid_field_at(s, pos),
        found => found,
    }
}

/// The fields from `pos`.
pub open spec fn fields_at(s: Seq<u8>, pos: int) -> Scan<Seq<FieldModel>>
    decreases s.len() - pos,
{
    match any_field_at(s, pos) {
        Scan::Done(p, field) => if pos < p <= s.len() {
            match fields_at(s, p) {
                Scan::Done(end, rest) => Scan::Done(end, seq![field] + rest),
                Scan::Incomplete => Scan::Incomplete,
                Scan::NoMatch => Scan::NoMatch,
            }
        } else {
            Scan::Done(pos, Seq::empty())
        },
        Scan::Incomplete => Scan::Incomplete,
        Scan::NoMatch => Scan::Done(pos, Seq::empty()),
    }
}

/// A header section at the start of `s`: fields, and the line break that
/// parts them from the body.
pub open spec fn header_section_at(s: Seq<u8>) -> Scan<Seq<FieldModel>> {
    match fields_at(s, 0) {
        Scan::Done(p, fields) => match line_break_at(s, p) {
            Scan::Done(q, _) => Scan::Done(q, fields),
            Scan::Incomplete => Scan::Incomplete,
            Scan::NoMatch => Scan::Done(p, fields),
        },
        other => other,
    }
}

/// One field at the start of `s`, or the line break that ends the section.
pub open spec fn header_at(s: Seq<u8>) -> Scan<Option<FieldModel>> {
    match any_field_at(s, 0) {
        Scan::Done(p, field) => Scan::Done(p, Some(field)),
        Scan::Incomplete => Scan::Incomplete,
        Scan::NoMatch => match line_break_at(s, 0) {
            Scan::Done(p, _) => Scan::Done(p, None),
            Scan::Incomplete => Scan::Incomplete,
            Scan::NoMatch => Scan::NoMatch,
        },
    }
}

/// Reads a run of blanks, which may be empty.
fn blanks(input: &[u8], pos: usize) -> (r: Step<()>)
    requires
        pos <= input.len(),
    ensures
        steps(r, blanks_at(input@, pos as int)),
        r matches Step::Done(p, _) ==> pos <= p < input.len(),
{
    let end = scan(ByteClass::Wsp, input, pos);
    if end >= input.len() {
        Step::Incomplete
    } else {
        Step::Done(end, ())
    }
}

/// Reads a run of one or more blanks.
fn blanks1(input: &[u8], pos: usize) -> (r: Step<()>)
    requires
        pos <= input.len(),
    ensures
        steps(r, blanks1_at(input@, pos as int)),
        r matches Step::Done(p, _) ==> pos < p < input.len(),
{
    let end = scan(ByteClass::Wsp, input, pos);
    if end >= input.len() {
        Step::Incomplete
    } else if end > pos {
        Step::Done(end, ())
    } else {
        Step::NoMatch
    }
}

/// Reads a line break.
fn line_break(input: &[u8], pos: usize) -> (r: Step<()>)
    requires
        pos <= input.len(),
    ensures
        steps(r, line_break_at(input@, pos as int)),
        r matches Step::Done(p, _) ==> p == pos + 2 && p <= input.len(),
{
    if pos >= input.len() {
        Step::Incomplete
    } else if input[pos] != 0x0d {
        Step::NoMatch
    } else if pos + 1 >= input.len() {
        Step::Incomplete
    } else if input[pos + 1] != 0x0a {
        Step::NoMatch
    } else {
        Step::Done(pos + 2, ())
    }
}

/// Reads folding white space.
fn fws(input: &[u8], pos: usize) -> (r: Step<()>)
    requires
        pos <= input.len(),
    ensures
        steps(r, fws_at(input@, pos as int)),
        r matches Step::Done(p, _) ==> pos < p < input.len(),
{
    match blanks(input, pos) {
        Step::Done(p, _) => match line_break(input, p) {
            Step::Done(q, _) => blanks1(input, q),
            Step::Incomplete => Step::Incomplete,
            Step::NoMatch => blanks1(input, pos),
        },
        Step::Incomplete => Step::Incomplete,
        Step::NoMatch => Step::NoMatch,
    }
}

/// Reads folding white space, or nothing.
fn ofws(input: &[u8], pos: usize) -> (r: Step<()>)
    requires
        pos <= input.len(),
    ensures
        steps(r, ofws_at(input@, pos as int)),
        r matches Step::Done(p, _) ==> pos <= p <= input.len(),
        !(r is NoMatch),
{
    match fws(input, pos) {
        Step::NoMatch => Step::Done(pos, ()),
        found => found,
    }
}

/// Reads the name of a field.
fn field_name(input: &[u8], pos: usize) -> (r: Step<()>)
    requires
        pos <= input.len(),
    ensures
        steps(r, field_name_at(input@, pos as int)),
        r matches Step::Done(p, _) ==> pos < p < input.len(),
{
    let end = scan(ByteClass::FieldName, input, pos);
    if end >= input.len() {
        Step::Incomplete
    } else if end > pos {
        Step::Done(end, ())
    } else {
        Step::NoMatch
    }
}

/// Finds the first line break at or after `pos`.
pub fn find_line_break(input: &[u8], pos: usize) -> (r: Option<usize>)
    requires
        pos <= input.len(),
    ensures
        match r {
            Some(p) => first_line_break(input@, pos as int) == Some(p as int) && pos <= p && p + 2
                <= input.len(),
            None => first_line_break(input@, pos as int) is None,
        },
{
    let mut cur = pos;
    while input.len() - cur >= 2
        invariant
            pos <= cur <= input.len(),
            first_line_break(input@, pos as int) == first_line_break(input@, cur as int),
        decreases input.len() - cur,
    {
        if is_crlf(input, cur) {
            return Some(cur);
        }
        cur += 1;
    }
    None
}

/// Reads one or more bytes up to the next line break.
fn until_crlf(input: &[u8], pos: usize) -> (r: Step<()>)
    requires
        pos <= input.len(),
    ensures
        steps(r, until_crlf_at(input@, pos as int)),
        r matches Step::Done(p, _) ==> pos < p && p + 2 <= input.len() && crlf_at(
            input@,
            p as int,
        ),
{
    match find_line_break(input, pos) {
        Some(p) => {
            proof {
                lemma_first_line_break(input@, pos as int);
            }
            if p > pos {
                Step::Done(p, ())
            } else {
                Step::NoMatch
            }
        },
        None => Step::Incomplete,
    }
}

/// The first line break is a line break.
pub proof fn lemma_first_line_break(s: Seq<u8>, pos: int)
    ensures
        first_line_break(s, pos) matches Some(p) ==> pos <= p && crlf_at(s, p),
    decreases s.len() - pos,
{
    if !(pos < 0 || pos + 2 > s.len()) && !crlf_at(s, pos) {
        lemma_first_line_break(s, pos + 1);
    }
}

/// Reads one stretch of a field's value.
fn stretch(input: &[u8], pos: usize) -> (r: Step<()>)
    requires
        pos <= input.len(),
    ensures
        steps(r, stretch_at(input@, pos as int)),
        r matches Step::Done(p, _) ==> pos < p <= input.len(),
{
    match ofws(input, pos) {
        Step::Done(p, _) => {
            let end = scan(ByteClass::Graphic, input, p);
            if end > p {
                Step::Done(end, ())
            } else {
                until_crlf(input, p)
            }
        },
        other => other,
    }
}

/// Reads the value of a field.
fn unstructured(input: &[u8], pos: usize) -> (r: Step<()>)
    requires
        pos <= input.len(),
    ensures
        steps(r, unstructured_at(input@, pos as int)),
        r matches Step::Done(p, _) ==> pos <= p < input.len(),
{
    let mut cur = pos;
    loop
        invariant
            pos <= cur <= input.len(),
            stretches_at(input@, pos as int) == stretches_at(input@, cur as int),
        ensures
            pos <= cur <= input.len(),
            stretches_at(input@, pos as int) == Scan::Done(cur as int, ()),
        decreases input.len() - cur,
    {
        match stretch(input, cur) {
            Step::Done(p, _) => {
                cur = p;
            },
            Step::Incomplete => {
                return Step::Incomplete;
            },
            Step::NoMatch => {
                break ;
            },
        }
    }
    blanks(input, cur)
}

/// What a reader of a field returns at a position.
pub open spec fn reads_field(r: Step<HeaderField<'_>>, m: Scan<FieldModel>) -> bool {
    match r {
        Step::Done(p, field) => m == Scan::Done(p as int, field_model(field)),
        Step::Incomplete => m is Incomplete,
        Step::NoMatch => m is NoMatch,
    }
}

/// Reads a field with a name.
fn field<'a>(input: &'a [u8], pos: usize) -> (r: Step<HeaderField<'a>>)
    requires
        pos <= input.len(),
    ensures
        reads_field(r, field_at(input@, pos as int)),
        r matches Step::Done(p, _) ==> pos < p <= input.len(),
{
    match field_name(input, pos) {
        Step::Done(colon, _) => {
            if input[colon] != 0x3a {
                return Step::NoMatch;
            }
            match unstructured(input, colon + 1) {
                Step::Done(end, _) => match line_break(input, end) {
                    Step::Done(next, _) => Step::Done(
                        next,
                        Ok(
                            (
                                slice_subrange(input, pos, colon),
                                slice_subrange(input, colon + 1, end),
                            ),
                        ),
                    ),
                    Step::Incomplete => Step::Incomplete,
                    Step::NoMatch => Step::NoMatch,
                },
                Step::Incomplete => Step::Incomplete,
                Step::NoMatch => Step::NoMatch,
            }
        },
        Step::Incomplete => Step::Incomplete,
        Step::NoMatch => Step::NoMatch,
    }
}

/// Reads a line without a name.
fn invalid_field<'a>(input: &'a [u8], pos: usize) -> (r: Step<HeaderField<'a>>)
    requires
        pos <= input.len(),
    ensures
        reads_field(r, invalid_field_at(input@, pos as int)),
        r matches Step::Done(p, _) ==> pos < p <= input.len(),
{
    match until_crlf(input, pos) {
        Step::Done(end, _) => Step::Done(end + 2, Err(slice_subrange(input, pos, end))),
        Step::Incomplete => Step::Incomplete,
        Step::NoMatch => Step::NoMatch,
    }
}

/// Reads a field of either kind.
fn any_field<'a>(input: &'a [u8], pos: usize) -> (r: Step<HeaderField<'a>>)
    requires
        pos <= input.len(),
    ensures
        reads_field(r, any_field_at(input@, pos as int)),
        r matches Step::Done(p, _) ==> pos < p <= input.len(),
{
    match field(input, pos) {
        Step::NoMatch => invalid_field(input, pos),
        found => found,
    }
}

/// Splitting fields never fails for good: every line is a field of one
/// kind or the other, and what is no line ends the fields.
pub proof fn lemma_fields_never_fail(s: Seq<u8>, pos: int)
    ensures
        !(fields_at(s, pos) is NoMatch),
    decreases s.len() - pos,
{
    match any_field_at(s, pos) {
        Scan::Done(p, _) => {
            if pos < p <= s.len() {
                lemma_fields_never_fail(s, p);
            }
        },
        _ => {},
    }
}

/// Where neither kind of field stands, and the input does not end too
/// early to tell, a line break stands.
pub proof fn lemma_no_field_is_line_break(s: Seq<u8>, pos: int)
    requires
        0 <= pos,
        any_field_at(s, pos) is NoMatch,
    ensures
        crlf_at(s, pos),
{
    lemma_first_line_break(s, pos);
}

/// Zero copy mail message header splitter.
///
/// Returns the remaining input (the message body) and a vector of
/// [`HeaderField`] on success. Where the input ends before the header
/// section does, more bytes are needed; there is no other failure.
pub fn header_section<'a>(input: &'a [u8]) -> (r: Result<(&'a [u8], Vec<HeaderField<'a>>), Error>)
    ensures
        match r {
            Ok((body, fields)) => header_section_at(input@) matches Scan::Done(p, found) && 0 <= p
                <= input@.len() && body@ == input@.subrange(p, input@.len() as int)
                && field_models(fields@) == found,
            Err(e) => e == Error::Incomplete && header_section_at(input@) is Incomplete,
        },
{
    proof {
        lemma_fields_never_fail(input@, 0);
    }
    let mut fields: Vec<HeaderField<'a>> = Vec::new();
    let mut cur: usize = 0;
    assert(field_models(fields@) =~= Seq::<FieldModel>::empty());
    loop
        invariant
            cur <= input.len(),
            match fields_at(input@, cur as int) {
                Scan::Done(end, more) => fields_at(input@, 0) == Scan::Done(
                    end,
                    field_models(fields@) + more,
                ),
                Scan::Incomplete => fields_at(input@, 0) is Incomplete,
                Scan::NoMatch => fields_at(input@, 0) is NoMatch,
            },
        ensures
            cur <= input.len(),
            fields_at(input@, 0) == Scan::Done(cur as int, field_models(fields@)),
        decreases input.len() - cur,
    {
        match any_field(input, cur) {
            Step::Done(p, found) => {
                proof {
                    let before = field_models(fields@);
                    let item = field_model(found);
                    assert(field_models(fields@.push(found)) =~= before.push(item));
                    match fields_at(input@, p as int) {
                        Scan::Done(end, more) => {
                            assert(before + (seq![item] + more) =~= before.push(item) + more);
                        },
                        _ => {},
                    }
                }
                fields.push(found);
                cur = p;
            },
            Step::Incomplete => {
                return Err(Error::Incomplete);
            },
            Step::NoMatch => {
                assert(field_models(fields@) + Seq::<FieldModel>::empty() =~= field_models(
                    fields@,
                ));
                break ;
            },
        }
    }
    match line_break(input, cur) {
        Step::Done(q, _) => Ok((rest(input, q), fields)),
        Step::Incomplete => Err(Error::Incomplete),
        Step::NoMatch => Ok((rest(input, cur), fields)),
    }
}

/// Parse a single header.
///
/// Returns the remaining input and the field, or nothing where the line
/// break that ends the header section stands. Where the input ends too
/// early, more bytes are needed; there is no other failure.
pub fn header<'a>(input: &'a [u8]) -> (r: Result<(&'a [u8], Option<HeaderField<'a>>), Error>)
    ensures
        match r {
            Ok((after, field)) => header_at(input@) matches Scan::Done(p, found) && 0 <= p
                <= input@.len() && after@ == input@.subrange(p, input@.len() as int) && match field {
                Some(f) => found == Some(field_model(f)),
                None => found is None,
            },
            Err(e) => e == Error::Incomplete && header_at(input@) is Incomplete,
        },
{
    proof {
        if any_field_at(input@, 0) is NoMatch {
            lemma_no_field_is_line_break(input@, 0);
        }
    }
    match any_field(input, 0) {
        Step::Done(p, found) => Ok((rest(input, p), Some(found))),
        Step::Incomplete => Err(Error::Incomplete),
        Step::NoMatch => match line_break(input, 0) {
            Step::Done(p, _) => Ok((rest(input, p), None)),
            Step::Incomplete => Err(Error::Incomplete),
            Step::NoMatch => Err(Error::NoMatch),
        },
    }
}

} // verus!
