//! The parameters of a header as a mapping from names to text.

use crate::codec::{
    charset_text, codec, codec_for, decodable, decode, encoding_for_label, utf8, utf8_label,
    utf8_text,
};
use crate::rfc2231::grammar::{
    all_grammatical, grammatical, weight, ExtendedValue, Parameter, ParameterModel, Value,
    ValueModel,
};
use crate::rfc2231::reassembly::{
    decode_segments, reassembled, segment_models, total, Segment, SegmentModel,
};
use crate::util::{lemma_views_push, lower, lower_text, lower_text_of, to_lower, views};
use vstd::prelude::*;
use vstd::slice::slice_to_vec;
use vstd::string::*;

verus! {

/// The name under which a parameter is filed: its attribute in lower case.
pub open spec fn norm(name: Seq<u8>) -> Seq<char> {
    lower_text_of(name)
}

/// The last regular value without a section that the name `n` has.
pub open spec fn simple_regular(parameters: Seq<ParameterModel>, n: Seq<char>) -> Option<Seq<char>>
    decreases parameters.len(),
{
    if parameters.len() == 0 {
        None
    } else {
        let last = parameters.last();
        match last.value {
            ValueModel::Regular(text) => if norm(last.name) == n && last.section is None {
                Some(text)
            } else {
                simple_regular(parameters.drop_last(), n)
            },
            _ => simple_regular(parameters.drop_last(), n),
        }
    }
}

/// The text of bytes in the character set that an optional label names:
/// UTF-8 where there is no label, or one that names no character set.
pub open spec fn label_text(encoding: Option<Seq<u8>>, bytes: Seq<u8>) -> Seq<char> {
    match encoding {
        Some(label) => charset_text(label, bytes),
        None => utf8_text(bytes),
    }
}

/// The last extended value without a section that the name `n` has, decoded.
pub open spec fn simple_extended(parameters: Seq<ParameterModel>, n: Seq<char>) -> Option<
    Seq<char>,
>
    decreases parameters.len(),
{
    if parameters.len() == 0 {
        None
    } else {
        let last = parameters.last();
        match last.value {
            ValueModel::Initial { encoding, language, value } => if norm(last.name) == n
                && last.section is None {
                Some(label_text(encoding, value))
            } else {
                simple_extended(parameters.drop_last(), n)
            },
            _ => simple_extended(parameters.drop_last(), n),
        }
    }
}

/// A value as a section of a split value.
pub open spec fn segment_of(value: ValueModel) -> SegmentModel {
    match value {
        ValueModel::Regular(text) => SegmentModel::Decoded(text),
        ValueModel::Initial { encoding, language, value } => SegmentModel::Encoded(value),
        ValueModel::Other(value) => SegmentModel::Encoded(value),
    }
}

/// The numbered sections that the name `n` has, in the order in which they stand.
pub open spec fn segments_of(parameters: Seq<ParameterModel>, n: Seq<char>) -> Seq<
    (u32, SegmentModel),
>
    decreases parameters.len(),
{
    if parameters.len() == 0 {
        Seq::empty()
    } else {
        let last = parameters.last();
        match last.section {
            Some(k) => if norm(last.name) == n {
                segments_of(parameters.drop_last(), n).push((k, segment_of(last.value)))
            } else {
                segments_of(parameters.drop_last(), n)
            },
            None => segments_of(parameters.drop_last(), n),
        }
    }
}

/// The character set of the numbered sections that the name `n` has: the
/// one that the first of its sections with a character set names, if it
/// names one, and UTF-8 otherwise.
pub open spec fn composite_codec(parameters: Seq<ParameterModel>, n: Seq<char>) -> encoding_rs::Encoding
    decreases parameters.len(),
{
    if parameters.len() == 0 {
        encoding_for_label(utf8_label())->0
    } else {
        let first = parameters[0];
        match first.value {
            ValueModel::Initial { encoding, language, value } => if norm(first.name) == n
                && first.section is Some {
                match encoding {
                    Some(label) => codec_for(label),
                    None => encoding_for_label(utf8_label())->0,
                }
            } else {
                composite_codec(parameters.drop_first(), n)
            },
            _ => composite_codec(parameters.drop_first(), n),
        }
    }
}

/// The value of the name `n`. Numbered sections, put together, come before
/// an extended value without a section, and that before a regular one.
pub open spec fn param_value(parameters: Seq<ParameterModel>, n: Seq<char>) -> Option<Seq<char>> {
    if segments_of(parameters, n).len() > 0 {
        Some(reassembled(segments_of(parameters, n), composite_codec(parameters, n)))
    } else if simple_extended(parameters, n) is Some {
        simple_extended(parameters, n)
    } else {
        simple_regular(parameters, n)
    }
}

/// Whether one of the first `i` parameters has the name `n`.
pub open spec fn named_before(parameters: Seq<ParameterModel>, i: int, n: Seq<char>) -> bool {
    exists|j: int| 0 <= j < i && j < parameters.len() && norm(#[trigger] parameters[j].name) == n
}

/// The names and values of the first `i` parameters: each name once, where
/// it first stands, with its value among all parameters.
pub open spec fn decoded_upto(parameters: Seq<ParameterModel>, i: nat) -> Seq<
    (Seq<char>, Seq<char>),
>
    decreases i,
{
    if i == 0 {
        Seq::empty()
    } else {
        let n = norm(parameters[i - 1].name);
        match param_value(parameters, n) {
            Some(text) => if named_before(parameters, i - 1, n) {
                decoded_upto(parameters, (i - 1) as nat)
            } else {
                decoded_upto(parameters, (i - 1) as nat).push((n, text))
            },
            None => decoded_upto(parameters, (i - 1) as nat),
        }
    }
}

/// The parameters of a list as names and values: each name once, in lower
/// case, in the order in which the names first stand.
pub open spec fn decoded_parameters(parameters: Seq<ParameterModel>) -> Seq<
    (Seq<char>, Seq<char>),
> {
    decoded_upto(parameters, parameters.len())
}

/// Whether a list of names and values holds the name `n`.
pub open spec fn holds_name(list: Seq<(Seq<char>, Seq<char>)>, n: Seq<char>) -> bool {
    exists|e: int| 0 <= e < list.len() && (#[trigger] list[e]).0 == n
}

/// The names and values of the first `i` parameters are a mapping: no name
/// stands twice, each name is the name of one of those parameters and
/// stands with its value, and each of those parameters that has a value
/// has its name in the list.
pub proof fn lemma_decoded_upto_is_mapping(parameters: Seq<ParameterModel>, i: nat)
    requires
        i <= parameters.len(),
    ensures
        forall|a: int, b: int|
            0 <= a < b < decoded_upto(parameters, i).len() ==> (#[trigger] decoded_upto(
                parameters,
                i,
            )[a]).0 != (#[trigger] decoded_upto(parameters, i)[b]).0,
        forall|e: int|
            0 <= e < decoded_upto(parameters, i).len() ==> named_before(
                parameters,
                i as int,
                (#[trigger] decoded_upto(parameters, i)[e]).0,
            ) && param_value(parameters, decoded_upto(parameters, i)[e].0) == Some(
                decoded_upto(parameters, i)[e].1,
            ),
        forall|j: int|
            0 <= j < i && param_value(parameters, norm(parameters[j].name)) is Some
                ==> #[trigger] holds_name(decoded_upto(parameters, i), norm(parameters[j].name)),
    decreases i,
{
    if i > 0 {
        let before = decoded_upto(parameters, (i - 1) as nat);
        let list = decoded_upto(parameters, i);
        let n = norm(parameters[i - 1].name);
        lemma_decoded_upto_is_mapping(parameters, (i - 1) as nat);
        assert forall|e: int| 0 <= e < before.len() implies named_before(
            parameters,
            i as int,
            (#[trigger] before[e]).0,
        ) by {
            let j = choose|j: int|
                0 <= j < i - 1 && j < parameters.len() && norm(#[trigger] parameters[j].name)
                    == before[e].0;
            assert(norm(parameters[j].name) == before[e].0);
        }
        assert(named_before(parameters, i as int, n)) by {
            assert(norm(parameters[i - 1].name) == n);
        }
        assert forall|j: int|
            0 <= j < i && param_value(parameters, norm(parameters[j].name)) is Some implies #[trigger] holds_name(
            list,
            norm(parameters[j].name),
        ) by {
            let m = norm(parameters[j].name);
            if j < i - 1 {
                assert(holds_name(before, m));
                let e = choose|e: int| 0 <= e < before.len() && (#[trigger] before[e]).0 == m;
                assert(list[e] == before[e]);
            } else if named_before(parameters, i - 1, n) {
                let k = choose|k: int|
                    0 <= k < i - 1 && k < parameters.len() && norm(#[trigger] parameters[k].name)
                        == n;
                assert(holds_name(before, norm(parameters[k].name)));
                let e = choose|e: int| 0 <= e < before.len() && (#[trigger] before[e]).0 == m;
                assert(list[e] == before[e]);
            } else {
                assert(list[list.len() - 1].0 == m);
            }
        }
    }
}

/// The decoded parameters are a mapping from names to values.
pub proof fn lemma_decoded_parameters_are_mapping(parameters: Seq<ParameterModel>)
    ensures
        forall|a: int, b: int|
            0 <= a < b < decoded_parameters(parameters).len() ==> (#[trigger] decoded_parameters(
                parameters,
            )[a]).0 != (#[trigger] decoded_parameters(parameters)[b]).0,
        forall|e: int|
            0 <= e < decoded_parameters(parameters).len() ==> param_value(
                parameters,
                (#[trigger] decoded_parameters(parameters)[e]).0,
            ) == Some(decoded_parameters(parameters)[e].1),
        forall|j: int|
            0 <= j < parameters.len() && param_value(parameters, norm(parameters[j].name))
                is Some ==> #[trigger] holds_name(
                decoded_parameters(parameters),
                norm(parameters[j].name),
            ),
{
    lemma_decoded_upto_is_mapping(parameters, parameters.len());
}

/// The first parameters of a list weigh no more than the list.
pub proof fn lemma_weight_take(parameters: Seq<ParameterModel>, i: int)
    requires
        0 <= i <= parameters.len(),
    ensures
        weight(parameters.take(i)) <= weight(parameters),
    decreases parameters.len() - i,
{
    if i < parameters.len() {
        lemma_weight_take(parameters, i + 1);
        assert(parameters.take(i + 1).drop_last() =~= parameters.take(i));
    } else {
        assert(parameters.take(i) =~= parameters);
    }
}

/// Two names are filed together where they are equal but for the case of
/// their letters.
pub proof fn lemma_norm_eq(a: Seq<u8>, b: Seq<u8>)
    ensures
        norm(a) == norm(b) <==> a.len() == b.len() && forall|i: int|
            0 <= i < a.len() ==> lower(#[trigger] a[i]) == lower(b[i]),
{
    if norm(a) == norm(b) {
        assert(norm(a).len() == a.len() && norm(b).len() == b.len());
        assert forall|i: int| 0 <= i < a.len() implies lower(#[trigger] a[i]) == lower(b[i]) by {
            assert(norm(a)[i] == lower(a[i]) as char);
            assert(norm(b)[i] == lower(b[i]) as char);
        }
    }
    if a.len() == b.len() && forall|i: int| 0 <= i < a.len() ==> lower(#[trigger] a[i]) == lower(b[i]) {
        assert(norm(a) =~= norm(b));
    }
}

/// Whether two names are filed together.
pub fn same_name(a: &[u8], b: &[u8]) -> (r: bool)
    ensures
        r == (norm(a@) == norm(b@)),
{
    proof {
        lemma_norm_eq(a@, b@);
    }
    if a.len() != b.len() {
        return false;
    }
    let mut i: usize = 0;
    while i < a.len()
        invariant
            a.len() == b.len(),
            i <= a.len(),
            forall|j: int| 0 <= j < i ==> lower(#[trigger] a@[j]) == lower(b@[j]),
        decreases a.len() - i,
    {
        if to_lower(a[i]) != to_lower(b[i]) {
            proof {
                lemma_norm_eq(a@, b@);
            }
            return false;
        }
        i += 1;
    }
    true
}

/// Whether a parameter before the one at `i` has its name.
pub fn named_earlier(input: &Vec<Parameter>, i: usize) -> (r: bool)
    requires
        i < input.len(),
    ensures
        r == named_before(views(input@), i as int, norm(input@[i as int].name.name@)),
{
    let ghost all = views(input@);
    let ghost n = norm(input@[i as int].name.name@);
    let mut j: usize = 0;
    while j < i
        invariant
            all == views(input@),
            n == norm(input@[i as int].name.name@),
            j <= i < input.len(),
            !named_before(all, j as int, n),
        decreases i - j,
    {
        if same_name(input[j].name.name.as_slice(), input[i].name.name.as_slice()) {
            assert(norm(all[j as int].name) == n);
            return true;
        }
        j += 1;
    }
    false
}

/// The value of a name among the parameters of a list.
pub fn value_for(input: &Vec<Parameter>, name: &[u8]) -> (r: Option<String>)
    requires
        all_grammatical(views(input@)),
        decodable(weight(views(input@)) as int),
    ensures
        match r {
            Some(text) => param_value(views(input@), norm(name@)) == Some(text@),
            None => param_value(views(input@), norm(name@)) is None,
        },
{
    let ghost all = views(input@);
    let ghost n = norm(name@);
    let mut segments: Vec<(u32, Segment)> = Vec::new();
    let mut chosen: Option<&'static encoding_rs::Encoding> = None;
    let mut regular: Option<String> = None;
    let mut extended: Option<String> = None;
    let mut i: usize = 0;
    proof {
        assert(all.skip(0) =~= all);
        assert(segment_models(segments@) =~= segments_of(all.take(0), n));
    }
    while i < input.len()
        invariant
            all == views(input@),
            n == norm(name@),
            all_grammatical(all),
            decodable(weight(all) as int),
            i <= input.len(),
            segment_models(segments@) == segments_of(all.take(i as int), n),
            total(segment_models(segments@)) <= weight(all.take(i as int)),
            match chosen {
                Some(e) => composite_codec(all, n) == *e,
                None => composite_codec(all, n) == composite_codec(all.skip(i as int), n),
            },
            match regular {
                Some(text) => simple_regular(all.take(i as int), n) == Some(text@),
                None => simple_regular(all.take(i as int), n) is None,
            },
            match extended {
                Some(text) => simple_extended(all.take(i as int), n) == Some(text@),
                None => simple_extended(all.take(i as int), n) is None,
            },
        decreases input.len() - i,
    {
        let parameter = &input[i];
        proof {
            assert(all.take(i + 1).drop_last() =~= all.take(i as int));
            assert(all.take(i + 1).last() == all[i as int]);
            assert(all[i as int] == parameter@);
            assert(all.skip(i as int)[0] == all[i as int]);
            assert(all.skip(i as int).drop_first() =~= all.skip(i + 1));
            lemma_weight_take(all, i + 1);
        }
        let ghost before = segment_models(segments@);
        if same_name(parameter.name.name.as_slice(), name) {
            match parameter.name.section {
                None => {
                    match &parameter.value {
                        Value::Regular(v) => {
                            regular = Some(v.clone());
                        },
                        Value::Extended(ExtendedValue::Initial { encoding, language, value }) => {
                            let e = match encoding {
                                Some(label) => codec(label.as_slice()),
                                None => utf8(),
                            };
                            extended = Some(decode(e, value.as_slice()));
                        },
                        Value::Extended(ExtendedValue::Other(_)) => {
                            proof {
                                assert(grammatical(all[i as int]));
                                assert(false);
                            }
                        },
                    }
                },
                Some(k) => {
                    match &parameter.value {
                        Value::Regular(v) => {
                            segments.push((k, Segment::Decoded(v.clone())));
                        },
                        Value::Extended(ExtendedValue::Initial { encoding, language, value }) => {
                            if chosen.is_none() {
                                chosen = Some(
                                    match encoding {
                                        Some(label) => codec(label.as_slice()),
                                        None => utf8(),
                                    },
                                );
                            }
                            segments.push((k, Segment::Encoded(slice_to_vec(value.as_slice()))));
                        },
                        Value::Extended(ExtendedValue::Other(value)) => {
                            segments.push((k, Segment::Encoded(slice_to_vec(value.as_slice()))));
                        },
                    }
                    proof {
                        let item = (k, segment_of(parameter@.value));
                        assert(segment_models(segments@) =~= before.push(item));
                        assert(before.push(item).drop_last() =~= before);
                    }
                },
            }
        }
        i += 1;
    }
    proof {
        assert(all.take(i as int) =~= all);
        assert(all.skip(i as int) =~= Seq::<ParameterModel>::empty());
    }
    if segments.len() > 0 {
        let e = match chosen {
            Some(e) => e,
            None => utf8(),
        };
        Some(decode_segments(segments, e))
    } else if extended.is_some() {
        extended
    } else {
        regular
    }
}

/// Decodes the parameters of a list into names and values.
///
/// Each name stands once, in lower case, in the order in which the names
/// first stand in the list. A value in numbered sections is put together
/// from its sections; otherwise the last extended value decides, and
/// otherwise the last regular one.
///
/// The parameters are such as the grammar yields: names of attribute
/// characters, and no value that continues another without the number of
/// its section.
pub fn decode_parameter_list(input: Vec<Parameter>) -> (out: Vec<(String, String)>)
    requires
        all_grammatical(views(input@)),
        decodable(weight(views(input@)) as int),
    ensures
        views(out@) == decoded_parameters(views(input@)),
{
    let ghost all = views(input@);
    let mut out: Vec<(String, String)> = Vec::new();
    let mut i: usize = 0;
    assert(views(out@) =~= decoded_upto(all, 0));
    while i < input.len()
        invariant
            all == views(input@),
            all_grammatical(all),
            decodable(weight(all) as int),
            i <= input.len(),
            views(out@) == decoded_upto(all, i as nat),
        decreases input.len() - i,
    {
        let name = input[i].name.name.as_slice();
        assert(all[i as int].name == name@);
        if !named_earlier(&input, i) {
            match value_for(&input, name) {
                Some(text) => {
                    let entry = (lower_text(name, 0, name.len()), text);
                    proof {
                        assert(name@.subrange(0, name@.len() as int) =~= name@);
                        lemma_views_push(out@, entry);
                    }
                    out.push(entry);
                },
                None => {},
            }
        }
        i += 1;
    }
    out
}

} // verus!
