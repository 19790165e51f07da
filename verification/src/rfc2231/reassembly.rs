//! Values that are split into numbered sections: putting them together.

use crate::codec::{decodable, decode, text_in};
use vstd::prelude::*;
use vstd::string::*;

verus! {

/// One section of a value: bytes that are still to be decoded, or text.
#[derive(Debug)]
pub enum Segment {
    Encoded(Vec<u8>),
    Decoded(String),
}

/// The value of a [`Segment`].
pub enum SegmentModel {
    Encoded(Seq<u8>),
    Decoded(Seq<char>),
}

impl View for Segment {
    type V = SegmentModel;

    open spec fn view(&self) -> SegmentModel {
        match self {
            Segment::Encoded(bytes) => SegmentModel::Encoded(bytes@),
            Segment::Decoded(text) => SegmentModel::Decoded(text@),
        }
    }
}

/// Numbered sections as values.
pub open spec fn segment_models(segments: Seq<(u32, Segment)>) -> Seq<(u32, SegmentModel)> {
    Seq::new(segments.len(), |i: int| (segments[i].0, segments[i].1@))
}

/// The sections with the number `k`, in the order in which they stand.
pub open spec fn with_section(segments: Seq<(u32, SegmentModel)>, k: int) -> Seq<
    (u32, SegmentModel),
>
    decreases segments.len(),
{
    if segments.len() == 0 {
        Seq::empty()
    } else if segments.last().0 == k {
        with_section(segments.drop_last(), k).push(segments.last())
    } else {
        with_section(segments.drop_last(), k)
    }
}

/// The sections with a number below `k`, in the order in which they stand.
pub open spec fn below(segments: Seq<(u32, SegmentModel)>, k: int) -> Seq<(u32, SegmentModel)>
    decreases segments.len(),
{
    if segments.len() == 0 {
        Seq::empty()
    } else if segments.last().0 < k {
        below(segments.drop_last(), k).push(segments.last())
    } else {
        below(segments.drop_last(), k)
    }
}

/// The sections with a number below `bound`, ordered by number. Sections
/// with the same number keep the order in which they stand.
pub open spec fn by_section(segments: Seq<(u32, SegmentModel)>, bound: nat) -> Seq<
    (u32, SegmentModel),
>
    decreases bound,
{
    if bound == 0 {
        Seq::empty()
    } else {
        by_section(segments, (bound - 1) as nat) + with_section(segments, bound - 1)
    }
}

/// All sections, ordered by number.
pub open spec fn in_order(segments: Seq<(u32, SegmentModel)>) -> Seq<(u32, SegmentModel)> {
    by_section(segments, 0x1_0000_0000)
}

/// Whether the numbers of the sections never fall.
pub open spec fn ascending(segments: Seq<(u32, SegmentModel)>) -> bool {
    forall|i: int, j: int| 0 <= i <= j < segments.len() ==> segments[i].0 <= segments[j].0
}

/// Whether no two sections have the same number.
pub open spec fn distinct_sections(segments: Seq<(u32, SegmentModel)>) -> bool {
    forall|i: int, j: int|
        0 <= i < segments.len() && 0 <= j < segments.len() && i != j ==> segments[i].0
            != segments[j].0
}

/// The text of sections read in the order given, `buffer` holding the bytes
/// gathered before them. Bytes of neighbouring sections are decoded in one
/// piece: where text interrupts them, and at the end. Where no bytes were
/// gathered, nothing is added.
pub open spec fn clumped(
    segments: Seq<(u32, SegmentModel)>,
    codec: encoding_rs::Encoding,
    buffer: Seq<u8>,
) -> Seq<char>
    decreases segments.len(),
{
    if segments.len() == 0 {
        text_in(codec, buffer)
    } else {
        match segments[0].1 {
            SegmentModel::Encoded(bytes) => clumped(segments.drop_first(), codec, buffer + bytes),
            SegmentModel::Decoded(text) => text_in(codec, buffer) + text + clumped(
                segments.drop_first(),
                codec,
                Seq::empty(),
            ),
        }
    }
}

/// The value that sections come to: they are ordered by number, whatever
/// the order in which they were given, and read in that order.
pub open spec fn reassembled(segments: Seq<(u32, SegmentModel)>, codec: encoding_rs::Encoding) -> Seq<
    char,
> {
    clumped(in_order(segments), codec, Seq::empty())
}

/// How many bytes of a section are still to be decoded.
pub open spec fn encoded_len(segment: SegmentModel) -> nat {
    match segment {
        SegmentModel::Encoded(bytes) => bytes.len(),
        SegmentModel::Decoded(_) => 0,
    }
}

/// How many bytes of the sections are still to be decoded.
pub open spec fn total(segments: Seq<(u32, SegmentModel)>) -> nat
    decreases segments.len(),
{
    if segments.len() == 0 {
        0
    } else {
        total(segments.drop_last()) + encoded_len(segments.last().1)
    }
}

/// The bytes still to decode of two sequences add up.
pub proof fn lemma_total_add(a: Seq<(u32, SegmentModel)>, b: Seq<(u32, SegmentModel)>)
    ensures
        total(a + b) == total(a) + total(b),
    decreases b.len(),
{
    if b.len() == 0 {
        assert(a + b =~= a);
    } else {
        assert((a + b).drop_last() =~= a + b.drop_last());
        lemma_total_add(a, b.drop_last());
    }
}

/// Where no section has the number `k`, none is selected.
pub proof fn lemma_no_section(segments: Seq<(u32, SegmentModel)>, k: int)
    requires
        forall|i: int| 0 <= i < segments.len() ==> segments[i].0 != k,
    ensures
        with_section(segments, k) == Seq::<(u32, SegmentModel)>::empty(),
    decreases segments.len(),
{
    if segments.len() > 0 {
        lemma_no_section(segments.drop_last(), k);
    }
}

/// Where every number is below `k`, every section is selected.
pub proof fn lemma_below_all(segments: Seq<(u32, SegmentModel)>, k: int)
    requires
        forall|i: int| 0 <= i < segments.len() ==> segments[i].0 < k,
    ensures
        below(segments, k) == segments,
    decreases segments.len(),
{
    if segments.len() > 0 {
        lemma_below_all(segments.drop_last(), k);
        assert(segments.drop_last().push(segments.last()) =~= segments);
    }
}

/// In ascending sections, those with the number `k` follow those below `k`.
pub proof fn lemma_below_step(segments: Seq<(u32, SegmentModel)>, k: int)
    requires
        ascending(segments),
    ensures
        below(segments, k + 1) == below(segments, k) + with_section(segments, k),
    decreases segments.len(),
{
    if segments.len() == 0 {
        assert(below(segments, k) + with_section(segments, k) =~= Seq::empty());
    } else {
        let front = segments.drop_last();
        let x = segments.last();
        assert(ascending(front)) by {
            assert forall|i: int, j: int| 0 <= i <= j < front.len() implies front[i].0
                <= front[j].0 by {
                assert(front[i] == segments[i] && front[j] == segments[j]);
            }
        }
        lemma_below_step(front, k);
        if x.0 < k {
            assert forall|i: int| 0 <= i < front.len() implies front[i].0 != k by {
                assert(front[i] == segments[i]);
                assert(segments[i].0 <= segments[segments.len() - 1].0);
            }
            lemma_no_section(front, k);
            assert((below(front, k) + with_section(front, k)).push(x) =~= below(front, k).push(x)
                + with_section(front, k));
        } else if x.0 == k {
            assert((below(front, k) + with_section(front, k)).push(x) =~= below(front, k)
                + with_section(front, k).push(x));
        }
    }
}

/// Ascending sections are in order as they stand.
pub proof fn lemma_by_section_ascending(segments: Seq<(u32, SegmentModel)>, bound: nat)
    requires
        ascending(segments),
    ensures
        by_section(segments, bound) == below(segments, bound as int),
    decreases bound,
{
    if bound == 0 {
        lemma_below_none(segments);
    } else {
        lemma_by_section_ascending(segments, (bound - 1) as nat);
        lemma_below_step(segments, bound - 1);
    }
}

/// No section has a number below 0.
pub proof fn lemma_below_none(segments: Seq<(u32, SegmentModel)>)
    ensures
        below(segments, 0) == Seq::<(u32, SegmentModel)>::empty(),
    decreases segments.len(),
{
    if segments.len() > 0 {
        lemma_below_none(segments.drop_last());
    }
}

/// The order by number depends on nothing but the sections of each number.
pub proof fn lemma_by_section_same(
    a: Seq<(u32, SegmentModel)>,
    b: Seq<(u32, SegmentModel)>,
    bound: nat,
)
    requires
        forall|k: int| #[trigger] with_section(a, k) == with_section(b, k),
    ensures
        by_section(a, bound) == by_section(b, bound),
    decreases bound,
{
    if bound > 0 {
        lemma_by_section_same(a, b, (bound - 1) as nat);
    }
}

/// The sections below `k + 1` hold the bytes of those below `k` and of
/// those with the number `k`.
pub proof fn lemma_below_step_total(segments: Seq<(u32, SegmentModel)>, k: int)
    ensures
        total(below(segments, k + 1)) == total(below(segments, k)) + total(
            with_section(segments, k),
        ),
    decreases segments.len(),
{
    if segments.len() > 0 {
        let front = segments.drop_last();
        let x = segments.last();
        lemma_below_step_total(front, k);
        if x.0 < k {
            assert(below(front, k + 1).push(x).drop_last() =~= below(front, k + 1));
            assert(below(front, k).push(x).drop_last() =~= below(front, k));
        } else if x.0 == k {
            assert(below(front, k + 1).push(x).drop_last() =~= below(front, k + 1));
            assert(with_section(front, k).push(x).drop_last() =~= with_section(front, k));
        }
    }
}

/// Ordering sections leaves as many bytes to decode as there were.
pub proof fn lemma_in_order_total(segments: Seq<(u32, SegmentModel)>)
    ensures
        total(in_order(segments)) == total(segments),
{
    lemma_by_section_total(segments, 0x1_0000_0000);
    lemma_below_all(segments, 0x1_0000_0000);
}

/// The sections ordered by number below `bound` hold the bytes of the
/// sections with a number below `bound`.
pub proof fn lemma_by_section_total(segments: Seq<(u32, SegmentModel)>, bound: nat)
    ensures
        total(by_section(segments, bound)) == total(below(segments, bound as int)),
    decreases bound,
{
    if bound == 0 {
        lemma_below_none(segments);
    } else {
        lemma_by_section_total(segments, (bound - 1) as nat);
        lemma_below_step_total(segments, bound - 1);
        lemma_total_add(by_section(segments, (bound - 1) as nat), with_section(segments, bound - 1));
    }
}

/// Ascending sections that hold, for each number, the sections that
/// `segments` holds for it are `segments` in order.
pub proof fn lemma_sorted_is_in_order(
    sorted: Seq<(u32, SegmentModel)>,
    segments: Seq<(u32, SegmentModel)>,
)
    requires
        ascending(sorted),
        forall|k: int| #[trigger] with_section(sorted, k) == with_section(segments, k),
    ensures
        sorted == in_order(segments),
{
    lemma_by_section_same(sorted, segments, 0x1_0000_0000);
    lemma_by_section_ascending(sorted, 0x1_0000_0000);
    lemma_below_all(sorted, 0x1_0000_0000);
}

/// Sections whose numbers never fall are in order as they stand.
pub proof fn lemma_ascending_is_in_order(segments: Seq<(u32, SegmentModel)>)
    requires
        ascending(segments),
    ensures
        in_order(segments) == segments,
{
    lemma_sorted_is_in_order(segments, segments);
}

/// The texts of sections, one after another.
pub open spec fn texts(segments: Seq<(u32, SegmentModel)>) -> Seq<char>
    decreases segments.len(),
{
    if segments.len() == 0 {
        Seq::empty()
    } else {
        (match segments[0].1 {
            SegmentModel::Decoded(text) => text,
            SegmentModel::Encoded(_) => Seq::empty(),
        }) + texts(segments.drop_first())
    }
}

/// Sections that are all text come to their texts, one after another,
/// whatever the character set.
pub proof fn lemma_text_sections(segments: Seq<(u32, SegmentModel)>, codec: encoding_rs::Encoding)
    requires
        forall|i: int| 0 <= i < segments.len() ==> (#[trigger] segments[i]).1 is Decoded,
    ensures
        clumped(segments, codec, Seq::empty()) == texts(segments),
    decreases segments.len(),
{
    if segments.len() > 0 {
        let rest = segments.drop_first();
        assert forall|i: int| 0 <= i < rest.len() implies (#[trigger] rest[i]).1 is Decoded by {
            assert(rest[i] == segments[i + 1]);
        }
        lemma_text_sections(rest, codec);
        let text = segments[0].1->Decoded_0;
        assert(Seq::<char>::empty() + text + texts(rest) =~= text + texts(rest));
    }
}

/// Among sections with distinct numbers, the one with the number `k`
/// stands alone.
pub proof fn lemma_single_section(segments: Seq<(u32, SegmentModel)>, i: int)
    requires
        distinct_sections(segments),
        0 <= i < segments.len(),
    ensures
        with_section(segments, segments[i].0 as int) == seq![segments[i]],
    decreases segments.len(),
{
    let k = segments[i].0 as int;
    let front = segments.drop_last();
    assert(distinct_sections(front)) by {
        assert forall|a: int, b: int|
            0 <= a < front.len() && 0 <= b < front.len() && a != b implies front[a].0
            != front[b].0 by {
            assert(front[a] == segments[a] && front[b] == segments[b]);
        }
    }
    if i == segments.len() - 1 {
        assert forall|j: int| 0 <= j < front.len() implies front[j].0 != k by {
            assert(front[j] == segments[j]);
        }
        lemma_no_section(front, k);
        assert(Seq::<(u32, SegmentModel)>::empty().push(segments[i]) =~= seq![segments[i]]);
    } else {
        assert(front[i] == segments[i]);
        lemma_single_section(front, i);
    }
}

/// The value that sections come to does not depend on the order in which
/// they are given: two sequences that hold the same sections, each number
/// once, come to the same value.
pub proof fn lemma_reassembly_ignores_order(
    a: Seq<(u32, SegmentModel)>,
    b: Seq<(u32, SegmentModel)>,
    codec: encoding_rs::Encoding,
)
    requires
        distinct_sections(a),
        distinct_sections(b),
        forall|e: (u32, SegmentModel)| a.contains(e) <==> b.contains(e),
    ensures
        in_order(a) == in_order(b),
        reassembled(a, codec) == reassembled(b, codec),
{
    assert forall|k: int| #[trigger] with_section(a, k) == with_section(b, k) by {
        if exists|i: int| 0 <= i < a.len() && a[i].0 == k {
            let i = choose|i: int| 0 <= i < a.len() && a[i].0 == k;
            assert(a.contains(a[i]));
            let j = choose|j: int| 0 <= j < b.len() && b[j] == a[i];
            lemma_single_section(a, i);
            lemma_single_section(b, j);
        } else {
            lemma_no_section(a, k);
            assert forall|j: int| 0 <= j < b.len() implies b[j].0 != k by {
                assert(b.contains(b[j]));
                let i = choose|i: int| 0 <= i < a.len() && a[i] == b[j];
            }
            lemma_no_section(b, k);
        }
    }
    lemma_by_section_same(a, b, 0x1_0000_0000);
}

/// Two sections of text, numbered 0 and 1, come to the text of the first
/// followed by that of the second, in whichever order they are given and
/// whatever the character set.
pub proof fn lemma_two_text_sections(first: Seq<char>, second: Seq<char>, codec: encoding_rs::Encoding)
    ensures
        reassembled(
            seq![(0u32, SegmentModel::Decoded(first)), (1u32, SegmentModel::Decoded(second))],
            codec,
        ) == first + second,
        reassembled(
            seq![(1u32, SegmentModel::Decoded(second)), (0u32, SegmentModel::Decoded(first))],
            codec,
        ) == first + second,
{
    let a = seq![(0u32, SegmentModel::Decoded(first)), (1u32, SegmentModel::Decoded(second))];
    let b = seq![(1u32, SegmentModel::Decoded(second)), (0u32, SegmentModel::Decoded(first))];
    lemma_ascending_is_in_order(a);
    lemma_text_sections(a, codec);
    reveal_with_fuel(texts, 3);
    assert(a.drop_first().drop_first() =~= Seq::<(u32, SegmentModel)>::empty());
    assert(texts(a) =~= first + second);
    assert forall|e: (u32, SegmentModel)| a.contains(e) <==> b.contains(e) by {
        if a.contains(e) {
            assert(b[1] == a[0] && b[0] == a[1]);
        }
        if b.contains(e) {
            assert(a[1] == b[0] && a[0] == b[1]);
        }
    }
    lemma_reassembly_ignores_order(a, b, codec);
}

/// `sort_by_key` of `std`, by the number of the section. The contract
/// claims that the numbers then never fall, and that the sections of each
/// number are those that were there, in the order in which they stood.
#[verifier::external_body]
pub(crate) fn sort_by_section(segments: &mut Vec<(u32, Segment)>)
    ensures
        ascending(segment_models(final(segments)@)),
        forall|k: int| #[trigger]
            with_section(segment_models(final(segments)@), k) == with_section(
                segment_models(old(segments)@),
                k,
            ),
{
    segments.sort_by_key(|segment| segment.0)
}

/// Puts the sections of a value together: ordered by number, bytes of
/// neighbouring sections decoded in one piece with `encoding`.
pub fn decode_segments(input: Vec<(u32, Segment)>, encoding: &'static encoding_rs::Encoding) -> (out:
    String)
    requires
        decodable(total(segment_models(input@)) as int),
    ensures
        out@ == reassembled(segment_models(input@), *encoding),
{
    let ghost given = segment_models(input@);
    let mut input = input;
    sort_by_section(&mut input);
    let ghost all = segment_models(input@);
    proof {
        lemma_sorted_is_in_order(all, given);
        lemma_in_order_total(given);
        assert(all.skip(0) =~= all);
    }
    let mut out = String::new();
    let mut encoded: Vec<u8> = Vec::new();
    let mut i: usize = 0;
    while i < input.len()
        invariant
            all == segment_models(input@),
            decodable(total(all) as int),
            i <= input.len(),
            encoded@.len() + total(all.skip(i as int)) <= total(all),
            clumped(all, *encoding, Seq::empty()) == out@ + clumped(
                all.skip(i as int),
                *encoding,
                encoded@,
            ),
        decreases input.len() - i,
    {
        let ghost before = out@;
        let ghost buffer = encoded@;
        let ghost rest = clumped(all.skip(i + 1), *encoding, Seq::empty());
        proof {
            let first = seq![all[i as int]];
            assert(all.skip(i as int) =~= first + all.skip(i + 1));
            assert(all.skip(i as int)[0] == all[i as int]);
            assert(all.skip(i as int).drop_first() =~= all.skip(i + 1));
            lemma_total_add(first, all.skip(i + 1));
            assert(first.drop_last() =~= Seq::<(u32, SegmentModel)>::empty());
            assert(total(first.drop_last()) == 0);
            assert(all[i as int].1 == input@[i as int].1@);
        }
        match &input[i].1 {
            Segment::Encoded(bytes) => {
                encoded.extend_from_slice(bytes.as_slice());
                assert(all[i as int].1 == SegmentModel::Encoded(bytes@));
                assert(encoded@ == buffer + bytes@);
                assert(clumped(all.skip(i as int), *encoding, buffer) == clumped(
                    all.skip(i + 1),
                    *encoding,
                    encoded@,
                ));
            },
            Segment::Decoded(s) => {
                let text = decode(encoding, encoded.as_slice());
                out.append(text.as_str());
                out.append(s.as_str());
                encoded.clear();
                proof {
                    assert(clumped(all.skip(i as int), *encoding, buffer) == text@ + s@ + rest);
                    assert(before + (text@ + s@ + rest) =~= (before + text@ + s@) + rest);
                }
            },
        }
        i += 1;
    }
    let text = decode(encoding, encoded.as_slice());
    out.append(text.as_str());
    out
}

} // verus!
