//! The order in which the sections of a value stand in a header does not
//! matter: the parameters come to the same names and values.

use crate::codec::{codec_for, encoding_for_label, utf8_label};
use crate::rfc2231::grammar::{ParameterModel, ValueModel};
use crate::rfc2231::parameters::{
    composite_codec, decoded_parameters, decoded_upto, named_before, norm, param_value,
    segment_of, segments_of, simple_extended, simple_regular,
};
use crate::rfc2231::reassembly::{
    distinct_sections, lemma_reassembly_ignores_order, SegmentModel,
};
use vstd::prelude::*;

verus! {

/// Whether a parameter is a numbered section of the value of the name `n`.
pub open spec fn is_section_of(x: ParameterModel, n: Seq<char>) -> bool {
    x.section is Some && norm(x.name) == n
}

/// Whether a parameter is numbered as the grammar numbers it: a value that
/// names a character set stands alone or is the section 0, and a value that
/// continues one has a number from 1 on.
pub open spec fn well_numbered(x: ParameterModel) -> bool {
    match x.value {
        ValueModel::Regular(_) => true,
        ValueModel::Initial { encoding, language, value } => x.section is None || x.section
            == Some(0u32),
        ValueModel::Other(_) => x.section is Some && x.section->0 >= 1,
    }
}

/// Whether the sections of the name `n` have distinct numbers.
pub open spec fn distinct_numbers(p: Seq<ParameterModel>, n: Seq<char>) -> bool {
    forall|j: int, k: int|
        0 <= j < p.len() && 0 <= k < p.len() && j != k && is_section_of(#[trigger] p[j], n)
            && is_section_of(#[trigger] p[k], n) ==> p[j].section != p[k].section
}

/// Whether a list holds the parameter `x` as a section of the name `n`.
pub open spec fn holds_section(p: Seq<ParameterModel>, n: Seq<char>, x: ParameterModel) -> bool {
    exists|k: int| 0 <= k < p.len() && #[trigger] p[k] == x && is_section_of(x, n)
}

/// Whether `q` is `p` with the sections of the name `n` in another order:
/// the sections stand at the same places, they are the same sections, and
/// every other parameter stands where it stood.
pub open spec fn reordered(p: Seq<ParameterModel>, q: Seq<ParameterModel>, n: Seq<char>) -> bool {
    &&& p.len() == q.len()
    &&& forall|k: int|
        0 <= k < p.len() ==> (is_section_of(#[trigger] p[k], n) <==> is_section_of(q[k], n))
    &&& forall|k: int| 0 <= k < p.len() && !is_section_of(#[trigger] p[k], n) ==> p[k] == q[k]
    &&& forall|x: ParameterModel| holds_section(p, n, x) <==> holds_section(q, n, x)
}

/// A parameter as a numbered section.
pub open spec fn section_of(x: ParameterModel) -> (u32, SegmentModel) {
    (x.section->0, segment_of(x.value))
}

/// Whether `e` is a parameter of the list, as a section of the name `n`.
pub open spec fn stems(p: Seq<ParameterModel>, n: Seq<char>, e: (u32, SegmentModel)) -> bool {
    exists|j: int| 0 <= j < p.len() && is_section_of(#[trigger] p[j], n) && e == section_of(p[j])
}

/// Whether `e` and `f` are two parameters of the list, `e` before `f`, as
/// sections of the name `n`.
pub open spec fn stem_in_order(
    p: Seq<ParameterModel>,
    n: Seq<char>,
    e: (u32, SegmentModel),
    f: (u32, SegmentModel),
) -> bool {
    exists|j: int, k: int|
        0 <= j < k < p.len() && is_section_of(#[trigger] p[j], n) && is_section_of(
            #[trigger] p[k],
            n,
        ) && e == section_of(p[j]) && f == section_of(p[k])
}

/// The sections of a name are the parameters that are sections of it, in
/// the order in which they stand.
proof fn lemma_segments_stem(p: Seq<ParameterModel>, n: Seq<char>)
    ensures
        forall|a: int|
            0 <= a < segments_of(p, n).len() ==> stems(p, n, #[trigger] segments_of(p, n)[a]),
        forall|a: int, b: int|
            0 <= a < b < segments_of(p, n).len() ==> stem_in_order(
                p,
                n,
                #[trigger] segments_of(p, n)[a],
                #[trigger] segments_of(p, n)[b],
            ),
        forall|j: int|
            0 <= j < p.len() && is_section_of(#[trigger] p[j], n) ==> segments_of(p, n).contains(
                section_of(p[j]),
            ),
    decreases p.len(),
{
    if p.len() > 0 {
        let front = p.drop_last();
        let last = p.last();
        let all = segments_of(p, n);
        let before = segments_of(front, n);
        lemma_segments_stem(front, n);
        assert forall|a: int| 0 <= a < all.len() implies stems(p, n, #[trigger] all[a]) by {
            if a < before.len() {
                assert(stems(front, n, before[a]));
                let j = choose|j: int|
                    0 <= j < front.len() && is_section_of(#[trigger] front[j], n) && before[a]
                        == section_of(front[j]);
                assert(p[j] == front[j]);
            } else {
                assert(p[p.len() - 1] == last);
            }
        }
        assert forall|a: int, b: int| 0 <= a < b < all.len() implies stem_in_order(
            p,
            n,
            #[trigger] all[a],
            #[trigger] all[b],
        ) by {
            if b < before.len() {
                assert(stem_in_order(front, n, before[a], before[b]));
                let (j, k) = choose|j: int, k: int|
                    0 <= j < k < front.len() && is_section_of(#[trigger] front[j], n)
                        && is_section_of(#[trigger] front[k], n) && before[a] == section_of(
                        front[j],
                    ) && before[b] == section_of(front[k]);
                assert(p[j] == front[j] && p[k] == front[k]);
            } else {
                assert(stems(front, n, before[a]));
                let j = choose|j: int|
                    0 <= j < front.len() && is_section_of(#[trigger] front[j], n) && before[a]
                        == section_of(front[j]);
                assert(p[j] == front[j]);
                assert(p[p.len() - 1] == last);
            }
        }
        assert forall|j: int| 0 <= j < p.len() && is_section_of(#[trigger] p[j], n) implies all.contains(
            section_of(p[j]),
        ) by {
            if j < front.len() {
                assert(front[j] == p[j]);
                let a = choose|a: int| 0 <= a < before.len() && before[a] == section_of(p[j]);
                assert(all[a] == before[a]);
            } else {
                assert(all[all.len() - 1] == section_of(p[j]));
            }
        }
    }
}

/// Whether a parameter is a section of the name `n` that names a character set.
pub open spec fn is_initial_of(x: ParameterModel, n: Seq<char>) -> bool {
    is_section_of(x, n) && x.value is Initial
}

/// The character set that a section names, or UTF-8.
pub open spec fn codec_of(x: ParameterModel) -> encoding_rs::Encoding {
    match x.value->Initial_encoding {
        Some(label) => codec_for(label),
        None => encoding_for_label(utf8_label())->0,
    }
}

/// The character set of the sections of a name is that of the section that
/// names one, where one does, and UTF-8 where none does.
proof fn lemma_codec_of_the_initial(p: Seq<ParameterModel>, n: Seq<char>)
    requires
        forall|j: int, k: int|
            0 <= j < p.len() && 0 <= k < p.len() && is_initial_of(#[trigger] p[j], n)
                && is_initial_of(#[trigger] p[k], n) ==> p[j] == p[k],
    ensures
        forall|k: int|
            0 <= k < p.len() && is_initial_of(#[trigger] p[k], n) ==> composite_codec(p, n)
                == codec_of(p[k]),
        (forall|k: int| 0 <= k < p.len() ==> !is_initial_of(#[trigger] p[k], n))
            ==> composite_codec(p, n) == encoding_for_label(utf8_label())->0,
    decreases p.len(),
{
    if p.len() > 0 {
        let rest = p.drop_first();
        assert forall|j: int, k: int|
            0 <= j < rest.len() && 0 <= k < rest.len() && is_initial_of(#[trigger] rest[j], n)
                && is_initial_of(#[trigger] rest[k], n) implies rest[j] == rest[k] by {
            assert(rest[j] == p[j + 1] && rest[k] == p[k + 1]);
        }
        lemma_codec_of_the_initial(rest, n);
        assert forall|k: int| 0 <= k < p.len() && is_initial_of(#[trigger] p[k], n) implies composite_codec(
            p,
            n,
        ) == codec_of(p[k]) by {
            if is_initial_of(p[0], n) {
                assert(p[0] == p[k]);
            } else {
                assert(k > 0);
                assert(rest[k - 1] == p[k]);
            }
        }
        if forall|k: int| 0 <= k < p.len() ==> !is_initial_of(#[trigger] p[k], n) {
            assert(!is_initial_of(p[0], n));
            assert forall|k: int| 0 <= k < rest.len() implies !is_initial_of(
                #[trigger] rest[k],
                n,
            ) by {
                assert(rest[k] == p[k + 1]);
            }
        }
    }
}

/// Lists that differ only in sections have the same values without a section.
proof fn lemma_same_simple(p: Seq<ParameterModel>, q: Seq<ParameterModel>, m: Seq<char>)
    requires
        p.len() == q.len(),
        forall|k: int|
            0 <= k < p.len() ==> #[trigger] p[k] == q[k] || (p[k].section is Some
                && q[k].section is Some),
    ensures
        simple_regular(p, m) == simple_regular(q, m),
        simple_extended(p, m) == simple_extended(q, m),
    decreases p.len(),
{
    if p.len() > 0 {
        let pf = p.drop_last();
        let qf = q.drop_last();
        assert forall|k: int| 0 <= k < pf.len() implies #[trigger] pf[k] == qf[k] || (
        pf[k].section is Some && qf[k].section is Some) by {
            assert(pf[k] == p[k] && qf[k] == q[k]);
        }
        lemma_same_simple(pf, qf, m);
        assert(p[p.len() - 1] == q[q.len() - 1] || (p[p.len() - 1].section is Some && q[q.len()
            - 1].section is Some));
    }
}

/// Lists that differ only in the sections of another name have the same
/// sections of the name `m`.
proof fn lemma_same_sections(p: Seq<ParameterModel>, q: Seq<ParameterModel>, m: Seq<char>)
    requires
        p.len() == q.len(),
        forall|k: int|
            0 <= k < p.len() ==> #[trigger] p[k] == q[k] || (!is_section_of(p[k], m)
                && !is_section_of(q[k], m)),
    ensures
        segments_of(p, m) == segments_of(q, m),
        composite_codec(p, m) == composite_codec(q, m),
    decreases p.len(),
{
    if p.len() > 0 {
        let pf = p.drop_last();
        let qf = q.drop_last();
        assert forall|k: int| 0 <= k < pf.len() implies #[trigger] pf[k] == qf[k] || (
        !is_section_of(pf[k], m) && !is_section_of(qf[k], m)) by {
            assert(pf[k] == p[k] && qf[k] == q[k]);
        }
        lemma_same_sections(pf, qf, m);
        assert(p[p.len() - 1] == q[q.len() - 1] || (!is_section_of(p[p.len() - 1], m)
            && !is_section_of(q[q.len() - 1], m)));
        lemma_same_codec(p, q, m);
    }
}

/// Lists that differ only in the sections of another name have the same
/// character set for the sections of the name `m`.
proof fn lemma_same_codec(p: Seq<ParameterModel>, q: Seq<ParameterModel>, m: Seq<char>)
    requires
        p.len() == q.len(),
        forall|k: int|
            0 <= k < p.len() ==> #[trigger] p[k] == q[k] || (!is_section_of(p[k], m)
                && !is_section_of(q[k], m)),
    ensures
        composite_codec(p, m) == composite_codec(q, m),
    decreases p.len(),
{
    if p.len() > 0 {
        let pr = p.drop_first();
        let qr = q.drop_first();
        assert forall|k: int| 0 <= k < pr.len() implies #[trigger] pr[k] == qr[k] || (
        !is_section_of(pr[k], m) && !is_section_of(qr[k], m)) by {
            assert(pr[k] == p[k + 1] && qr[k] == q[k + 1]);
        }
        lemma_same_codec(pr, qr, m);
        assert(p[0] == q[0] || (!is_section_of(p[0], m) && !is_section_of(q[0], m)));
    }
}

/// The sections of a name with distinct numbers are distinct sections.
proof fn lemma_distinct(p: Seq<ParameterModel>, n: Seq<char>)
    requires
        distinct_numbers(p, n),
    ensures
        distinct_sections(segments_of(p, n)),
{
    lemma_segments_stem(p, n);
    let all = segments_of(p, n);
    assert forall|a: int, b: int|
        0 <= a < all.len() && 0 <= b < all.len() && a != b implies all[a].0 != all[b].0 by {
        let (lo, hi) = if a < b {
            (a, b)
        } else {
            (b, a)
        };
        assert(stem_in_order(p, n, all[lo], all[hi]));
        let (j, k) = choose|j: int, k: int|
            0 <= j < k < p.len() && is_section_of(#[trigger] p[j], n) && is_section_of(
                #[trigger] p[k],
                n,
            ) && all[lo] == section_of(p[j]) && all[hi] == section_of(p[k]);
        assert(p[j].section != p[k].section);
    }
}

/// The value of the name `n` does not depend on the order of its sections.
proof fn lemma_value_ignores_order(p: Seq<ParameterModel>, q: Seq<ParameterModel>, n: Seq<char>)
    requires
        reordered(p, q, n),
        distinct_numbers(p, n),
        distinct_numbers(q, n),
        forall|k: int| 0 <= k < p.len() ==> well_numbered(#[trigger] p[k]),
    ensures
        param_value(p, n) == param_value(q, n),
{
    let a = segments_of(p, n);
    let b = segments_of(q, n);
    lemma_segments_stem(p, n);
    lemma_segments_stem(q, n);
    lemma_distinct(p, n);
    lemma_distinct(q, n);
    assert forall|e: (u32, SegmentModel)| a.contains(e) implies b.contains(e) by {
        let i = choose|i: int| 0 <= i < a.len() && a[i] == e;
        assert(stems(p, n, a[i]));
        let j = choose|j: int|
            0 <= j < p.len() && is_section_of(#[trigger] p[j], n) && a[i] == section_of(p[j]);
        assert(holds_section(p, n, p[j]));
        let k = choose|k: int| 0 <= k < q.len() && #[trigger] q[k] == p[j] && is_section_of(p[j], n);
        assert(is_section_of(q[k], n));
    }
    assert forall|e: (u32, SegmentModel)| b.contains(e) implies a.contains(e) by {
        let i = choose|i: int| 0 <= i < b.len() && b[i] == e;
        assert(stems(q, n, b[i]));
        let j = choose|j: int|
            0 <= j < q.len() && is_section_of(#[trigger] q[j], n) && b[i] == section_of(q[j]);
        assert(holds_section(q, n, q[j]));
        let k = choose|k: int| 0 <= k < p.len() && #[trigger] p[k] == q[j] && is_section_of(q[j], n);
        assert(is_section_of(p[k], n));
    }
    if a.len() > 0 {
        assert(a.contains(a[0]));
        assert(b.len() > 0);
    }
    if b.len() > 0 {
        assert(b.contains(b[0]));
        assert(a.len() > 0);
    }
    assert forall|k: int| 0 <= k < p.len() implies #[trigger] p[k] == q[k] || (
    p[k].section is Some && q[k].section is Some) by {
        if is_section_of(p[k], n) {
            assert(is_section_of(q[k], n));
        }
    }
    lemma_same_simple(p, q, n);
    // Every section of `n` that names a character set is the section 0.
    assert forall|k: int| 0 <= k < q.len() implies well_numbered(#[trigger] q[k]) by {
        if is_section_of(p[k], n) {
            assert(is_section_of(q[k], n));
            assert(holds_section(q, n, q[k]));
            let j = choose|j: int| 0 <= j < p.len() && #[trigger] p[j] == q[k] && is_section_of(q[k], n);
            assert(well_numbered(p[j]));
        } else {
            assert(p[k] == q[k]);
        }
    }
    assert forall|j: int, k: int|
        0 <= j < p.len() && 0 <= k < p.len() && is_initial_of(#[trigger] p[j], n) && is_initial_of(
            #[trigger] p[k],
            n,
        ) implies p[j] == p[k] by {
        assert(well_numbered(p[j]) && well_numbered(p[k]));
        if j != k {
            assert(p[j].section != p[k].section);
        }
    }
    assert forall|j: int, k: int|
        0 <= j < q.len() && 0 <= k < q.len() && is_initial_of(#[trigger] q[j], n) && is_initial_of(
            #[trigger] q[k],
            n,
        ) implies q[j] == q[k] by {
        assert(well_numbered(q[j]) && well_numbered(q[k]));
        if j != k {
            assert(q[j].section != q[k].section);
        }
    }
    lemma_codec_of_the_initial(p, n);
    lemma_codec_of_the_initial(q, n);
    assert(composite_codec(p, n) == composite_codec(q, n)) by {
        if exists|k: int| 0 <= k < p.len() && is_initial_of(#[trigger] p[k], n) {
            let k = choose|k: int| 0 <= k < p.len() && is_initial_of(#[trigger] p[k], n);
            assert(holds_section(p, n, p[k]));
            let j = choose|j: int| 0 <= j < q.len() && #[trigger] q[j] == p[k] && is_section_of(p[k], n);
            assert(is_initial_of(q[j], n));
        } else {
            assert forall|k: int| 0 <= k < q.len() implies !is_initial_of(#[trigger] q[k], n) by {
                if is_initial_of(q[k], n) {
                    assert(holds_section(q, n, q[k]));
                    let j = choose|j: int|
                        0 <= j < p.len() && #[trigger] p[j] == q[k] && is_section_of(q[k], n);
                    assert(is_initial_of(p[j], n));
                }
            }
        }
    }
    lemma_reassembly_ignores_order(a, b, composite_codec(p, n));
}

/// The names and values that parameters come to do not depend on the order
/// in which the numbered sections of a value stand: where the sections of
/// the name `n` have distinct numbers, a list with these sections in
/// another order comes to the same names and values.
pub proof fn lemma_parameters_ignore_section_order(
    p: Seq<ParameterModel>,
    q: Seq<ParameterModel>,
    n: Seq<char>,
)
    requires
        reordered(p, q, n),
        distinct_numbers(p, n),
        distinct_numbers(q, n),
        forall|k: int| 0 <= k < p.len() ==> well_numbered(#[trigger] p[k]),
    ensures
        forall|m: Seq<char>| param_value(p, m) == param_value(q, m),
        decoded_parameters(p) == decoded_parameters(q),
{
    assert forall|k: int| 0 <= k < p.len() implies norm(#[trigger] p[k].name) == norm(
        q[k].name,
    ) by {
        if is_section_of(p[k], n) {
            assert(is_section_of(q[k], n));
        }
    }
    assert forall|m: Seq<char>| param_value(p, m) == param_value(q, m) by {
        if m == n {
            lemma_value_ignores_order(p, q, n);
        } else {
            assert forall|k: int| 0 <= k < p.len() implies #[trigger] p[k] == q[k] || (
            !is_section_of(p[k], m) && !is_section_of(q[k], m)) by {
                if is_section_of(p[k], n) {
                    assert(is_section_of(q[k], n));
                }
            }
            assert forall|k: int| 0 <= k < p.len() implies #[trigger] p[k] == q[k] || (
            p[k].section is Some && q[k].section is Some) by {
                if is_section_of(p[k], n) {
                    assert(is_section_of(q[k], n));
                }
            }
            lemma_same_simple(p, q, m);
            lemma_same_sections(p, q, m);
        }
    }
    lemma_same_upto(p, q, p.len());
}

/// Lists with the same names at the same places and the same value for
/// each name come to the same names and values.
proof fn lemma_same_upto(p: Seq<ParameterModel>, q: Seq<ParameterModel>, i: nat)
    requires
        p.len() == q.len(),
        i <= p.len(),
        forall|k: int| 0 <= k < p.len() ==> norm(#[trigger] p[k].name) == norm(q[k].name),
        forall|m: Seq<char>| param_value(p, m) == param_value(q, m),
    ensures
        decoded_upto(p, i) == decoded_upto(q, i),
    decreases i,
{
    if i > 0 {
        lemma_same_upto(p, q, (i - 1) as nat);
        let n = norm(p[i - 1].name);
        assert(norm(q[i - 1].name) == n);
        if named_before(p, i - 1, n) {
            let j = choose|j: int|
                0 <= j < i - 1 && j < p.len() && norm(#[trigger] p[j].name) == n;
            assert(norm(q[j].name) == n);
        }
        if named_before(q, i - 1, n) {
            let j = choose|j: int|
                0 <= j < i - 1 && j < q.len() && norm(#[trigger] q[j].name) == n;
            assert(norm(p[j].name) == n);
        }
    }
}

} // verus!
