//! Writing an address back: the text `local@domain` of an address that was
//! read parses to that address again.

use crate::rfc5322::address::{
    addr_spec_at, angle_addr_at, display_name_at, domain_at, dot_atom_at, dot_atom_text_at,
    dot_parts_at, local_part_at, mailbox_at, name_addr_at,
};
use crate::rfc5322::lexical::{cfws_at, comment_at, comments_at, fws_at, ofws_at, skip_cfws_at};
use crate::rfc5322::policy::{
    is_strict, lemma_run_bounds, run_at, single_char_at, unit_at, utf8_non_ascii_at, TextClass,
};
use crate::types::{DomainPartModel, LocalPartModel};
use crate::util::{byte_at, crlf_at, run_end, ByteClass};
use vstd::prelude::*;
use vstd::utf8::*;

verus! {

/// Whether a character may stand in an atom: an ASCII character of atom
/// text, or, under the international policy, any character beyond ASCII.
pub open spec fn is_atext_char(intl: bool, c: char) -> bool {
    if (c as u32) < 0x80 {
        is_strict(TextClass::Atext, c as u8)
    } else {
        intl
    }
}

/// Whether a text is made of characters that may stand in an atom.
#[verifier::opaque]
pub open spec fn is_atom_text(intl: bool, t: Seq<char>) -> bool {
    forall|i: int| 0 <= i < t.len() ==> is_atext_char(intl, #[trigger] t[i])
}

/// Whether a text is made of dots and characters that may stand in an atom,
/// with no dot next to another.
#[verifier::opaque]
pub open spec fn is_dotted(intl: bool, t: Seq<char>) -> bool {
    &&& forall|i: int| 0 <= i < t.len() ==> is_atext_char(intl, #[trigger] t[i]) || t[i] == '.'
    &&& forall|i: int| 0 <= i < t.len() - 1 ==> !(#[trigger] t[i] == '.' && t[i + 1] == '.')
}

/// Whether a text is what follows the first atom of a dot-atom: nothing, or
/// a dot and an atom, once or more.
pub open spec fn is_dot_tail(intl: bool, t: Seq<char>) -> bool {
    &&& is_dotted(intl, t)
    &&& t.len() > 0 ==> t[0] == '.' && t[t.len() - 1] != '.'
}

/// Whether a text is a dot-atom: atoms with a single dot between each two.
pub open spec fn is_dot_atom_text(intl: bool, t: Seq<char>) -> bool {
    &&& is_dotted(intl, t)
    &&& t.len() > 0
    &&& t[0] != '.'
    &&& t[t.len() - 1] != '.'
}

/// Whether an atom ends before the bytes `rest`: they are none, or begin with `@`.
pub open spec fn ends_atom(rest: Seq<u8>) -> bool {
    rest.len() == 0 || rest[0] == 0x40
}

/// Whether a run of atom text ends before the bytes `rest`: they are none,
/// or begin with `@` or `.`.
pub open spec fn ends_run(rest: Seq<u8>) -> bool {
    rest.len() == 0 || rest[0] == 0x40 || rest[0] == 0x2e
}

/// Well-formed bytes that decode to one character are the encoding of that
/// character and no more.
proof fn lemma_single_scalar(w: Seq<u8>)
    requires
        valid_utf8(w),
        decode_utf8(w).len() == 1,
    ensures
        w.len() >= 1,
        valid_first_scalar(w),
        length_of_first_scalar(w) == w.len(),
        decode_utf8(w)[0] == decode_first_scalar(w) as char,
{
    reveal_with_fuel(valid_utf8, 2);
    reveal_with_fuel(decode_utf8, 2);
    if w.len() == 0 {
        assert(decode_utf8(w).len() == 0);
    } else {
        let tail = pop_first_scalar(w);
        assert(valid_utf8(tail));
        assert(decode_utf8(w) == seq![decode_first_scalar(w) as char] + decode_utf8(tail));
        if tail.len() > 0 {
            assert(decode_utf8(tail).len() >= 1);
        }
    }
}

/// Where some bytes at a position are one character, no longer stretch of
/// bytes at that position is.
proof fn lemma_longer_window_fails(s: Seq<u8>, pos: int, n: int, m: int)
    requires
        single_char_at(s, pos, n) is Some,
        1 <= n < m,
    ensures
        single_char_at(s, pos, m) is None,
{
    if single_char_at(s, pos, m) is Some {
        let short = s.subrange(pos, pos + n);
        let long = s.subrange(pos, pos + m);
        lemma_single_scalar(short);
        lemma_single_scalar(long);
        assert(short[0] == long[0]);
    }
}

/// No character of two or more bytes begins with an ASCII byte.
proof fn lemma_ascii_is_no_wide_char(s: Seq<u8>, pos: int)
    requires
        0 <= pos < s.len() ==> s[pos] < 0x80,
    ensures
        utf8_non_ascii_at(s, pos) is None,
{
    if single_char_at(s, pos, 4) is Some {
        lemma_single_scalar(s.subrange(pos, pos + 4));
    }
    if single_char_at(s, pos, 3) is Some {
        lemma_single_scalar(s.subrange(pos, pos + 3));
    }
    if single_char_at(s, pos, 2) is Some {
        lemma_single_scalar(s.subrange(pos, pos + 2));
    }
}

/// No unit of atom text stands where an atom ends.
proof fn lemma_no_unit(intl: bool, s: Seq<u8>)
    requires
        ends_run(s),
    ensures
        unit_at(intl, TextClass::Atext, s, 0) is None,
{
    lemma_ascii_is_no_wide_char(s, 0);
}

/// The encoding of a character that may stand in an atom is read as one
/// unit of atom text, whatever follows it.
proof fn lemma_unit_of_char(intl: bool, c: char, rest: Seq<u8>)
    requires
        is_atext_char(intl, c),
    ensures
        unit_at(intl, TextClass::Atext, encode_scalar(c as u32) + rest, 0) == Some(
            (encode_scalar(c as u32).len() as int, c),
        ),
        1 <= encode_scalar(c as u32).len() <= 4,
        (encode_scalar(c as u32) + rest)[0] != 0x20 && (encode_scalar(c as u32) + rest)[0] != 0x09
            && (encode_scalar(c as u32) + rest)[0] != 0x0d && (encode_scalar(c as u32)
            + rest)[0] != 0x28,
{
    broadcast use encode_utf8_valid_utf8, encode_utf8_decode_utf8;

    let v = c as u32;
    let code = encode_scalar(v);
    let s = code + rest;
    char_is_scalar(c);
    if v < 0x80 {
        assert(v as u8 == leading_byte_width_1(v)) by (bit_vector)
            requires
                has_width_1_encoding(v),
        ;
        assert(s[0] == c as u8);
        assert((c as u8) as char == c);
    } else {
        let one = seq![c];
        assert(encode_utf8(one.drop_first()) =~= Seq::<u8>::empty()) by {
            reveal_with_fuel(encode_utf8, 2);
        }
        assert(encode_utf8(one) =~= code) by {
            reveal_with_fuel(encode_utf8, 2);
        }
        encode_utf8_first_scalar(one);
        let n = code.len() as int;
        assert(2 <= n <= 4);
        assert(s.subrange(0, n) =~= code);
        assert(decode_utf8(code) == one);
        assert(single_char_at(s, 0, n) == Some((n, c)));
        if n < 4 {
            lemma_longer_window_fails(s, 0, n, 4);
        }
        if n < 3 {
            lemma_longer_window_fails(s, 0, n, 3);
        }
        assert(length_of_first_scalar(code) == n);
        assert(s[0] == code[0]);
        assert(s[0] >= 0x80);
    }
}

/// The character of a unit of atom text may stand in an atom.
proof fn lemma_unit_is_atext(intl: bool, s: Seq<u8>, pos: int)
    ensures
        unit_at(intl, TextClass::Atext, s, pos) matches Some((_, c)) ==> is_atext_char(intl, c),
{
    if unit_at(intl, TextClass::Atext, s, pos) is Some {
        if 0 <= pos < s.len() && is_strict(TextClass::Atext, s[pos]) {
            let c = s[pos] as char;
            assert(c as u32 == s[pos]);
            assert(c as u8 == s[pos]);
        } else {
            let (q, c) = utf8_non_ascii_at(s, pos)->0;
            let n = q - pos;
            let w = s.subrange(pos, pos + n);
            assert(single_char_at(s, pos, n) == Some((q, c)));
            lemma_single_scalar(w);
            decode_utf8_first_scalar(w);
            assert(take_first_scalar(w) =~= w);
            assert(encode_scalar(c as u32).len() >= 2);
        }
    }
}

/// What stands at a position is what stands at the start of the input from
/// that position on.
proof fn lemma_unit_shift(intl: bool, s: Seq<u8>, pos: int)
    requires
        0 <= pos <= s.len(),
    ensures
        unit_at(intl, TextClass::Atext, s, pos) == match unit_at(
            intl,
            TextClass::Atext,
            s.skip(pos),
            0,
        ) {
            Some((q, c)) => Some((q + pos, c)),
            None => None,
        },
{
    let u = s.skip(pos);
    assert(forall|n: int| 0 <= n && pos + n <= s.len() ==> #[trigger] u.subrange(0, n) =~= s.subrange(
        pos,
        pos + n,
    ));
    if pos < s.len() {
        assert(u[0] == s[pos]);
    }
    assert(u.subrange(0, 4) =~= s.subrange(pos, pos + 4) || pos + 4 > s.len());
    assert(u.subrange(0, 3) =~= s.subrange(pos, pos + 3) || pos + 3 > s.len());
    assert(u.subrange(0, 2) =~= s.subrange(pos, pos + 2) || pos + 2 > s.len());
}

/// A run at a position is the run at the start of the input from that
/// position on.
proof fn lemma_run_shift(intl: bool, s: Seq<u8>, pos: int)
    requires
        0 <= pos <= s.len(),
    ensures
        run_at(intl, TextClass::Atext, s, pos) == (
            run_at(intl, TextClass::Atext, s.skip(pos), 0).0 + pos,
            run_at(intl, TextClass::Atext, s.skip(pos), 0).1,
        ),
    decreases s.len() - pos,
{
    let u = s.skip(pos);
    lemma_unit_shift(intl, s, pos);
    match unit_at(intl, TextClass::Atext, s, pos) {
        Some((p, c)) => {
            if pos < p <= s.len() {
                lemma_run_shift(intl, s, p);
                lemma_run_shift(intl, u, p - pos);
                assert(u.skip(p - pos) =~= s.skip(p));
            }
        },
        None => {},
    }
}

/// The dots and atoms at a position are those at the start of the input
/// from that position on.
proof fn lemma_dot_parts_shift(intl: bool, s: Seq<u8>, pos: int)
    requires
        0 <= pos <= s.len(),
    ensures
        dot_parts_at(intl, s, pos) == (
            dot_parts_at(intl, s.skip(pos), 0).0 + pos,
            dot_parts_at(intl, s.skip(pos), 0).1,
        ),
    decreases s.len() - pos,
{
    let u = s.skip(pos);
    if byte_at(s, pos, 0x2e) {
        assert(u[0] == s[pos]);
        lemma_run_shift(intl, s, pos + 1);
        lemma_run_shift(intl, u, 1);
        assert(u.skip(1) =~= s.skip(pos + 1));
        let end = run_at(intl, TextClass::Atext, s, pos + 1).0;
        if pos + 1 < end <= s.len() {
            lemma_dot_parts_shift(intl, s, end);
            lemma_dot_parts_shift(intl, u, end - pos);
            assert(u.skip(end - pos) =~= s.skip(end));
        }
    } else {
        if pos < s.len() {
            assert(u[0] == s[pos]);
        }
    }
}

/// Neither comments nor folding white space stand at the end of the input,
/// nor at a byte that is no blank, no carriage return and no `(`.
proof fn lemma_no_cfws(intl: bool, s: Seq<u8>, pos: int)
    requires
        0 <= pos <= s.len(),
        pos < s.len() ==> s[pos] != 0x20 && s[pos] != 0x09 && s[pos] != 0x0d && s[pos] != 0x28,
    ensures
        skip_cfws_at(intl, s, pos) == pos,
{
    assert(run_end(ByteClass::Wsp, s, pos) == pos);
    assert(!crlf_at(s, pos));
    assert(fws_at(s, pos) is None);
    assert(ofws_at(s, pos).0 == pos);
    assert(comment_at(intl, s, pos) is None);
    assert(comments_at(intl, s, pos) == (pos, false));
    assert(cfws_at(intl, s, pos) is None);
}

/// The dot-atom at a position is the one at the start of the input from
/// that position on.
proof fn lemma_dot_atom_text_shift(intl: bool, s: Seq<u8>, pos: int)
    requires
        0 <= pos <= s.len(),
    ensures
        dot_atom_text_at(intl, s, pos) == match dot_atom_text_at(intl, s.skip(pos), 0) {
            Some((q, t)) => Some((q + pos, t)),
            None => None,
        },
{
    let u = s.skip(pos);
    lemma_run_shift(intl, s, pos);
    lemma_run_bounds(intl, TextClass::Atext, s, pos);
    let end = run_at(intl, TextClass::Atext, s, pos).0;
    if end > pos {
        lemma_dot_parts_shift(intl, s, end);
        lemma_dot_parts_shift(intl, u, end - pos);
        assert(u.skip(end - pos) =~= s.skip(end));
    }
}

/// How many characters from `i` on may stand in an atom.
pub open spec fn atom_len(intl: bool, t: Seq<char>, i: int) -> int
    decreases t.len() - i,
{
    if 0 <= i < t.len() && is_atext_char(intl, t[i]) {
        1 + atom_len(intl, t, i + 1)
    } else {
        0
    }
}

/// The characters counted may stand in an atom, and the next may not.
proof fn lemma_atom_len(intl: bool, t: Seq<char>, i: int)
    requires
        0 <= i <= t.len(),
    ensures
        0 <= atom_len(intl, t, i) <= t.len() - i,
        forall|j: int| i <= j < i + atom_len(intl, t, i) ==> is_atext_char(intl, #[trigger] t[j]),
        i + atom_len(intl, t, i) < t.len() ==> !is_atext_char(intl, t[i + atom_len(intl, t, i)]),
    decreases t.len() - i,
{
    if i < t.len() && is_atext_char(intl, t[i]) {
        lemma_atom_len(intl, t, i + 1);
    }
}

/// The encoding of two texts, one after the other, is the encoding of the
/// first followed by that of the second.
pub proof fn lemma_encode_concat(a: Seq<char>, b: Seq<char>)
    ensures
        encode_utf8(a + b) == encode_utf8(a) + encode_utf8(b),
    decreases a.len(),
{
    if a.len() == 0 {
        assert(a + b =~= b);
        assert(encode_utf8(a) + encode_utf8(b) =~= encode_utf8(b));
    } else {
        assert((a + b).drop_first() =~= a.drop_first() + b);
        lemma_encode_concat(a.drop_first(), b);
        assert(encode_scalar(a[0] as u32) + (encode_utf8(a.drop_first()) + encode_utf8(b))
            =~= (encode_scalar(a[0] as u32) + encode_utf8(a.drop_first())) + encode_utf8(b));
    }
}

/// The encodings of `.` and `@` are the bytes of the same number.
proof fn lemma_encode_dot()
    ensures
        encode_utf8(seq!['.']) == seq![0x2eu8],
        encode_utf8(seq!['@']) == seq![0x40u8],
{
    reveal_with_fuel(encode_utf8, 2);
    assert(leading_byte_width_1(0x2eu32) == 0x2eu8) by (bit_vector);
    assert(leading_byte_width_1(0x40u32) == 0x40u8) by (bit_vector);
    assert(seq!['.'].drop_first() =~= Seq::<char>::empty());
    assert(seq!['@'].drop_first() =~= Seq::<char>::empty());
    assert(encode_utf8(seq!['.']) =~= seq![0x2eu8]);
    assert(encode_utf8(seq!['@']) =~= seq![0x40u8]);
}

/// The encoding of atom text is read as a run of atom text that ends where
/// the encoding ends.
proof fn lemma_run_of_text(intl: bool, a: Seq<char>, rest: Seq<u8>)
    requires
        is_atom_text(intl, a),
        ends_run(rest),
    ensures
        run_at(intl, TextClass::Atext, encode_utf8(a) + rest, 0) == (
            encode_utf8(a).len() as int,
            a,
        ),
        a.len() > 0 ==> encode_utf8(a).len() > 0 && (encode_utf8(a) + rest)[0] != 0x20 && (
        encode_utf8(a) + rest)[0] != 0x09 && (encode_utf8(a) + rest)[0] != 0x0d && (encode_utf8(a)
            + rest)[0] != 0x28,
    decreases a.len(),
{
    let s = encode_utf8(a) + rest;
    if a.len() == 0 {
        assert(s =~= rest);
        lemma_no_unit(intl, s);
        assert(a =~= Seq::<char>::empty());
    } else {
        let c = a[0];
        let more = a.drop_first();
        let code = encode_scalar(c as u32);
        let after = encode_utf8(more) + rest;
        assert(s =~= code + after);
        assert(is_atext_char(intl, c) && is_atom_text(intl, more)) by {
            reveal(is_atom_text);
            assert forall|i: int| 0 <= i < more.len() implies is_atext_char(
                intl,
                #[trigger] more[i],
            ) by {
                assert(more[i] == a[i + 1]);
            }
        }
        lemma_unit_of_char(intl, c, after);
        let n = code.len() as int;
        lemma_run_shift(intl, s, n);
        assert(s.skip(n) =~= after);
        lemma_run_of_text(intl, more, rest);
        assert(seq![c] + more =~= a);
    }
}

/// What follows the first atom of a dot-atom, if it is anything, is a dot,
/// an atom, and what follows an atom again.
proof fn lemma_tail_split(intl: bool, u: Seq<char>)
    requires
        is_dot_tail(intl, u),
        u.len() > 0,
    ensures
        atom_len(intl, u.skip(1), 0) >= 1,
        atom_len(intl, u.skip(1), 0) <= u.len() - 1,
        is_atom_text(intl, u.skip(1).take(atom_len(intl, u.skip(1), 0))),
        is_dot_tail(intl, u.skip(1).skip(atom_len(intl, u.skip(1), 0))),
        u == seq!['.'] + u.skip(1).take(atom_len(intl, u.skip(1), 0)) + u.skip(1).skip(
            atom_len(intl, u.skip(1), 0),
        ),
{
    reveal(is_atom_text);
    reveal(is_dotted);
    let v = u.skip(1);
    assert(u.len() >= 2);
    assert(u[0] == '.' && u[1] != '.');
    assert(v[0] == u[1]);
    lemma_atom_len(intl, v, 0);
    let k = atom_len(intl, v, 0);
    let next = v.skip(k);
    assert forall|i: int| 0 <= i < next.len() implies is_atext_char(intl, #[trigger] next[i])
        || next[i] == '.' by {
        assert(next[i] == u[i + k + 1]);
    }
    assert forall|i: int| 0 <= i < next.len() - 1 implies !(#[trigger] next[i] == '.' && next[i
        + 1] == '.') by {
        assert(next[i] == u[i + k + 1]);
        assert(next[i + 1] == u[i + k + 2]);
    }
    if next.len() > 0 {
        assert(next[0] == v[k]);
        assert(v[k] == u[k + 1]);
        assert(next[next.len() - 1] == u[u.len() - 1]);
    }
    assert(u =~= seq!['.'] + v.take(k) + next);
}

/// The encoding of a dot, an atom and more is the byte of the dot, the
/// encoding of the atom and the encoding of the rest.
proof fn lemma_encode_dot_atom(atom: Seq<char>, next: Seq<char>)
    ensures
        encode_utf8(seq!['.'] + atom + next) == seq![0x2eu8] + (encode_utf8(atom) + encode_utf8(
            next,
        )),
        next.len() > 0 && next[0] == '.' ==> encode_utf8(next).len() > 0 && encode_utf8(next)[0]
            == 0x2e,
{
    lemma_encode_dot();
    assert(seq!['.'] + atom + next =~= seq!['.'] + (atom + next));
    lemma_encode_concat(seq!['.'], atom + next);
    lemma_encode_concat(atom, next);
    if next.len() > 0 && next[0] == '.' {
        assert(next =~= seq!['.'] + next.drop_first());
        lemma_encode_concat(seq!['.'], next.drop_first());
    }
}

/// A dot, a run of atom text and the dots and atoms after it are read as
/// the dots and atoms that follow the first atom of a dot-atom.
proof fn lemma_dot_parts_join(
    intl: bool,
    code: Seq<u8>,
    atom: Seq<char>,
    after: Seq<u8>,
    next: Seq<char>,
    n: int,
)
    requires
        code.len() > 0,
        run_at(intl, TextClass::Atext, code + after, 0) == (code.len() as int, atom),
        dot_parts_at(intl, after, 0) == (n, next),
    ensures
        dot_parts_at(intl, seq![0x2eu8] + (code + after), 0) == (
            1 + code.len() + n,
            seq!['.'] + atom + next,
        ),
{
    let s = seq![0x2eu8] + (code + after);
    let end = 1 + code.len() as int;
    assert(byte_at(s, 0, 0x2e));
    lemma_run_shift(intl, s, 1);
    assert(s.skip(1) =~= code + after);
    assert(run_at(intl, TextClass::Atext, s, 1) == (end, atom));
    lemma_dot_parts_shift(intl, s, end);
    assert(s.skip(end) =~= after);
}

/// The encoding of dots and atoms is read as the dots and atoms that
/// follow the first atom of a dot-atom.
proof fn lemma_dot_parts_of_text(intl: bool, u: Seq<char>, rest: Seq<u8>)
    requires
        is_dot_tail(intl, u),
        ends_atom(rest),
    ensures
        dot_parts_at(intl, encode_utf8(u) + rest, 0) == (encode_utf8(u).len() as int, u),
        u.len() > 0 ==> encode_utf8(u).len() > 0 && encode_utf8(u)[0] == 0x2e,
    decreases u.len(),
{
    let s = encode_utf8(u) + rest;
    if u.len() == 0 {
        assert(s =~= rest);
        assert(u =~= Seq::<char>::empty());
    } else {
        lemma_tail_split(intl, u);
        let k = atom_len(intl, u.skip(1), 0);
        let atom = u.skip(1).take(k);
        let next = u.skip(1).skip(k);
        lemma_encode_dot_atom(atom, next);
        let code = encode_utf8(atom);
        let after = encode_utf8(next) + rest;
        assert(s =~= seq![0x2eu8] + (code + after));
        lemma_dot_parts_of_text(intl, next, rest);
        assert(ends_run(after)) by {
            if next.len() > 0 {
                assert(after[0] == encode_utf8(next)[0]);
            } else {
                assert(after =~= rest);
            }
        }
        lemma_run_of_text(intl, atom, after);
        assert(code.len() > 0) by {
            reveal(is_atom_text);
        }
        lemma_dot_parts_join(intl, code, atom, after, next, encode_utf8(next).len() as int);
    }
}

/// A dot-atom is an atom and what follows an atom.
proof fn lemma_head_split(intl: bool, t: Seq<char>)
    requires
        is_dot_atom_text(intl, t),
    ensures
        1 <= atom_len(intl, t, 0) <= t.len(),
        is_atom_text(intl, t.take(atom_len(intl, t, 0))),
        is_dot_tail(intl, t.skip(atom_len(intl, t, 0))),
        t == t.take(atom_len(intl, t, 0)) + t.skip(atom_len(intl, t, 0)),
{
    reveal(is_atom_text);
    reveal(is_dotted);
    lemma_atom_len(intl, t, 0);
    let k = atom_len(intl, t, 0);
    let next = t.skip(k);
    assert forall|i: int| 0 <= i < next.len() implies is_atext_char(intl, #[trigger] next[i])
        || next[i] == '.' by {
        assert(next[i] == t[i + k]);
    }
    assert forall|i: int| 0 <= i < next.len() - 1 implies !(#[trigger] next[i] == '.' && next[i
        + 1] == '.') by {
        assert(next[i] == t[i + k]);
        assert(next[i + 1] == t[i + k + 1]);
    }
    if next.len() > 0 {
        assert(next[0] == t[k]);
        assert(next[next.len() - 1] == t[t.len() - 1]);
    }
    assert(t =~= t.take(k) + next);
}

/// The encoding of a dot-atom is read as that dot-atom.
proof fn lemma_dot_atom_of_text(intl: bool, t: Seq<char>, rest: Seq<u8>)
    requires
        is_dot_atom_text(intl, t),
        ends_atom(rest),
    ensures
        dot_atom_text_at(intl, encode_utf8(t) + rest, 0) == Some(
            (encode_utf8(t).len() as int, t),
        ),
        encode_utf8(t).len() > 0,
        (encode_utf8(t) + rest)[0] != 0x20 && (encode_utf8(t) + rest)[0] != 0x09 && (encode_utf8(t)
            + rest)[0] != 0x0d && (encode_utf8(t) + rest)[0] != 0x28,
{
    let s = encode_utf8(t) + rest;
    lemma_head_split(intl, t);
    let k = atom_len(intl, t, 0);
    let atom = t.take(k);
    let next = t.skip(k);
    lemma_encode_concat(atom, next);
    let after = encode_utf8(next) + rest;
    assert(s =~= encode_utf8(atom) + after);
    lemma_dot_parts_of_text(intl, next, rest);
    assert(ends_run(after)) by {
        if next.len() > 0 {
            assert(after[0] == encode_utf8(next)[0]);
        } else {
            assert(after =~= rest);
        }
    }
    lemma_run_of_text(intl, atom, after);
    let end = encode_utf8(atom).len() as int;
    lemma_dot_parts_shift(intl, s, end);
    assert(s.skip(end) =~= after);
}

/// The text of a run of atom text is atom text.
proof fn lemma_run_is_atom_text(intl: bool, s: Seq<u8>, pos: int)
    ensures
        is_atom_text(intl, run_at(intl, TextClass::Atext, s, pos).1),
        run_at(intl, TextClass::Atext, s, pos).0 > pos ==> run_at(
            intl,
            TextClass::Atext,
            s,
            pos,
        ).1.len() > 0,
    decreases s.len() - pos,
{
    reveal(is_atom_text);
    lemma_unit_is_atext(intl, s, pos);
    match unit_at(intl, TextClass::Atext, s, pos) {
        Some((p, c)) => {
            if pos < p <= s.len() {
                lemma_run_is_atom_text(intl, s, p);
                let more = run_at(intl, TextClass::Atext, s, p).1;
                let text = seq![c] + more;
                assert forall|i: int| 0 <= i < text.len() implies is_atext_char(
                    intl,
                    #[trigger] text[i],
                ) by {
                    if i > 0 {
                        assert(text[i] == more[i - 1]);
                    }
                }
            }
        },
        None => {},
    }
}

/// What is read after the first atom of a dot-atom is a dot and an atom,
/// once or more, or nothing.
proof fn lemma_dot_parts_sound(intl: bool, s: Seq<u8>, pos: int)
    ensures
        is_dot_tail(intl, dot_parts_at(intl, s, pos).1),
    decreases s.len() - pos,
{
    reveal(is_atom_text);
    reveal(is_dotted);
    if byte_at(s, pos, 0x2e) {
        let (end, atom) = run_at(intl, TextClass::Atext, s, pos + 1);
        if pos + 1 < end <= s.len() {
            lemma_run_is_atom_text(intl, s, pos + 1);
            lemma_dot_parts_sound(intl, s, end);
            let more = dot_parts_at(intl, s, end).1;
            let text = seq!['.'] + atom + more;
            let n = atom.len() as int;
            assert(n > 0);
            assert(!is_atext_char(intl, '.'));
            assert forall|i: int| 0 <= i < text.len() implies is_atext_char(
                intl,
                #[trigger] text[i],
            ) || text[i] == '.' by {
                if 1 <= i <= n {
                    assert(text[i] == atom[i - 1]);
                } else if i > n {
                    assert(text[i] == more[i - n - 1]);
                }
            }
            assert forall|i: int| 0 <= i < text.len() - 1 implies !(#[trigger] text[i] == '.'
                && text[i + 1] == '.') by {
                if i == 0 {
                    assert(text[1] == atom[0]);
                } else if i <= n {
                    assert(text[i] == atom[i - 1]);
                } else {
                    assert(text[i] == more[i - n - 1]);
                    assert(text[i + 1] == more[i - n]);
                }
            }
            if more.len() > 0 {
                assert(text[text.len() - 1] == more[more.len() - 1]);
            } else {
                assert(text[text.len() - 1] == atom[n - 1]);
            }
        }
    }
}

/// What is read as a dot-atom is atoms with a single dot between each two.
pub proof fn lemma_dot_atom_text_sound(intl: bool, s: Seq<u8>, pos: int)
    ensures
        dot_atom_text_at(intl, s, pos) matches Some((_, t)) ==> is_dot_atom_text(intl, t),
{
    reveal(is_atom_text);
    reveal(is_dotted);
    lemma_run_is_atom_text(intl, s, pos);
    let (end, atom) = run_at(intl, TextClass::Atext, s, pos);
    if end > pos {
        lemma_dot_parts_sound(intl, s, end);
        let more = dot_parts_at(intl, s, end).1;
        let text = atom + more;
        let n = atom.len() as int;
        assert(!is_atext_char(intl, '.'));
        assert forall|i: int| 0 <= i < text.len() implies is_atext_char(intl, #[trigger] text[i])
            || text[i] == '.' by {
            if i < n {
                assert(text[i] == atom[i]);
            } else {
                assert(text[i] == more[i - n]);
            }
        }
        assert forall|i: int| 0 <= i < text.len() - 1 implies !(#[trigger] text[i] == '.'
            && text[i + 1] == '.') by {
            if i < n {
                assert(text[i] == atom[i]);
            } else {
                assert(text[i] == more[i - n]);
                assert(text[i + 1] == more[i + 1 - n]);
            }
        }
        assert(text[0] == atom[0]);
        if more.len() > 0 {
            assert(text[text.len() - 1] == more[more.len() - 1]);
        } else {
            assert(text[text.len() - 1] == atom[n - 1]);
        }
    }
}

/// The bytes of `local@domain`, in UTF-8.
pub open spec fn addr_spec_bytes(local: Seq<char>, domain: Seq<char>) -> Seq<u8> {
    encode_utf8(local + seq!['@'] + domain)
}

/// The text `local@domain` of two dot-atoms is an address with that local
/// part and that domain, and with nothing left over.
pub proof fn lemma_dot_atoms_parse(intl: bool, local: Seq<char>, domain: Seq<char>)
    requires
        is_dot_atom_text(intl, local),
        is_dot_atom_text(intl, domain),
    ensures
        addr_spec_at(intl, addr_spec_bytes(local, domain), 0) == Some(
            (
                addr_spec_bytes(local, domain).len() as int,
                (LocalPartModel::DotAtom(local), DomainPartModel::Domain(domain)),
            ),
        ),
{
    let text = addr_spec_bytes(local, domain);
    let l = encode_utf8(local);
    let d = encode_utf8(domain);
    lemma_encode_dot();
    lemma_encode_concat(local + seq!['@'], domain);
    lemma_encode_concat(local, seq!['@']);
    let rest = seq![0x40u8] + d;
    assert(text =~= l + rest);
    lemma_dot_atom_of_text(intl, local, rest);
    let at = l.len() as int;
    lemma_no_cfws(intl, text, 0);
    assert(text[at] == 0x40);
    lemma_no_cfws(intl, text, at);
    assert(dot_atom_at(intl, text, 0) == Some((at, local)));
    assert(local_part_at(intl, text, 0) == Some((at, LocalPartModel::DotAtom(local))));
    let none = Seq::<u8>::empty();
    lemma_dot_atom_of_text(intl, domain, none);
    assert(text.skip(at + 1) =~= d + none);
    lemma_dot_atom_text_shift(intl, text, at + 1);
    assert(text[at + 1] == (d + none)[0]);
    lemma_no_cfws(intl, text, at + 1);
    lemma_no_cfws(intl, text, text.len() as int);
    assert(dot_atom_at(intl, text, at + 1) == Some((text.len() as int, domain)));
    assert(domain_at(intl, text, at + 1) == Some(
        (text.len() as int, DomainPartModel::Domain(domain)),
    ));
}

/// An address that was read, with a dot-atom for its local part and a
/// dot-atom for its domain, is read again from its text `local@domain`:
/// whatever comments and white space the input held, the text holds the
/// same local part and the same domain and nothing else.
pub proof fn lemma_addr_spec_round_trip(intl: bool, s: Seq<u8>, pos: int)
    requires
        addr_spec_at(intl, s, pos) matches Some((_, (local, domain))) && local is DotAtom
            && domain is Domain,
    ensures
        addr_spec_at(intl, s, pos) matches Some((_, (local, domain))) && ({
            let text = addr_spec_bytes(local->DotAtom_0, domain->Domain_0);
            addr_spec_at(intl, text, 0) == Some((text.len() as int, (local, domain)))
        }),
{
    let (end, (local, domain)) = addr_spec_at(intl, s, pos)->0;
    let (at, _) = local_part_at(intl, s, pos)->0;
    lemma_dot_atom_text_sound(intl, s, skip_cfws_at(intl, s, pos));
    assert(dot_atom_at(intl, s, pos) is Some);
    assert(byte_at(s, at, 0x40));
    lemma_dot_atom_text_sound(intl, s, skip_cfws_at(intl, s, at + 1));
    assert(dot_atom_at(intl, s, at + 1) is Some);
    lemma_dot_atoms_parse(intl, local->DotAtom_0, domain->Domain_0);
}

/// The address of a mailbox that was read, with or without a display name
/// and angle brackets, is read again from its text `local@domain`, where
/// its local part and its domain are dot-atoms.
pub proof fn lemma_mailbox_round_trip(intl: bool, s: Seq<u8>, pos: int)
    requires
        mailbox_at(intl, s, pos) matches Some((_, m)) && m.address.0 is DotAtom
            && m.address.1 is Domain,
    ensures
        mailbox_at(intl, s, pos) matches Some((_, m)) && ({
            let text = addr_spec_bytes(m.address.0->DotAtom_0, m.address.1->Domain_0);
            addr_spec_at(intl, text, 0) == Some((text.len() as int, m.address))
        }),
{
    reveal(mailbox_at);
    match name_addr_at(intl, s, pos) {
        Some(_) => {
            let start = match display_name_at(intl, s, pos) {
                Some((p, _)) => p,
                None => pos,
            };
            let open = skip_cfws_at(intl, s, start);
            assert(angle_addr_at(intl, s, start) is Some);
            lemma_addr_spec_round_trip(intl, s, open + 1);
        },
        None => {
            lemma_addr_spec_round_trip(intl, s, pos);
        },
    }
}

} // verus!
