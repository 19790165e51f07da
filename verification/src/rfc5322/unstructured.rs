//! Unstructured header bodies, such as that of `Subject:`.

use crate::rfc2047::{encoded_word_at, encoded_word_from, word_text};
use crate::rfc5322::lexical::{fws, fws_at, ofws, ofws_at};
use crate::rfc5322::policy::{unit, unit_at, TextClass, Utf8Policy, _8bit_char};
use crate::util::{
    agrees, agrees_rest, parsable, push_char, push_text, rest, run_end, scan, text_of, ByteClass,
    REPLACEMENT,
};
use vstd::prelude::*;
use vstd::string::*;

verus! {

/// The encoded words that follow the first of a run, each after folding
/// white space, which is dropped.
pub open spec fn more_words_at(s: Seq<u8>, pos: int) -> (int, Seq<char>)
    decreases s.len() - pos,
{
    match fws_at(s, pos) {
        Some((p, _)) => match encoded_word_at(s, p) {
            Some((q, word)) => if pos < q <= s.len() {
                let (end, rest) = more_words_at(s, q);
                (end, word_text(word) + rest)
            } else {
                (pos, Seq::empty())
            },
            None => (pos, Seq::empty()),
        },
        None => (pos, Seq::empty()),
    }
}

/// A run of encoded words at `pos`, as the texts of the words one after
/// another.
pub open spec fn word_run_at(s: Seq<u8>, pos: int) -> Option<(int, Seq<char>)> {
    match encoded_word_at(s, pos) {
        Some((p, word)) => {
            let (end, rest) = more_words_at(s, p);
            Some((end, word_text(word) + rest))
        },
        None => None,
    }
}

/// One unit of plain text at `pos`: a visible character, or a byte above 127
/// that is part of none and stands for U+FFFD.
pub open spec fn plain_unit_at(intl: bool, s: Seq<u8>, pos: int) -> Option<(int, char)> {
    if unit_at(intl, TextClass::Vchar, s, pos) is Some {
        unit_at(intl, TextClass::Vchar, s, pos)
    } else if 0 <= pos < s.len() && s[pos] >= 0x80 {
        Some((pos + 1, REPLACEMENT))
    } else {
        None
    }
}

/// The longest run of plain text from `pos`.
pub open spec fn plain_run_at(intl: bool, s: Seq<u8>, pos: int) -> (int, Seq<char>)
    decreases s.len() - pos,
{
    match plain_unit_at(intl, s, pos) {
        Some((p, c)) => if pos < p <= s.len() {
            let (end, rest) = plain_run_at(intl, s, p);
            (end, seq![c] + rest)
        } else {
            (pos, Seq::empty())
        },
        None => (pos, Seq::empty()),
    }
}

/// One token at `pos` with the folding white space before it: a run of
/// encoded words, else a run of plain text.
pub open spec fn token_at(intl: bool, s: Seq<u8>, pos: int) -> Option<(int, Seq<char>)> {
    let (p, blank) = ofws_at(s, pos);
    match word_run_at(s, p) {
        Some((q, text)) => Some((q, blank + text)),
        None => {
            let (q, text) = plain_run_at(intl, s, p);
            if q > p {
                Some((q, blank + text))
            } else {
                None
            }
        },
    }
}

/// The tokens from `pos`, as one text.
pub open spec fn tokens_at(intl: bool, s: Seq<u8>, pos: int) -> (int, Seq<char>)
    decreases s.len() - pos,
{
    match token_at(intl, s, pos) {
        Some((p, text)) => if pos < p <= s.len() {
            let (end, rest) = tokens_at(intl, s, p);
            (end, text + rest)
        } else {
            (pos, Seq::empty())
        },
        None => (pos, Seq::empty()),
    }
}

/// An unstructured body at `pos`: tokens, and the blanks that follow the
/// last. Every input holds one, if only an empty one.
pub open spec fn unstructured_at(intl: bool, s: Seq<u8>, pos: int) -> (int, Seq<char>) {
    let (p, text) = tokens_at(intl, s, pos);
    let end = run_end(ByteClass::Wsp, s, p);
    (end, text + text_of(s.subrange(p, end)))
}

/// Reads a run of encoded words at `pos`.
pub fn word_run(input: &[u8], pos: usize) -> (r: Option<(usize, String)>)
    requires
        pos <= input.len(),
        parsable(input@.len() as int),
    ensures
        agrees(r, word_run_at(input@, pos as int)),
        r matches Some((p, _)) ==> pos < p <= input.len(),
{
    let (first_end, first) = match encoded_word_from(input, pos) {
        Some(found) => found,
        None => {
            return None;
        },
    };
    let mut out = first.decode();
    let ghost head = out@;
    let ghost acc = Seq::<char>::empty();
    let mut cur = first_end;
    assert(out@ =~= head + acc);
    loop
        invariant
            parsable(input@.len() as int),
            pos < first_end <= cur <= input.len(),
            out@ == head + acc,
            more_words_at(input@, first_end as int) == (
                more_words_at(input@, cur as int).0,
                acc + more_words_at(input@, cur as int).1,
            ),
        ensures
            pos < cur <= input.len(),
            out@ == head + acc,
            more_words_at(input@, first_end as int) == (cur as int, acc),
        decreases input.len() - cur,
    {
        let next = match fws(input, cur) {
            Some((p, _)) => encoded_word_from(input, p),
            None => None,
        };
        match next {
            Some((q, word)) => {
                let text = word.decode();
                proof {
                    let more = more_words_at(input@, q as int).1;
                    assert(acc + (text@ + more) =~= (acc + text@) + more);
                    assert((head + acc) + text@ =~= head + (acc + text@));
                    acc = acc + text@;
                }
                out.append(text.as_str());
                cur = q;
            },
            None => {
                assert(acc + Seq::<char>::empty() =~= acc);
                break ;
            },
        }
    }
    Some((cur, out))
}

/// Reads one unit of plain text at `pos`.
pub fn plain_unit<P: Utf8Policy>(input: &[u8], pos: usize) -> (r: Option<(usize, char)>)
    requires
        pos <= input.len(),
    ensures
        agrees(r, plain_unit_at(P::international(), input@, pos as int)),
        r matches Some((p, _)) ==> pos < p <= input.len(),
{
    let visible = unit::<P>(TextClass::Vchar, input, pos);
    if visible.is_some() {
        return visible;
    }
    _8bit_char(input, pos)
}

/// Reads the longest run of plain text from `pos` and appends it to `out`.
pub fn plain_run<P: Utf8Policy>(input: &[u8], pos: usize, out: &mut String) -> (end: usize)
    requires
        pos <= input.len(),
    ensures
        end == plain_run_at(P::international(), input@, pos as int).0,
        final(out)@ == old(out)@ + plain_run_at(P::international(), input@, pos as int).1,
        pos <= end <= input.len(),
{
    let ghost intl = P::international();
    let ghost acc = Seq::<char>::empty();
    let mut cur = pos;
    assert(out@ =~= old(out)@ + acc);
    loop
        invariant
            intl == P::international(),
            pos <= cur <= input.len(),
            out@ == old(out)@ + acc,
            plain_run_at(intl, input@, pos as int) == (
                plain_run_at(intl, input@, cur as int).0,
                acc + plain_run_at(intl, input@, cur as int).1,
            ),
        ensures
            pos <= cur <= input.len(),
            out@ == old(out)@ + acc,
            plain_run_at(intl, input@, pos as int) == (cur as int, acc),
        decreases input.len() - cur,
    {
        match plain_unit::<P>(input, cur) {
            Some((p, c)) => {
                push_char(out, c);
                proof {
                    let more = plain_run_at(intl, input@, p as int).1;
                    assert(acc + (seq![c] + more) =~= acc.push(c) + more);
                    assert((old(out)@ + acc).push(c) =~= old(out)@ + acc.push(c));
                    acc = acc.push(c);
                }
                cur = p;
            },
            None => {
                assert(acc + Seq::<char>::empty() =~= acc);
                break ;
            },
        }
    }
    cur
}

/// Reads one token at `pos`, with the folding white space before it.
pub fn token<P: Utf8Policy>(input: &[u8], pos: usize) -> (r: Option<(usize, String)>)
    requires
        pos <= input.len(),
        parsable(input@.len() as int),
    ensures
        agrees(r, token_at(P::international(), input@, pos as int)),
        r matches Some((p, _)) ==> pos < p <= input.len(),
{
    let (p, blank) = ofws(input, pos);
    let mut out = blank;
    match word_run(input, p) {
        Some((q, text)) => {
            out.append(text.as_str());
            Some((q, out))
        },
        None => {
            let q = plain_run::<P>(input, p, &mut out);
            if q > p {
                Some((q, out))
            } else {
                None
            }
        },
    }
}

/// Reads an unstructured body from `pos`.
pub fn unstructured_from<P: Utf8Policy>(input: &[u8], pos: usize) -> (r: (usize, String))
    requires
        pos <= input.len(),
        parsable(input@.len() as int),
    ensures
        (r.0 as int, r.1@) == unstructured_at(P::international(), input@, pos as int),
        pos <= r.0 <= input.len(),
{
    let ghost intl = P::international();
    let mut out = String::new();
    let mut cur = pos;
    assert(out@ =~= Seq::<char>::empty());
    loop
        invariant
            intl == P::international(),
            parsable(input@.len() as int),
            pos <= cur <= input.len(),
            tokens_at(intl, input@, pos as int) == (
                tokens_at(intl, input@, cur as int).0,
                out@ + tokens_at(intl, input@, cur as int).1,
            ),
        ensures
            pos <= cur <= input.len(),
            tokens_at(intl, input@, pos as int) == (cur as int, out@),
        decreases input.len() - cur,
    {
        match token::<P>(input, cur) {
            Some((p, text)) => {
                proof {
                    let more = tokens_at(intl, input@, p as int).1;
                    assert(out@ + (text@ + more) =~= (out@ + text@) + more);
                }
                out.append(text.as_str());
                cur = p;
            },
            None => {
                assert(out@ + Seq::<char>::empty() =~= out@);
                break ;
            },
        }
    }
    let end = scan(ByteClass::Wsp, input, cur);
    push_text(&mut out, input, cur, end);
    (end, out)
}

/// Parse an unstructured header such as `"Subject:"`.
///
/// Returns a fully decoded string, and the input that follows it. Every
/// input has such a body, so this never fails.
pub fn unstructured<P: Utf8Policy>(input: &[u8]) -> (r: Result<(&[u8], String), ()>)
    requires
        parsable(input@.len() as int),
    ensures
        r is Ok,
        agrees_rest(r, input@, Some(unstructured_at(P::international(), input@, 0))),
{
    let (end, text) = unstructured_from::<P>(input, 0);
    Ok((rest(input, end), text))
}

} // verus!
