//! The SMTP extension for delivery status notifications (RFC 3461).

use crate::behaviour::Legacy;
use crate::codec::{ascii_lossy, decode_ascii};
use crate::escape::{decode_run, octets, Escape};
use crate::rfc5322::address::{atom, atom_at};
use crate::util::{
    agrees, agrees_rest, byte_at, is_byte, is_word, keyword, keyword_at, lemma_views_push, lower,
    rest, views, word_is,
};
use vstd::prelude::*;
use vstd::string::*;
use vstd::utf8::*;

verus! {

/// Whether a byte is printable: white space of any kind, or visible ASCII.
pub open spec fn is_printable(b: u8) -> bool {
    9 <= b <= 13 || 32 <= b <= 126
}

/// Whether every byte is printable.
pub open spec fn all_printable(bytes: Seq<u8>) -> bool {
    forall|i: int| 0 <= i < bytes.len() ==> is_printable(#[trigger] bytes[i])
}

/// Xtext at `pos` that decodes to printable bytes.
pub open spec fn printable_xtext_at(s: Seq<u8>, pos: int) -> Option<(int, Seq<u8>)> {
    if all_printable(octets(Escape::Xtext, s, pos).1) {
        Some(octets(Escape::Xtext, s, pos))
    } else {
        None
    }
}

/// An original recipient at `pos`: the type of the address as an atom, `;`,
/// and the address as printable xtext.
pub open spec fn orcpt_address_at(s: Seq<u8>, pos: int) -> Option<(int, (Seq<char>, Seq<char>))> {
    match atom_at(false, s, pos) {
        Some((p, kind)) => if byte_at(s, p, 0x3b) {
            match printable_xtext_at(s, p + 1) {
                Some((q, bytes)) => Some((q, (kind, ascii_lossy(bytes)))),
                None => None,
            }
        } else {
            None
        },
        None => None,
    }
}

/// Reads xtext from `pos`: literal characters and `+XX` escapes. Every input
/// holds some, if only none at all.
pub fn xtext(input: &[u8], pos: usize) -> (r: (usize, Vec<u8>))
    requires
        pos <= input.len(),
    ensures
        (r.0 as int, r.1@) == octets(Escape::Xtext, input@, pos as int),
        pos <= r.0 <= input.len(),
{
    decode_run(Escape::Xtext, input, pos)
}

/// Whether every byte is printable.
fn printable(bytes: &Vec<u8>) -> (r: bool)
    ensures
        r == all_printable(bytes@),
{
    let mut i: usize = 0;
    while i < bytes.len()
        invariant
            i <= bytes.len(),
            forall|j: int| 0 <= j < i ==> is_printable(#[trigger] bytes@[j]),
        decreases bytes.len() - i,
    {
        let b = bytes[i];
        if !((9 <= b && b <= 13) || (32 <= b && b <= 126)) {
            return false;
        }
        i += 1;
    }
    true
}

/// Reads xtext from `pos` that decodes to printable bytes.
pub fn _printable_xtext(input: &[u8], pos: usize) -> (r: Option<(usize, Vec<u8>)>)
    requires
        pos <= input.len(),
    ensures
        agrees(r, printable_xtext_at(input@, pos as int)),
        r matches Some((p, _)) ==> pos <= p <= input.len(),
{
    let (end, bytes) = xtext(input, pos);
    if printable(&bytes) {
        Some((end, bytes))
    } else {
        None
    }
}

/// Parse the ESMTP ORCPT parameter that may be present on a RCPT TO command.
///
/// Returns the address type and the decoded original recipient address.
pub fn orcpt_address(input: &[u8]) -> (r: Result<(&[u8], (String, String)), ()>)
    ensures
        agrees_rest(r, input@, orcpt_address_at(input@, 0)),
{
    match atom::<Legacy>(input, 0) {
        Some((p, kind)) => {
            if !is_byte(input, p, 0x3b) {
                return Err(());
            }
            match _printable_xtext(input, p + 1) {
                Some((q, bytes)) => Ok((rest(input, q), (kind, decode_ascii(bytes.as_slice())))),
                None => Err(()),
            }
        },
        None => Err(()),
    }
}

/// The DSN return type desired by the sender.
#[derive(Clone, Copy, Debug, PartialEq, Eq)]
pub enum DSNRet {
    /// Return the full message content.
    Full,
    /// Return only the email headers.
    Hdrs,
}

/// DSN parameters for the MAIL command.
#[derive(Debug, PartialEq)]
pub struct DSNMailParams {
    /// A mail transaction identifier provided by the sender.
    ///
    /// `None` if not specified.
    pub envid: Option<String>,
    /// The DSN return type desired by the sender.
    ///
    /// `None` if not specified.
    pub ret: Option<DSNRet>,
}

/// What was gathered from the parameters read so far.
pub struct DsnState<'a> {
    pub envid: Option<Seq<char>>,
    pub ret: Option<DSNRet>,
    pub other: Seq<(&'a str, Option<&'a str>)>,
}

/// The return type that a value of `RET` names.
pub open spec fn ret_of(value: Seq<u8>) -> Option<DSNRet> {
    if is_word(value, "full"@) {
        Some(DSNRet::Full)
    } else if is_word(value, "hdrs"@) {
        Some(DSNRet::Hdrs)
    } else {
        None
    }
}

/// The envelope identifier that a value of `ENVID` spells: the value is
/// xtext throughout, and decodes to printable bytes.
pub open spec fn envid_of(value: Seq<u8>) -> Option<Seq<char>> {
    match printable_xtext_at(value, 0) {
        Some((end, bytes)) => if end == value.len() {
            Some(ascii_lossy(bytes))
        } else {
            None
        },
        None => None,
    }
}

/// What one parameter adds to what was gathered, or why it is refused.
/// `RET` and `ENVID` are taken, each once; every other parameter is passed on.
pub open spec fn dsn_step<'a>(state: DsnState<'a>, name: &'a str, value: Option<&'a str>) -> Result<
    DsnState<'a>,
    Seq<char>,
> {
    if is_word(name.spec_bytes(), "ret"@) {
        match value {
            Some(v) => if state.ret is Some {
                Err("Duplicate RET"@)
            } else {
                match ret_of(v.spec_bytes()) {
                    Some(ret) => Ok(DsnState { ret: Some(ret), ..state }),
                    None => Err("Invalid RET"@),
                }
            },
            None => Err("RET without value"@),
        }
    } else if is_word(name.spec_bytes(), "envid"@) {
        match value {
            Some(v) => if state.envid is Some {
                Err("Duplicate ENVID"@)
            } else if v.spec_bytes().len() > 100 {
                Err("ENVID over 100 bytes"@)
            } else {
                match envid_of(v.spec_bytes()) {
                    Some(envid) => Ok(DsnState { envid: Some(envid), ..state }),
                    None => Err("Invalid ENVID"@),
                }
            },
            None => Err("ENVID without value"@),
        }
    } else {
        Ok(DsnState { other: state.other.push((name, value)), ..state })
    }
}

/// What the first `n` parameters come to, read in order. The first parameter
/// that is refused decides.
pub open spec fn dsn_fold<'a>(input: Seq<(&'a str, Option<&'a str>)>, n: nat) -> Result<
    DsnState<'a>,
    Seq<char>,
>
    decreases n,
{
    if n == 0 {
        Ok(DsnState { envid: None, ret: None, other: Seq::empty() })
    } else {
        match dsn_fold(input, (n - 1) as nat) {
            Ok(state) => dsn_step(state, input[n - 1].0, input[n - 1].1),
            Err(e) => Err(e),
        }
    }
}

/// Once a parameter is refused, the parameters after it change nothing.
pub proof fn lemma_dsn_error_stays<'a>(input: Seq<(&'a str, Option<&'a str>)>, n: nat, m: nat)
    requires
        n <= m,
        dsn_fold(input, n) is Err,
    ensures
        dsn_fold(input, m) == dsn_fold(input, n),
    decreases m,
{
    if n < m {
        lemma_dsn_error_stays(input, n, (m - 1) as nat);
    }
}

/// The return type that a value of `RET` names.
pub fn ret_value(value: &[u8]) -> (r: Option<DSNRet>)
    ensures
        r == ret_of(value@),
{
    proof {
        reveal_strlit("full");
        reveal_strlit("hdrs");
    }
    if word_is(value, "full") {
        Some(DSNRet::Full)
    } else if word_is(value, "hdrs") {
        Some(DSNRet::Hdrs)
    } else {
        None
    }
}

/// The envelope identifier that a value of `ENVID` spells.
pub fn envid_value(value: &[u8]) -> (r: Option<String>)
    ensures
        match r {
            Some(text) => envid_of(value@) == Some(text@),
            None => envid_of(value@) is None,
        },
{
    match _printable_xtext(value, 0) {
        Some((end, bytes)) => {
            if end == value.len() {
                Some(decode_ascii(bytes.as_slice()))
            } else {
                None
            }
        },
        None => None,
    }
}

/// Parse a list of ESMTP parameters on a MAIL FROM command into a
/// [`DSNMailParams`] option block.
///
/// Returns the option block and a vector of parameters that were not
/// consumed.
pub fn dsn_mail_params<'a>(input: &[(&'a str, Option<&'a str>)]) -> (r: Result<
    (DSNMailParams, Vec<(&'a str, Option<&'a str>)>),
    &'static str,
>)
    ensures
        match r {
            Ok((params, other)) => dsn_fold(input@, input@.len()) matches Ok(state)
                && state.ret == params.ret && state.other == other@ && match params.envid {
                Some(text) => state.envid == Some(text@),
                None => state.envid is None,
            },
            Err(e) => dsn_fold(input@, input@.len()) == Err::<DsnState<'a>, Seq<char>>(e@),
        },
{
    proof {
        reveal_strlit("ret");
        reveal_strlit("envid");
    }
    let mut out: Vec<(&'a str, Option<&'a str>)> = Vec::new();
    let mut envid_val: Option<String> = None;
    let mut ret_val: Option<DSNRet> = None;
    let mut i: usize = 0;
    while i < input.len()
        invariant
            i <= input.len(),
            is_ascii("ret"),
            is_ascii("envid"),
            dsn_fold(input@, i as nat) matches Ok(state) && state.ret == ret_val && state.other
                == out@ && match envid_val {
                Some(text) => state.envid == Some(text@),
                None => state.envid is None,
            },
        decreases input.len() - i,
    {
        let (name, value) = input[i];
        let ghost state = dsn_fold(input@, i as nat)->Ok_0;
        proof {
            assert(dsn_fold(input@, (i + 1) as nat) == dsn_step(state, name, value));
            if dsn_step(state, name, value) is Err {
                lemma_dsn_error_stays(input@, (i + 1) as nat, input@.len());
            }
        }
        if word_is(name.as_bytes(), "ret") {
            match value {
                Some(v) => {
                    if ret_val.is_some() {
                        return Err("Duplicate RET");
                    }
                    match ret_value(v.as_bytes()) {
                        Some(ret) => {
                            ret_val = Some(ret);
                        },
                        None => {
                            return Err("Invalid RET");
                        },
                    }
                },
                None => {
                    return Err("RET without value");
                },
            }
        } else if word_is(name.as_bytes(), "envid") {
            match value {
                Some(v) => {
                    if envid_val.is_some() {
                        return Err("Duplicate ENVID");
                    }
                    let bytes = v.as_bytes();
                    if bytes.len() > 100 {
                        return Err("ENVID over 100 bytes");
                    }
                    match envid_value(bytes) {
                        Some(text) => {
                            envid_val = Some(text);
                        },
                        None => {
                            return Err("Invalid ENVID");
                        },
                    }
                },
                None => {
                    return Err("ENVID without value");
                },
            }
        } else {
            out.push((name, value));
        }
        i += 1;
    }
    Ok((DSNMailParams { envid: envid_val, ret: ret_val }, out))
}

/// The events of which the sender wants to be notified.
#[derive(Clone, Copy, Debug, PartialEq, Eq)]
pub struct Notify {
    /// On successful delivery.
    pub on_success: bool,
    /// On failed delivery.
    pub on_failure: bool,
    /// On delayed delivery.
    pub delay: bool,
}

/// Whether an item of a list spells a lower-case ASCII word, in any mix of case.
pub open spec fn names(items: Seq<&str>, word: Seq<char>) -> bool {
    exists|i: int| 0 <= i < items.len() && is_word(#[trigger] items[i].spec_bytes(), word)
}

/// The events that a list of keywords names. A keyword that names none is
/// passed over.
pub fn convert_notify_list(input: Vec<&str>) -> (r: Notify)
    ensures
        r.on_success == names(input@, "success"@),
        r.on_failure == names(input@, "failure"@),
        r.delay == names(input@, "delay"@),
{
    proof {
        reveal_strlit("success");
        reveal_strlit("failure");
        reveal_strlit("delay");
    }
    let mut on_success = false;
    let mut on_failure = false;
    let mut delay = false;
    let mut i: usize = 0;
    while i < input.len()
        invariant
            i <= input.len(),
            is_ascii("success"),
            is_ascii("failure"),
            is_ascii("delay"),
            on_success == names(input@.take(i as int), "success"@),
            on_failure == names(input@.take(i as int), "failure"@),
            delay == names(input@.take(i as int), "delay"@),
        decreases input.len() - i,
    {
        let item = input[i].as_bytes();
        let ghost before = input@.take(i as int);
        let ghost after = input@.take(i + 1);
        proof {
            assert(after =~= before.push(input@[i as int]));
            assert forall|word: Seq<char>| #[trigger]
                names(after, word) == (names(before, word) || is_word(item@, word)) by {
                if names(before, word) {
                    let j = choose|j: int|
                        0 <= j < before.len() && is_word(#[trigger] before[j].spec_bytes(), word);
                    assert(after[j] == before[j]);
                }
                if is_word(item@, word) {
                    assert(after[i as int].spec_bytes() == item@);
                }
                if names(after, word) {
                    let j = choose|j: int|
                        0 <= j < after.len() && is_word(#[trigger] after[j].spec_bytes(), word);
                    if j < i {
                        assert(before[j] == after[j]);
                    }
                }
            }
        }
        if word_is(item, "success") {
            on_success = true;
        }
        if word_is(item, "failure") {
            on_failure = true;
        }
        if word_is(item, "delay") {
            delay = true;
        }
        i += 1;
    }
    assert(input@.take(i as int) =~= input@);
    Notify { on_success, on_failure, delay }
}

/// One keyword of a notify list at `pos`, in lower case.
pub open spec fn notify_item_at(s: Seq<u8>, pos: int) -> Option<(int, Seq<char>)> {
    if keyword_at(s, pos, "success"@) {
        Some((pos + 7, "success"@))
    } else if keyword_at(s, pos, "failure"@) {
        Some((pos + 7, "failure"@))
    } else if keyword_at(s, pos, "delay"@) {
        Some((pos + 5, "delay"@))
    } else {
        None
    }
}

/// The keywords that follow the first of a list, each after a comma.
pub open spec fn more_notify_items_at(s: Seq<u8>, pos: int) -> (int, Seq<Seq<char>>)
    decreases s.len() - pos,
{
    if byte_at(s, pos, 0x2c) {
        match notify_item_at(s, pos + 1) {
            Some((p, item)) => if pos < p <= s.len() {
                let (end, rest) = more_notify_items_at(s, p);
                (end, seq![item] + rest)
            } else {
                (pos, Seq::empty())
            },
            None => (pos, Seq::empty()),
        }
    } else {
        (pos, Seq::empty())
    }
}

/// A value of `NOTIFY` at the start of `s`: `NEVER`, which asks for no
/// notification, else one or more of `SUCCESS`, `FAILURE` and `DELAY` with a
/// comma between each two.
pub open spec fn dsn_notify_at(s: Seq<u8>) -> Option<(int, Notify)> {
    if keyword_at(s, 0, "never"@) {
        Some((5, Notify { on_success: false, on_failure: false, delay: false }))
    } else {
        match notify_item_at(s, 0) {
            Some((p, first)) => {
                let (end, rest) = more_notify_items_at(s, p);
                let items = seq![first] + rest;
                Some(
                    (
                        end,
                        Notify {
                            on_success: items.contains("success"@),
                            on_failure: items.contains("failure"@),
                            delay: items.contains("delay"@),
                        },
                    ),
                )
            },
            None => None,
        }
    }
}

/// Reads one keyword of a notify list at `pos`.
pub fn notify_item(input: &[u8], pos: usize) -> (r: Option<(usize, &'static str)>)
    requires
        pos <= input.len(),
    ensures
        agrees(r, notify_item_at(input@, pos as int)),
        r matches Some((p, _)) ==> pos < p <= input.len(),
{
    proof {
        reveal_strlit("success");
        reveal_strlit("failure");
        reveal_strlit("delay");
    }
    if keyword(input, pos, "success") {
        Some((pos + 7, "success"))
    } else if keyword(input, pos, "failure") {
        Some((pos + 7, "failure"))
    } else if keyword(input, pos, "delay") {
        Some((pos + 5, "delay"))
    } else {
        None
    }
}

/// The bytes of an input that a keyword matches are ASCII.
pub proof fn lemma_keyword_is_ascii(s: Seq<u8>, pos: int, word: Seq<char>)
    requires
        keyword_at(s, pos, word),
        is_ascii_chars(word),
    ensures
        forall|j: int| pos <= j < pos + word.len() ==> #[trigger] s[j] < 0x80,
{
    assert forall|j: int| pos <= j < pos + word.len() implies #[trigger] s[j] < 0x80 by {
        let i = j - pos;
        assert(lower(s[pos + i]) as char == word[i]);
    }
}

/// In well-formed UTF-8, the position after a stretch of ASCII at the start
/// is the boundary of a character.
pub proof fn lemma_ascii_prefix_boundary(bytes: Seq<u8>, p: int)
    requires
        valid_utf8(bytes),
        0 <= p <= bytes.len(),
        forall|j: int| 0 <= j < p ==> #[trigger] bytes[j] < 0x80,
    ensures
        is_char_boundary(bytes, p),
    decreases p,
{
    if p > 0 {
        let tail = pop_first_scalar(bytes);
        assert(bytes[0] < 0x80);
        assert(length_of_first_scalar(bytes) == 1);
        assert forall|j: int| 0 <= j < p - 1 implies #[trigger] tail[j] < 0x80 by {
            assert(tail[j] == bytes[j + 1]);
        }
        lemma_ascii_prefix_boundary(tail, p - 1);
    }
}

/// A lower-case word spells itself and no other word.
proof fn lemma_spells(text: &str, word: Seq<char>)
    requires
        is_ascii(text),
        forall|i: int| 0 <= i < text@.len() ==> 0x61 <= #[trigger] text@[i] as u32 <= 0x7a,
        forall|i: int| 0 <= i < word.len() ==> 0x61 <= #[trigger] word[i] as u32 <= 0x7a,
    ensures
        is_word(text.spec_bytes(), word) <==> text@ == word,
{
    broadcast use is_ascii_spec_bytes;

    let bytes = text.spec_bytes();
    if is_word(bytes, word) {
        assert forall|i: int| 0 <= i < word.len() implies text@[i] == word[i] by {
            assert(lower(bytes[0 + i]) as char == word[i]);
            assert(bytes[i] == text@[i] as u8);
        }
        assert(text@ =~= word);
    }
    if text@ == word {
        assert forall|i: int| 0 <= i < word.len() implies lower(#[trigger] bytes[0 + i]) as char
            == word[i] by {
            assert(bytes[i] == text@[i] as u8);
        }
    }
}

/// Parse the value of the ESMTP NOTIFY parameter of a RCPT TO command.
///
/// Returns the events asked for, and the input that follows the value.
pub fn dsn_notify(input: &str) -> (r: Result<(&str, Notify), ()>)
    ensures
        match r {
            Ok((rest, notify)) => dsn_notify_at(input.spec_bytes()) matches Some((p, n)) && n
                == notify && 0 <= p <= input.spec_bytes().len() && rest.spec_bytes()
                == input.spec_bytes().subrange(p, input.spec_bytes().len() as int),
            Err(_) => dsn_notify_at(input.spec_bytes()) is None,
        },
{
    broadcast use encode_utf8_valid_utf8;

    proof {
        reveal_strlit("never");
        reveal_strlit("success");
        reveal_strlit("failure");
        reveal_strlit("delay");
    }
    let bytes = input.as_bytes();
    if keyword(bytes, 0, "never") {
        proof {
            lemma_keyword_is_ascii(bytes@, 0, "never"@);
            lemma_ascii_prefix_boundary(bytes@, 5);
        }
        let (_, rest) = input.split_at(5);
        return Ok((rest, Notify { on_success: false, on_failure: false, delay: false }));
    }
    let (first_end, first) = match notify_item(bytes, 0) {
        Some(found) => found,
        None => {
            return Err(());
        },
    };
    let ghost head = first@;
    let ghost acc = Seq::<Seq<char>>::empty();
    let mut items: Vec<&str> = Vec::new();
    items.push(first);
    let mut cur = first_end;
    proof {
        lemma_keyword_is_ascii(bytes@, 0, first@);
        assert(views(items@) =~= seq![head] + acc);
    }
    loop
        invariant
            bytes@ == input.spec_bytes(),
            is_ascii_chars("success"@),
            is_ascii_chars("failure"@),
            is_ascii_chars("delay"@),
            "success"@.len() == 7 && "failure"@.len() == 7 && "delay"@.len() == 5,
            0 < first_end <= cur <= bytes.len(),
            views(items@) == seq![head] + acc,
            forall|j: int| 0 <= j < cur ==> #[trigger] bytes@[j] < 0x80,
            forall|j: int|
                0 <= j < items@.len() ==> (#[trigger] items@[j]@ == "success"@ || items@[j]@
                    == "failure"@ || items@[j]@ == "delay"@),
            more_notify_items_at(bytes@, first_end as int) == (
                more_notify_items_at(bytes@, cur as int).0,
                acc + more_notify_items_at(bytes@, cur as int).1,
            ),
        ensures
            0 < cur <= bytes.len(),
            views(items@) == seq![head] + acc,
            forall|j: int| 0 <= j < cur ==> #[trigger] bytes@[j] < 0x80,
            forall|j: int|
                0 <= j < items@.len() ==> (#[trigger] items@[j]@ == "success"@ || items@[j]@
                    == "failure"@ || items@[j]@ == "delay"@),
            more_notify_items_at(bytes@, first_end as int) == (cur as int, acc),
        decreases bytes.len() - cur,
    {
        if !is_byte(bytes, cur, 0x2c) {
            assert(acc + Seq::<Seq<char>>::empty() =~= acc);
            break ;
        }
        match notify_item(bytes, cur + 1) {
            Some((p, item)) => {
                proof {
                    let more = more_notify_items_at(bytes@, p as int).1;
                    lemma_keyword_is_ascii(bytes@, cur + 1, item@);
                    lemma_views_push(items@, item);
                    assert(acc + (seq![item@] + more) =~= acc.push(item@) + more);
                    assert((seq![head] + acc).push(item@) =~= seq![head] + acc.push(item@));
                    acc = acc.push(item@);
                }
                items.push(item);
                cur = p;
            },
            None => {
                assert(acc + Seq::<Seq<char>>::empty() =~= acc);
                break ;
            },
        }
    }
    proof {
        lemma_ascii_prefix_boundary(bytes@, cur as int);
        let all = seq![head] + acc;
        assert forall|word: Seq<char>|
            word == "success"@ || word == "failure"@ || word == "delay"@ implies #[trigger] names(
            items@,
            word,
        ) == all.contains(word) by {
            assert forall|j: int| 0 <= j < items@.len() implies (is_word(
                #[trigger] items@[j].spec_bytes(),
                word,
            ) <==> all[j] == word) by {
                assert(items@[j]@ == "success"@ || items@[j]@ == "failure"@ || items@[j]@
                    == "delay"@);
                assert(all[j] == items@[j]@);
                lemma_spells(items@[j], word);
            }
            if names(items@, word) {
                let j = choose|j: int|
                    0 <= j < items@.len() && is_word(#[trigger] items@[j].spec_bytes(), word);
                assert(all[j] == word);
            }
            if all.contains(word) {
                let j = choose|j: int| 0 <= j < all.len() && all[j] == word;
                assert(is_word(items@[j].spec_bytes(), word));
            }
        }
    }
    let (_, rest) = input.split_at(cur);
    Ok((rest, convert_notify_list(items)))
}

} // verus!
