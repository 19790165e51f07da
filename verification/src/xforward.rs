//! The parameters of the XFORWARD extension of Postfix.

use crate::codec::{ascii_lossy, decode_ascii};
use crate::escape::{octets, Escape};
use crate::rfc3461::xtext;
use crate::util::{
    agrees, agrees_all, agrees_rest_all, byte_at, crlf_at, is_byte, is_crlf, keyword, keyword_at,
    lemma_views_push, rest, run_end, scan, views, ByteClass,
};
use vstd::prelude::*;
use vstd::string::*;

verus! {

/// XFORWARD parameter name and value.
///
/// `"[UNAVAILABLE]"` is represented with a value of `None`.
#[derive(Clone, Debug)]
pub struct Param(pub &'static str, pub Option<String>);

impl View for Param {
    type V = (Seq<char>, Option<Seq<char>>);

    open spec fn view(&self) -> (Seq<char>, Option<Seq<char>>) {
        (
            self.0@,
            match self.1 {
                Some(text) => Some(text@),
                None => None,
            },
        )
    }
}

/// The name of a parameter at `pos`, in lower case: one of `addr`, `helo`,
/// `ident`, `name`, `port`, `proto` and `source`, in any mix of case.
pub open spec fn command_name_at(s: Seq<u8>, pos: int) -> Option<(int, Seq<char>)> {
    if keyword_at(s, pos, "addr"@) {
        Some((pos + 4, "addr"@))
    } else if keyword_at(s, pos, "helo"@) {
        Some((pos + 4, "helo"@))
    } else if keyword_at(s, pos, "ident"@) {
        Some((pos + 5, "ident"@))
    } else if keyword_at(s, pos, "name"@) {
        Some((pos + 4, "name"@))
    } else if keyword_at(s, pos, "port"@) {
        Some((pos + 4, "port"@))
    } else if keyword_at(s, pos, "proto"@) {
        Some((pos + 5, "proto"@))
    } else if keyword_at(s, pos, "source"@) {
        Some((pos + 6, "source"@))
    } else {
        None
    }
}

/// The value of a parameter at `pos`: `[UNAVAILABLE]`, which stands for no
/// value, else xtext, decoded.
pub open spec fn value_at(s: Seq<u8>, pos: int) -> (int, Option<Seq<char>>) {
    if keyword_at(s, pos, "[unavailable]"@) {
        (pos + 13, None)
    } else {
        (octets(Escape::Xtext, s, pos).0, Some(ascii_lossy(octets(Escape::Xtext, s, pos).1)))
    }
}

/// A parameter at `pos`: name, `=` and value.
pub open spec fn param_at(s: Seq<u8>, pos: int) -> Option<(int, (Seq<char>, Option<Seq<char>>))> {
    match command_name_at(s, pos) {
        Some((p, name)) => if byte_at(s, p, 0x3d) {
            Some((value_at(s, p + 1).0, (name, value_at(s, p + 1).1)))
        } else {
            None
        },
        None => None,
    }
}

/// The parameters that follow the first, each after one or more blanks.
pub open spec fn more_params_at(s: Seq<u8>, pos: int) -> (int, Seq<(Seq<char>, Option<Seq<char>>)>)
    decreases s.len() - pos,
{
    let start = run_end(ByteClass::Wsp, s, pos);
    if start > pos {
        match param_at(s, start) {
            Some((p, param)) => if pos < p <= s.len() {
                let (end, rest) = more_params_at(s, p);
                (end, seq![param] + rest)
            } else {
                (pos, Seq::empty())
            },
            None => (pos, Seq::empty()),
        }
    } else {
        (pos, Seq::empty())
    }
}

/// One or more parameters at `pos`, with blanks between them and, if any,
/// before the first.
pub open spec fn xforward_params_at(s: Seq<u8>, pos: int) -> Option<
    (int, Seq<(Seq<char>, Option<Seq<char>>)>),
> {
    match param_at(s, run_end(ByteClass::Wsp, s, pos)) {
        Some((p, first)) => {
            let (end, rest) = more_params_at(s, p);
            Some((end, seq![first] + rest))
        },
        None => None,
    }
}

/// An XFORWARD command: the word and a space, parameters, and a line break.
pub open spec fn command_at(s: Seq<u8>) -> Option<(int, Seq<(Seq<char>, Option<Seq<char>>)>)> {
    if keyword_at(s, 0, "xforward "@) {
        match xforward_params_at(s, 9) {
            Some((p, params)) => if crlf_at(s, p) {
                Some((p + 2, params))
            } else {
                None
            },
            None => None,
        }
    } else {
        None
    }
}

/// Reads the name of a parameter at `pos`.
pub fn command_name(input: &[u8], pos: usize) -> (r: Option<(usize, &'static str)>)
    requires
        pos <= input.len(),
    ensures
        agrees(r, command_name_at(input@, pos as int)),
        r matches Some((p, _)) ==> pos < p <= input.len(),
{
    proof {
        reveal_strlit("addr");
        reveal_strlit("helo");
        reveal_strlit("ident");
        reveal_strlit("name");
        reveal_strlit("port");
        reveal_strlit("proto");
        reveal_strlit("source");
    }
    if keyword(input, pos, "addr") {
        Some((pos + 4, "addr"))
    } else if keyword(input, pos, "helo") {
        Some((pos + 4, "helo"))
    } else if keyword(input, pos, "ident") {
        Some((pos + 5, "ident"))
    } else if keyword(input, pos, "name") {
        Some((pos + 4, "name"))
    } else if keyword(input, pos, "port") {
        Some((pos + 4, "port"))
    } else if keyword(input, pos, "proto") {
        Some((pos + 5, "proto"))
    } else if keyword(input, pos, "source") {
        Some((pos + 6, "source"))
    } else {
        None
    }
}

/// Reads `[UNAVAILABLE]` at `pos`.
pub fn unavailable(input: &[u8], pos: usize) -> (r: Option<usize>)
    requires
        pos <= input.len(),
    ensures
        match r {
            Some(p) => keyword_at(input@, pos as int, "[unavailable]"@) && p == pos + 13 && p
                <= input.len(),
            None => !keyword_at(input@, pos as int, "[unavailable]"@),
        },
{
    proof {
        reveal_strlit("[unavailable]");
    }
    if keyword(input, pos, "[unavailable]") {
        Some(pos + 13)
    } else {
        None
    }
}

/// Reads the value of a parameter at `pos`.
pub fn value(input: &[u8], pos: usize) -> (r: (usize, Option<String>))
    requires
        pos <= input.len(),
    ensures
        r.0 == value_at(input@, pos as int).0,
        match r.1 {
            Some(text) => value_at(input@, pos as int).1 == Some(text@),
            None => value_at(input@, pos as int).1 is None,
        },
        pos <= r.0 <= input.len(),
{
    match unavailable(input, pos) {
        Some(p) => (p, None),
        None => {
            let (end, bytes) = xtext(input, pos);
            (end, Some(decode_ascii(bytes.as_slice())))
        },
    }
}

/// Reads a parameter at `pos`.
pub fn param(input: &[u8], pos: usize) -> (r: Option<(usize, Param)>)
    requires
        pos <= input.len(),
    ensures
        agrees(r, param_at(input@, pos as int)),
        r matches Some((p, _)) ==> pos < p <= input.len(),
{
    match command_name(input, pos) {
        Some((p, name)) => {
            if !is_byte(input, p, 0x3d) {
                return None;
            }
            let (end, v) = value(input, p + 1);
            Some((end, Param(name, v)))
        },
        None => None,
    }
}

/// Reads one or more parameters at `pos`.
pub fn xforward_params_from(input: &[u8], pos: usize) -> (r: Option<(usize, Vec<Param>)>)
    requires
        pos <= input.len(),
    ensures
        agrees_all(r, xforward_params_at(input@, pos as int)),
        r matches Some((p, _)) ==> pos < p <= input.len(),
{
    let start = scan(ByteClass::Wsp, input, pos);
    let (first_end, first) = match param(input, start) {
        Some(found) => found,
        None => {
            return None;
        },
    };
    let ghost head = first@;
    let ghost acc = Seq::<(Seq<char>, Option<Seq<char>>)>::empty();
    let mut out: Vec<Param> = Vec::new();
    out.push(first);
    let mut cur = first_end;
    assert(views(out@) =~= seq![head] + acc);
    loop
        invariant
            pos < first_end <= cur <= input.len(),
            views(out@) == seq![head] + acc,
            more_params_at(input@, first_end as int) == (
                more_params_at(input@, cur as int).0,
                acc + more_params_at(input@, cur as int).1,
            ),
        ensures
            pos < cur <= input.len(),
            views(out@) == seq![head] + acc,
            more_params_at(input@, first_end as int) == (cur as int, acc),
        decreases input.len() - cur,
    {
        let next = scan(ByteClass::Wsp, input, cur);
        if next == cur {
            assert(acc + Seq::<(Seq<char>, Option<Seq<char>>)>::empty() =~= acc);
            break ;
        }
        match param(input, next) {
            Some((p, item)) => {
                proof {
                    let more = more_params_at(input@, p as int).1;
                    lemma_views_push(out@, item);
                    assert(acc + (seq![item@] + more) =~= acc.push(item@) + more);
                    assert((seq![head] + acc).push(item@) =~= seq![head] + acc.push(item@));
                    acc = acc.push(item@);
                }
                out.push(item);
                cur = p;
            },
            None => {
                assert(acc + Seq::<(Seq<char>, Option<Seq<char>>)>::empty() =~= acc);
                break ;
            },
        }
    }
    Some((cur, out))
}

/// Parse a XFORWARD b`"attr1=value attr2=value"` string.
///
/// Returns a vector of [`Param`], and the input that follows them.
///
/// The parameter names must be valid and are normalized to
/// lowercase. The values are xtext decoded and a value of
/// `[UNAVAILABLE]` is translated to `None`. No other validation is
/// done.
pub fn xforward_params(input: &[u8]) -> (r: Result<(&[u8], Vec<Param>), ()>)
    ensures
        agrees_rest_all(r, input@, xforward_params_at(input@, 0)),
{
    match xforward_params_from(input, 0) {
        Some((p, params)) => Ok((rest(input, p), params)),
        None => Err(()),
    }
}

/// Parse a whole XFORWARD command line.
pub fn command(input: &[u8]) -> (r: Result<(&[u8], Vec<Param>), ()>)
    ensures
        agrees_rest_all(r, input@, command_at(input@)),
{
    proof {
        reveal_strlit("xforward ");
    }
    if !keyword(input, 0, "xforward ") {
        return Err(());
    }
    match xforward_params_from(input, 9) {
        Some((p, params)) => {
            if is_crlf(input, p) {
                Ok((rest(input, p + 2), params))
            } else {
                Err(())
            }
        },
        None => Err(()),
    }
}

} // verus!
