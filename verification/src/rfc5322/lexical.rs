//! The lexical layer: folding white space, comments and quoted strings.

use crate::rfc2047::{encoded_word_at, encoded_word_from, word_text, EncodedWord, WordModel};
use crate::rfc5322::policy::{run, run_at, unit, unit_at, TextClass, Utf8Policy};
use crate::util::{
    agrees, byte_at, crlf_at, is_byte, is_crlf, is_wsp, lemma_views_push, parsable, push_char,
    push_text, run_end, scan, text_of, views, ByteClass,
};
use vstd::prelude::*;
use vstd::string::*;

verus! {

/// Folding white space at `pos`: a run of blanks, which may be broken once
/// by a line break that further blanks follow. The line break is no part of
/// the text.
pub open spec fn fws_at(s: Seq<u8>, pos: int) -> Option<(int, Seq<char>)> {
    let first = run_end(ByteClass::Wsp, s, pos);
    if crlf_at(s, first) {
        let second = run_end(ByteClass::Wsp, s, first + 2);
        if second > first + 2 {
            Some(
                (
                    second,
                    text_of(s.subrange(pos, first)) + text_of(s.subrange(first + 2, second)),
                ),
            )
        } else {
            None
        }
    } else if first > pos {
        Some((first, text_of(s.subrange(pos, first))))
    } else {
        None
    }
}

/// Folding white space at `pos`, or nothing.
pub open spec fn ofws_at(s: Seq<u8>, pos: int) -> (int, Seq<char>) {
    match fws_at(s, pos) {
        Some(found) => found,
        None => (pos, Seq::empty()),
    }
}

/// A backslash at `pos` and the visible character or blank that it quotes.
pub open spec fn quoted_pair_at(intl: bool, s: Seq<u8>, pos: int) -> Option<(int, char)> {
    if byte_at(s, pos, 0x5c) {
        if unit_at(intl, TextClass::Vchar, s, pos + 1) is Some {
            unit_at(intl, TextClass::Vchar, s, pos + 1)
        } else if pos + 1 < s.len() && is_wsp(s[pos + 1]) {
            Some((pos + 2, s[pos + 1] as char))
        } else {
            None
        }
    } else {
        None
    }
}

/// Reads folding white space at `pos`.
pub fn fws(input: &[u8], pos: usize) -> (r: Option<(usize, String)>)
    requires
        pos <= input.len(),
    ensures
        agrees(r, fws_at(input@, pos as int)),
        r matches Some((p, _)) ==> pos < p <= input.len(),
{
    let first = scan(ByteClass::Wsp, input, pos);
    if is_crlf(input, first) {
        let second = scan(ByteClass::Wsp, input, first + 2);
        if second > first + 2 {
            let mut out = String::new();
            push_text(&mut out, input, pos, first);
            push_text(&mut out, input, first + 2, second);
            assert(out@ =~= text_of(input@.subrange(pos as int, first as int)) + text_of(
                input@.subrange(first + 2, second as int),
            ));
            Some((second, out))
        } else {
            None
        }
    } else if first > pos {
        let mut out = String::new();
        push_text(&mut out, input, pos, first);
        assert(out@ =~= text_of(input@.subrange(pos as int, first as int)));
        Some((first, out))
    } else {
        None
    }
}

/// Optional FWS.
pub fn ofws(input: &[u8], pos: usize) -> (r: (usize, String))
    requires
        pos <= input.len(),
    ensures
        (r.0 as int, r.1@) == ofws_at(input@, pos as int),
        pos <= r.0 <= input.len(),
{
    match fws(input, pos) {
        Some(found) => found,
        None => (pos, String::new()),
    }
}

/// Reads a backslash and the character that it quotes.
pub fn quoted_pair<P: Utf8Policy>(input: &[u8], pos: usize) -> (r: Option<(usize, char)>)
    requires
        pos <= input.len(),
    ensures
        agrees(r, quoted_pair_at(P::international(), input@, pos as int)),
        r matches Some((p, _)) ==> pos < p <= input.len(),
{
    if !is_byte(input, pos, 0x5c) {
        return None;
    }
    let visible = unit::<P>(TextClass::Vchar, input, pos + 1);
    if visible.is_some() {
        return visible;
    }
    if pos + 1 < input.len() && ByteClass::Wsp.contains(input[pos + 1]) {
        Some((pos + 2, input[pos + 1] as char))
    } else {
        None
    }
}

/// What a comment is made of.
#[derive(Debug)]
pub enum CommentContent {
    /// A stretch of text.
    Text(String),
    /// A comment within the comment.
    Comment(Vec<CommentContent>),
    /// A character that a backslash quotes.
    QP(char),
}

/// The content of a comment as a value.
pub enum CommentModel {
    Text(Seq<char>),
    Comment(Seq<CommentModel>),
    QP(char),
}

/// The value of an item of a comment.
pub open spec fn comment_model(item: CommentContent) -> CommentModel
    decreases item,
{
    match item {
        CommentContent::Text(text) => CommentModel::Text(text@),
        CommentContent::QP(c) => CommentModel::QP(c),
        CommentContent::Comment(items) => CommentModel::Comment(
            Seq::new(
                items@.len(),
                |i: int|
                    if 0 <= i < items@.len() {
                        comment_model(items@[i])
                    } else {
                        CommentModel::QP(' ')
                    },
            ),
        ),
    }
}

impl View for CommentContent {
    type V = CommentModel;

    open spec fn view(&self) -> CommentModel {
        comment_model(*self)
    }
}

/// The view of a nested comment is made of the views of its items.
pub proof fn lemma_view_of_comment(items: Vec<CommentContent>)
    ensures
        CommentContent::Comment(items)@ == CommentModel::Comment(views(items@)),
{
    assert(comment_model(CommentContent::Comment(items)) matches CommentModel::Comment(inner)
        && inner =~= views(items@));
}

/// The text gathered so far as an item, if there is any.
pub open spec fn flushed(text: Seq<char>) -> Seq<CommentModel> {
    if text.len() > 0 {
        seq![CommentModel::Text(text)]
    } else {
        Seq::empty()
    }
}

/// The items of a comment with neighbouring text and quoted characters run
/// together, `text` being what was gathered before them. Nested comments
/// stay as they are and part the text on either side.
pub open spec fn coalesced(items: Seq<CommentModel>, text: Seq<char>) -> Seq<CommentModel>
    decreases items.len(),
{
    if items.len() == 0 {
        flushed(text)
    } else {
        match items[0] {
            CommentModel::Text(t) => coalesced(items.drop_first(), text + t),
            CommentModel::QP(c) => coalesced(items.drop_first(), text.push(c)),
            CommentModel::Comment(inner) => flushed(text) + seq![CommentModel::Comment(inner)]
                + coalesced(items.drop_first(), Seq::empty()),
        }
    }
}

/// A comment at `pos`: `(`, items with optional folding white space before
/// each and after the last, and `)`.
pub open spec fn comment_at(intl: bool, s: Seq<u8>, pos: int) -> Option<(int, Seq<CommentModel>)>
    decreases s.len() - pos, 0int,
{
    if byte_at(s, pos, 0x28) {
        let (p, items) = comment_items_at(intl, s, pos + 1);
        let (q, blank) = ofws_at(s, p);
        if byte_at(s, q, 0x29) {
            Some((q + 1, coalesced(items.push(CommentModel::Text(blank)), Seq::empty())))
        } else {
            None
        }
    } else {
        None
    }
}

/// The items of a comment from `pos`, each with the white space before it.
pub open spec fn comment_items_at(intl: bool, s: Seq<u8>, pos: int) -> (int, Seq<CommentModel>)
    decreases s.len() - pos, 2int,
{
    let (p, blank) = ofws_at(s, pos);
    if pos <= p <= s.len() {
        match ccontent_at(intl, s, p) {
            Some((q, item)) => if p < q <= s.len() {
                let (end, rest) = comment_items_at(intl, s, q);
                (end, seq![CommentModel::Text(blank), item] + rest)
            } else {
                (pos, Seq::empty())
            },
            None => (pos, Seq::empty()),
        }
    } else {
        (pos, Seq::empty())
    }
}

/// One item of a comment at `pos`: a run of comment text, a quoted
/// character or a comment.
pub open spec fn ccontent_at(intl: bool, s: Seq<u8>, pos: int) -> Option<(int, CommentModel)>
    decreases s.len() - pos, 1int,
{
    let (end, text) = run_at(intl, TextClass::Ctext, s, pos);
    if end > pos {
        Some((end, CommentModel::Text(text)))
    } else {
        match quoted_pair_at(intl, s, pos) {
            Some((p, c)) => Some((p, CommentModel::QP(c))),
            None => match comment_at(intl, s, pos) {
                Some((p, items)) => Some((p, CommentModel::Comment(items))),
                None => None,
            },
        }
    }
}

/// Runs neighbouring text and quoted characters of a comment together.
pub fn _concat_comment(comments: Vec<CommentContent>) -> (out: Vec<CommentContent>)
    ensures
        views(out@) == coalesced(views(comments@), Seq::empty()),
{
    let ghost all = views(comments@);
    let mut out: Vec<CommentContent> = Vec::new();
    let mut acc_text = String::new();
    assert(views(out@) =~= Seq::<CommentModel>::empty());
    assert(all.skip(0) =~= all);
    for comment in iter: comments
        invariant
            all == views(comments@),
            iter.seq() == comments@,
            coalesced(all, Seq::empty()) == views(out@) + coalesced(
                all.skip(iter.index() as int),
                acc_text@,
            ),
    {
        let ghost i = iter.index() as int;
        proof {
            assert(comment == comments@[i]);
            assert(all.skip(i)[0] == comment@);
            assert(all.skip(i).drop_first() =~= all.skip(i + 1));
        }
        match comment {
            CommentContent::Text(text) => {
                acc_text.append(text.as_str());
                assert(comment@ == CommentModel::Text(text@));
            },
            CommentContent::QP(qp) => {
                push_char(&mut acc_text, qp);
                assert(comment@ == CommentModel::QP(qp));
            },
            CommentContent::Comment(inner) => {
                let ghost before = views(out@);
                let ghost text = acc_text@;
                if !acc_text.as_str().is_empty() {
                    proof {
                        lemma_views_push(out@, CommentContent::Text(acc_text));
                    }
                    out.push(CommentContent::Text(acc_text));
                    acc_text = String::new();
                }
                proof {
                    lemma_view_of_comment(inner);
                    lemma_views_push(out@, CommentContent::Comment(inner));
                    assert(views(out@) =~= before + flushed(text));
                }
                out.push(CommentContent::Comment(inner));
                proof {
                    let rest = coalesced(all.skip(i + 1), Seq::empty());
                    assert(coalesced(all.skip(i), text) == flushed(text) + seq![comment@] + rest);
                    assert(before + (flushed(text) + seq![comment@] + rest) =~= (before + flushed(
                        text,
                    )).push(comment@) + rest);
                    assert(acc_text@ =~= Seq::<char>::empty());
                }
            },
        }
    }
    proof {
        assert(all.skip(all.len() as int) =~= Seq::<CommentModel>::empty());
    }
    let ghost before = views(out@);
    if !acc_text.as_str().is_empty() {
        proof {
            lemma_views_push(out@, CommentContent::Text(acc_text));
        }
        out.push(CommentContent::Text(acc_text));
    }
    assert(views(out@) =~= before + flushed(acc_text@));
    out
}

/// Reads one item of a comment at `pos`.
pub fn ccontent<P: Utf8Policy>(input: &[u8], pos: usize) -> (r: Option<(usize, CommentContent)>)
    requires
        pos <= input.len(),
    ensures
        agrees(r, ccontent_at(P::international(), input@, pos as int)),
        r matches Some((p, _)) ==> pos < p <= input.len(),
    decreases input.len() - pos, 1int,
{
    let mut text = String::new();
    let end = run::<P>(TextClass::Ctext, input, pos, &mut text);
    if end > pos {
        assert(text@ =~= run_at(P::international(), TextClass::Ctext, input@, pos as int).1);
        return Some((end, CommentContent::Text(text)));
    }
    match quoted_pair::<P>(input, pos) {
        Some((p, c)) => Some((p, CommentContent::QP(c))),
        None => match comment::<P>(input, pos) {
            Some((p, items)) => {
                proof {
                    lemma_view_of_comment(items);
                }
                Some((p, CommentContent::Comment(items)))
            },
            None => None,
        },
    }
}

/// Reads a comment at `pos`.
pub fn comment<P: Utf8Policy>(input: &[u8], pos: usize) -> (r: Option<
    (usize, Vec<CommentContent>),
>)
    requires
        pos <= input.len(),
    ensures
        match r {
            Some((p, items)) => comment_at(P::international(), input@, pos as int) == Some(
                (p as int, views(items@)),
            ) && pos < p <= input.len(),
            None => comment_at(P::international(), input@, pos as int) is None,
        },
    decreases input.len() - pos, 0int,
{
    if !is_byte(input, pos, 0x28) {
        return None;
    }
    let ghost intl = P::international();
    let mut items: Vec<CommentContent> = Vec::new();
    let mut cur = pos + 1;
    assert(views(items@) =~= Seq::<CommentModel>::empty());
    loop
        invariant
            intl == P::international(),
            pos < cur <= input.len(),
            comment_items_at(intl, input@, pos + 1) == (
                comment_items_at(intl, input@, cur as int).0,
                views(items@) + comment_items_at(intl, input@, cur as int).1,
            ),
        ensures
            pos < cur <= input.len(),
            comment_items_at(intl, input@, pos + 1) == (cur as int, views(items@)),
        decreases input.len() - cur,
    {
        let (p, blank) = ofws(input, cur);
        match ccontent::<P>(input, p) {
            Some((q, item)) => {
                proof {
                    let before = views(items@);
                    let rest = comment_items_at(intl, input@, q as int).1;
                    lemma_views_push(items@, CommentContent::Text(blank));
                    lemma_views_push(items@.push(CommentContent::Text(blank)), item);
                    assert(before + (seq![CommentModel::Text(blank@), item@] + rest)
                        =~= before.push(CommentModel::Text(blank@)).push(item@) + rest);
                }
                items.push(CommentContent::Text(blank));
                items.push(item);
                cur = q;
            },
            None => {
                assert(views(items@) + Seq::<CommentModel>::empty() =~= views(items@));
                break ;
            },
        }
    }
    let (q, blank) = ofws(input, cur);
    if !is_byte(input, q, 0x29) {
        return None;
    }
    proof {
        lemma_views_push(items@, CommentContent::Text(blank));
    }
    items.push(CommentContent::Text(blank));
    Some((q + 1, _concat_comment(items)))
}

/// Where the comments from `pos` end, each with optional folding white space
/// before it, and whether there is any.
pub open spec fn comments_at(intl: bool, s: Seq<u8>, pos: int) -> (int, bool)
    decreases s.len() - pos,
{
    match comment_at(intl, s, ofws_at(s, pos).0) {
        Some((q, _)) => if pos < q <= s.len() {
            (comments_at(intl, s, q).0, true)
        } else {
            (pos, false)
        },
        None => (pos, false),
    }
}

/// Comments and folding white space at `pos`: one or more comments with
/// optional folding white space around each, or folding white space alone.
pub open spec fn cfws_at(intl: bool, s: Seq<u8>, pos: int) -> Option<int> {
    let (end, any) = comments_at(intl, s, pos);
    if any {
        Some(ofws_at(s, end).0)
    } else {
        match fws_at(s, pos) {
            Some((p, _)) => Some(p),
            None => None,
        }
    }
}

/// The position after optional comments and folding white space.
pub open spec fn skip_cfws_at(intl: bool, s: Seq<u8>, pos: int) -> int {
    match cfws_at(intl, s, pos) {
        Some(p) => p,
        None => pos,
    }
}

/// Reads comments and folding white space at `pos`.
pub fn cfws<P: Utf8Policy>(input: &[u8], pos: usize) -> (r: Option<usize>)
    requires
        pos <= input.len(),
    ensures
        match r {
            Some(p) => cfws_at(P::international(), input@, pos as int) == Some(p as int) && pos
                < p <= input.len(),
            None => cfws_at(P::international(), input@, pos as int) is None,
        },
{
    let ghost intl = P::international();
    let mut cur = pos;
    let mut any = false;
    loop
        invariant
            intl == P::international(),
            pos <= cur <= input.len(),
            any ==> pos < cur,
            comments_at(intl, input@, pos as int) == (
                comments_at(intl, input@, cur as int).0,
                any || comments_at(intl, input@, cur as int).1,
            ),
        ensures
            pos <= cur <= input.len(),
            any ==> pos < cur,
            comments_at(intl, input@, pos as int) == (cur as int, any),
        decreases input.len() - cur,
    {
        let (p, _) = ofws(input, cur);
        match comment::<P>(input, p) {
            Some((q, _)) => {
                cur = q;
                any = true;
            },
            None => {
                break ;
            },
        }
    }
    if any {
        let (p, _) = ofws(input, cur);
        Some(p)
    } else {
        match fws(input, pos) {
            Some((p, _)) => Some(p),
            None => None,
        }
    }
}

/// Skips optional comments and folding white space at `pos`.
pub fn skip_cfws<P: Utf8Policy>(input: &[u8], pos: usize) -> (r: usize)
    requires
        pos <= input.len(),
    ensures
        r == skip_cfws_at(P::international(), input@, pos as int),
        pos <= r <= input.len(),
{
    match cfws::<P>(input, pos) {
        Some(p) => p,
        None => pos,
    }
}

/// What a quoted string is made of.
#[derive(Debug)]
pub enum QContent {
    /// Text that stands for itself.
    Literal(String),
    /// An encoded word.
    EncodedWord(EncodedWord),
    /// A character that a backslash quotes.
    QP(char),
}

/// The content of a quoted string as a value.
pub enum QContentModel {
    Literal(Seq<char>),
    EncodedWord(WordModel),
    QP(char),
}

impl View for QContent {
    type V = QContentModel;

    open spec fn view(&self) -> QContentModel {
        match self {
            QContent::Literal(text) => QContentModel::Literal(text@),
            QContent::EncodedWord(word) => QContentModel::EncodedWord(word@),
            QContent::QP(c) => QContentModel::QP(*c),
        }
    }
}

/// One item of a quoted string at `pos`: an encoded word, else a run of
/// quoted text, else a quoted character.
pub open spec fn qcontent_at(intl: bool, s: Seq<u8>, pos: int) -> Option<(int, QContentModel)> {
    match encoded_word_at(s, pos) {
        Some((p, word)) => Some((p, QContentModel::EncodedWord(word))),
        None => {
            let (end, text) = run_at(intl, TextClass::Qtext, s, pos);
            if end > pos {
                Some((end, QContentModel::Literal(text)))
            } else {
                match quoted_pair_at(intl, s, pos) {
                    Some((p, c)) => Some((p, QContentModel::QP(c))),
                    None => None,
                }
            }
        },
    }
}

/// The white space before an item as an item of its own. Between two
/// encoded words it is dropped.
pub open spec fn lead(blank: Option<(int, Seq<char>)>, after_word: bool, item: QContentModel) -> Seq<
    QContentModel,
> {
    match blank {
        Some((_, text)) => if after_word && item is EncodedWord {
            Seq::empty()
        } else {
            seq![QContentModel::Literal(text)]
        },
        None => Seq::empty(),
    }
}

/// The items of a quoted string from `pos`, `after_word` telling whether an
/// encoded word stands right before.
pub open spec fn qcontents_at(intl: bool, s: Seq<u8>, pos: int, after_word: bool) -> (
    int,
    Seq<QContentModel>,
)
    decreases s.len() - pos,
{
    let blank = fws_at(s, pos);
    let p = match blank {
        Some((p, _)) => p,
        None => pos,
    };
    if pos <= p <= s.len() {
        match qcontent_at(intl, s, p) {
            Some((q, item)) => if p < q <= s.len() {
                let (end, rest) = qcontents_at(intl, s, q, item is EncodedWord);
                (end, lead(blank, after_word, item) + seq![item] + rest)
            } else {
                (pos, Seq::empty())
            },
            None => (pos, Seq::empty()),
        }
    } else {
        (pos, Seq::empty())
    }
}

/// A quoted string without the comments around it: `"`, its items, and `"`.
/// White space between items is an item of its own, but between two encoded
/// words.
pub open spec fn inner_quoted_string_at(intl: bool, s: Seq<u8>, pos: int) -> Option<
    (int, Seq<QContentModel>),
> {
    if byte_at(s, pos, 0x22) {
        let (p, items) = qcontents_at(intl, s, pos + 1, false);
        match fws_at(s, p) {
            Some((q, text)) => if byte_at(s, q, 0x22) {
                Some((q + 1, items.push(QContentModel::Literal(text))))
            } else {
                None
            },
            None => if byte_at(s, p, 0x22) {
                Some((p + 1, items))
            } else {
                None
            },
        }
    } else {
        None
    }
}

/// The text of one item of a quoted string.
pub open spec fn qcontent_text(item: QContentModel) -> Seq<char> {
    match item {
        QContentModel::Literal(text) => text,
        QContentModel::EncodedWord(word) => word_text(word),
        QContentModel::QP(c) => seq![c],
    }
}

/// The text of a quoted string: the texts of its items, one after another.
pub open spec fn qs_text(items: Seq<QContentModel>) -> Seq<char>
    decreases items.len(),
{
    if items.len() == 0 {
        Seq::empty()
    } else {
        qcontent_text(items[0]) + qs_text(items.drop_first())
    }
}

/// A quoted string at `pos`, with optional comments and folding white space
/// on either side, as the text that it stands for.
pub open spec fn quoted_string_at(intl: bool, s: Seq<u8>, pos: int) -> Option<(int, Seq<char>)> {
    match inner_quoted_string_at(intl, s, skip_cfws_at(intl, s, pos)) {
        Some((p, items)) => Some((skip_cfws_at(intl, s, p), qs_text(items))),
        None => None,
    }
}

/// Reads one item of a quoted string at `pos`.
pub fn qcontent<P: Utf8Policy>(input: &[u8], pos: usize) -> (r: Option<(usize, QContent)>)
    requires
        pos <= input.len(),
        parsable(input@.len() as int),
    ensures
        agrees(r, qcontent_at(P::international(), input@, pos as int)),
        r matches Some((p, _)) ==> pos < p <= input.len(),
{
    match encoded_word_from(input, pos) {
        Some((p, word)) => Some((p, QContent::EncodedWord(word))),
        None => {
            let mut text = String::new();
            let end = run::<P>(TextClass::Qtext, input, pos, &mut text);
            if end > pos {
                assert(text@ =~= run_at(P::international(), TextClass::Qtext, input@, pos as int).1);
                Some((end, QContent::Literal(text)))
            } else {
                match quoted_pair::<P>(input, pos) {
                    Some((p, c)) => Some((p, QContent::QP(c))),
                    None => None,
                }
            }
        },
    }
}

/// Reads a quoted string that no comment surrounds.
pub fn _inner_quoted_string<P: Utf8Policy>(input: &[u8], pos: usize) -> (r: Option<
    (usize, Vec<QContent>),
>)
    requires
        pos <= input.len(),
        parsable(input@.len() as int),
    ensures
        match r {
            Some((p, items)) => inner_quoted_string_at(P::international(), input@, pos as int)
                == Some((p as int, views(items@))) && pos < p <= input.len(),
            None => inner_quoted_string_at(P::international(), input@, pos as int) is None,
        },
{
    if !is_byte(input, pos, 0x22) {
        return None;
    }
    let ghost intl = P::international();
    let mut out: Vec<QContent> = Vec::new();
    let mut cur = pos + 1;
    let mut after_word = false;
    assert(views(out@) =~= Seq::<QContentModel>::empty());
    loop
        invariant
            intl == P::international(),
            parsable(input@.len() as int),
            pos < cur <= input.len(),
            qcontents_at(intl, input@, pos + 1, false) == (
                qcontents_at(intl, input@, cur as int, after_word).0,
                views(out@) + qcontents_at(intl, input@, cur as int, after_word).1,
            ),
        ensures
            pos < cur <= input.len(),
            qcontents_at(intl, input@, pos + 1, false) == (cur as int, views(out@)),
        decreases input.len() - cur,
    {
        let blank = fws(input, cur);
        let p = match &blank {
            Some((p, _)) => *p,
            None => cur,
        };
        match qcontent::<P>(input, p) {
            Some((q, item)) => {
                let ghost before = views(out@);
                let ghost rest = qcontents_at(intl, input@, q as int, item@ is EncodedWord).1;
                let ghost gap = lead(fws_at(input@, cur as int), after_word, item@);
                let is_word = match &item {
                    QContent::EncodedWord(_) => true,
                    _ => false,
                };
                match blank {
                    Some((_, text)) => {
                        if !(after_word && is_word) {
                            proof {
                                lemma_views_push(out@, QContent::Literal(text));
                            }
                            out.push(QContent::Literal(text));
                        }
                    },
                    None => {},
                }
                assert(views(out@) =~= before + gap);
                proof {
                    lemma_views_push(out@, item);
                    assert(before + (gap + seq![item@] + rest) =~= (before + gap).push(item@)
                        + rest);
                }
                out.push(item);
                after_word = is_word;
                cur = q;
            },
            None => {
                assert(views(out@) + Seq::<QContentModel>::empty() =~= views(out@));
                break ;
            },
        }
    }
    match fws(input, cur) {
        Some((q, text)) => {
            if is_byte(input, q, 0x22) {
                proof {
                    lemma_views_push(out@, QContent::Literal(text));
                }
                out.push(QContent::Literal(text));
                Some((q + 1, out))
            } else {
                None
            }
        },
        None => {
            if is_byte(input, cur, 0x22) {
                Some((cur + 1, out))
            } else {
                None
            }
        },
    }
}

/// The text of a quoted string, given its items.
pub fn concat_qs(input: Vec<QContent>) -> (out: String)
    ensures
        out@ == qs_text(views(input@)),
{
    let ghost all = views(input@);
    let mut out = String::new();
    let mut i: usize = 0;
    assert(all.skip(0) =~= all);
    while i < input.len()
        invariant
            all == views(input@),
            i <= input.len(),
            qs_text(all) == out@ + qs_text(all.skip(i as int)),
        decreases input.len() - i,
    {
        proof {
            assert(all.skip(i as int)[0] == input@[i as int]@);
            assert(all.skip(i as int).drop_first() =~= all.skip(i + 1));
        }
        let ghost before = out@;
        let ghost rest = qs_text(all.skip(i + 1));
        match &input[i] {
            QContent::Literal(lit) => {
                out.append(lit.as_str());
            },
            QContent::EncodedWord(ew) => {
                let text = ew.decode();
                out.append(text.as_str());
            },
            QContent::QP(c) => {
                push_char(&mut out, *c);
            },
        }
        proof {
            let piece = qcontent_text(input@[i as int]@);
            assert(out@ =~= before + piece);
            assert(before + (piece + rest) =~= (before + piece) + rest);
        }
        i += 1;
    }
    assert(out@ + qs_text(all.skip(i as int)) =~= out@);
    out
}

/// Reads a quoted string at `pos`, with the comments and folding white
/// space around it.
pub fn quoted_string<P: Utf8Policy>(input: &[u8], pos: usize) -> (r: Option<(usize, String)>)
    requires
        pos <= input.len(),
        parsable(input@.len() as int),
    ensures
        agrees(r, quoted_string_at(P::international(), input@, pos as int)),
        r matches Some((p, _)) ==> pos < p <= input.len(),
{
    let start = skip_cfws::<P>(input, pos);
    match _inner_quoted_string::<P>(input, start) {
        Some((p, items)) => {
            let end = skip_cfws::<P>(input, p);
            Some((end, concat_qs(items)))
        },
        None => None,
    }
}

} // verus!
