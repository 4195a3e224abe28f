//! Laws on written JSON: the text of a value, however its strings are spelled and
//! whatever whitespace stands between its tokens, is read as just that value's tokens.
use vstd::prelude::*;

use crate::chunk_laws;
use crate::grammar;
use crate::grammar::{Lexed, Word};
use crate::model;
use crate::model::{ReaderView, Reply};
use crate::number_laws;
use crate::object;
use crate::operation_laws;
use crate::operation_laws::{Answer, Operation};
use crate::read_laws;
use crate::string_laws;
use crate::token::TokenView;
use crate::token_laws;
use crate::value;
use crate::value::{Json, Member};
use crate::value_laws;

verus! {

/// A token as it is written, with the whitespace before it.
pub struct Mark {
    pub space: Seq<u8>,
    pub bytes: Seq<u8>,
}

/// The bytes are a string of this text, and what follows its closing quote.
pub open spec fn quotes(bytes: Seq<u8>, text: Seq<char>, behind: Seq<u8>) -> bool {
    exists|pieces: Seq<Seq<u8>>| #[trigger]
        string_laws::spells_text(pieces, text) && bytes == string_laws::in_quotes(pieces) + behind
}

/// The bytes are a way to write the token.
pub open spec fn writes(bytes: Seq<u8>, token: TokenView) -> bool {
    match token {
        TokenView::StartObject => bytes == seq!['{' as u8],
        TokenView::EndObject => bytes == seq!['}' as u8],
        TokenView::StartArray => bytes == seq!['[' as u8],
        TokenView::EndArray => bytes == seq![']' as u8],
        TokenView::EndObjectOrListItem => bytes == seq![',' as u8],
        TokenView::Null => bytes == Word::Null.letters(),
        TokenView::Boolean(true) => bytes == Word::True.letters(),
        TokenView::Boolean(false) => bytes == Word::False.letters(),
        TokenView::Number(text) => number_laws::json_number(text) && bytes == number_laws::ascii(
            text,
        ),
        TokenView::String(text) => quotes(bytes, text, Seq::empty()),
        TokenView::Key(text) => exists|space: Seq<u8>| #[trigger]
            read_laws::blank(space) && quotes(bytes, text, space.push(':' as u8)),
    }
}

/// The marks are a way to write the tokens.
pub open spec fn writes_all(marks: Seq<Mark>, tokens: Seq<TokenView>) -> bool {
    &&& marks.len() == tokens.len()
    &&& forall|k: int|
        0 <= k < tokens.len() ==> read_laws::blank((#[trigger] marks[k]).space) && writes(
            marks[k].bytes,
            tokens[k],
        )
}

/// The text that the marks make up.
pub open spec fn text_of(marks: Seq<Mark>) -> Seq<u8>
    decreases marks.len(),
{
    if marks.len() == 0 {
        Seq::empty()
    } else {
        marks[0].space + marks[0].bytes + text_of(marks.drop_first())
    }
}

/// A comma or a closing bracket.
pub open spec fn parts(token: TokenView) -> bool {
    token is EndObjectOrListItem || token is EndObject || token is EndArray
}

/// A token whose end shows only in what follows it.
pub open spec fn open_ended(token: TokenView) -> bool {
    token is Number || token is String
}

/// Behind each number and each string comes a comma or a closing bracket.
pub open spec fn parted(tokens: Seq<TokenView>) -> bool {
    forall|k: int|
        0 <= k < tokens.len() && open_ended(#[trigger] tokens[k]) ==> k + 1 < tokens.len()
            && parts(tokens[k + 1])
}

/// The same, but the last token may be a number or a string.
spec fn parted_inside(tokens: Seq<TokenView>) -> bool {
    forall|k: int|
        0 <= k < tokens.len() - 1 && open_ended(#[trigger] tokens[k]) ==> parts(tokens[k + 1])
}

/// Tokens stay parted before others that begin with a comma or a closing bracket.
proof fn lemma_parted_join(a: Seq<TokenView>, b: Seq<TokenView>)
    requires
        parted_inside(a),
        parted_inside(b),
        b.len() > 0,
        parts(b[0]) || (a.len() > 0 ==> !open_ended(a.last())),
    ensures
        parted_inside(a + b),
{
    let all = a + b;
    assert forall|k: int| 0 <= k < all.len() - 1 && open_ended(#[trigger] all[k]) implies parts(
        all[k + 1],
    ) by {
        if k < a.len() - 1 {
            assert(all[k] == a[k] && all[k + 1] == a[k + 1]);
        } else if k == a.len() - 1 {
            assert(all[k] == a.last() && all[k + 1] == b[0]);
        } else {
            assert(all[k] == b[k - a.len()] && all[k + 1] == b[k - a.len() + 1]);
        }
    }
}

/// The tokens of a value are parted.
proof fn lemma_value_parted(json: Json)
    ensures
        parted_inside(value::tokens_of(json)),
        value::tokens_of(json).len() > 0,
        json is Array || json is Object ==> parted(value::tokens_of(json)),
    decreases json, 0int,
{
    match json {
        Json::Array(items) => {
            let close = seq![TokenView::EndArray];
            lemma_items_parted(items, TokenView::EndArray);
            lemma_parted_join(seq![TokenView::StartArray], value::item_tokens(items) + close);
            assert(value::tokens_of(json) =~= seq![TokenView::StartArray] + (value::item_tokens(
                items,
            ) + close));
        },
        Json::Object(members) => {
            let close = seq![TokenView::EndObject];
            lemma_members_parted(members, TokenView::EndObject);
            lemma_parted_join(seq![TokenView::StartObject], value::member_tokens(members) + close);
            assert(value::tokens_of(json) =~= seq![TokenView::StartObject] + (value::member_tokens(
                members,
            ) + close));
        },
        _ => {},
    }
}

proof fn lemma_items_parted(items: Seq<Json>, close: TokenView)
    requires
        close is EndArray,
    ensures
        parted_inside(value::item_tokens(items) + seq![close]),
        parted_inside(value::more_items(items) + seq![close]),
        parts((value::more_items(items) + seq![close])[0]),
    decreases items, 1int,
{
    let none = Seq::<TokenView>::empty();
    if items.len() == 0 {
        assert(none + seq![close] =~= seq![close]);
    } else {
        let first = value::tokens_of(items[0]);
        let rest = value::more_items(items.drop_first()) + seq![close];
        let comma = TokenView::EndObjectOrListItem;
        lemma_value_parted(items[0]);
        lemma_items_parted(items.drop_first(), close);
        lemma_parted_join(first, rest);
        assert(value::item_tokens(items) + seq![close] =~= first + rest);
        lemma_parted_join(seq![comma], first + rest);
        assert(value::more_items(items) + seq![close] =~= seq![comma] + (first + rest));
    }
}

proof fn lemma_members_parted(members: Seq<Member>, close: TokenView)
    requires
        close is EndObject,
    ensures
        parted_inside(value::member_tokens(members) + seq![close]),
        parted_inside(value::more_members(members) + seq![close]),
        parts((value::more_members(members) + seq![close])[0]),
    decreases members, 1int,
{
    let none = Seq::<TokenView>::empty();
    if members.len() == 0 {
        assert(none + seq![close] =~= seq![close]);
    } else {
        let key = TokenView::Key(members[0].key);
        let first = value::tokens_of(members[0].value);
        let rest = value::more_members(members.drop_first()) + seq![close];
        let comma = TokenView::EndObjectOrListItem;
        lemma_value_parted(members[0].value);
        lemma_members_parted(members.drop_first(), close);
        lemma_parted_join(first, rest);
        lemma_parted_join(seq![key], first + rest);
        assert(value::member_tokens(members) + seq![close] =~= seq![key] + (first + rest));
        lemma_parted_join(seq![comma], seq![key] + (first + rest));
        assert(value::more_members(members) + seq![close] =~= seq![comma] + (seq![key] + (first
            + rest)));
    }
}

/// A number of JSON is written in ASCII.
proof fn lemma_number_is_ascii(text: Seq<char>)
    requires
        number_laws::json_number(text),
    ensures
        text.len() > 0,
        forall|k: int| 0 <= k < text.len() ==> (#[trigger] text[k] as u32) < 0x80,
{
    if number_laws::mantissa(text) {
        lemma_mantissa_is_ascii(text);
    } else {
        let q = choose|q: int| number_laws::exponential(text, q);
        lemma_mantissa_is_ascii(text.take(q));
        let power = text.skip(q + 1);
        assert forall|k: int| 0 <= k < text.len() implies (#[trigger] text[k] as u32) < 0x80 by {
            if k < q {
                assert(text.take(q)[k] == text[k]);
            } else if k > q {
                assert(power[k - q - 1] == text[k]);
                if !number_laws::digits(power) && k > q + 1 {
                    assert(power.skip(1)[k - q - 2] == text[k]);
                }
            }
        }
    }
}

proof fn lemma_mantissa_is_ascii(text: Seq<char>)
    requires
        number_laws::mantissa(text),
    ensures
        text.len() > 0,
        forall|k: int| 0 <= k < text.len() ==> (#[trigger] text[k] as u32) < 0x80,
{
    if number_laws::integer(text) {
        lemma_integer_is_ascii(text);
    } else {
        let p = choose|p: int| number_laws::pointed(text, p);
        lemma_integer_is_ascii(text.take(p));
        assert forall|k: int| 0 <= k < text.len() implies (#[trigger] text[k] as u32) < 0x80 by {
            if k < p {
                assert(text.take(p)[k] == text[k]);
            } else if k > p {
                assert(text.skip(p + 1)[k - p - 1] == text[k]);
            }
        }
    }
}

proof fn lemma_integer_is_ascii(text: Seq<char>)
    requires
        number_laws::integer(text),
    ensures
        text.len() > 0,
        forall|k: int| 0 <= k < text.len() ==> (#[trigger] text[k] as u32) < 0x80,
{
    let n = number_laws::sign_len(text);
    assert forall|k: int| 0 <= k < text.len() implies (#[trigger] text[k] as u32) < 0x80 by {
        if k >= n {
            assert(text.skip(n)[k - n] == text[k]);
        }
    }
}

/// What comes first in a text: whitespace, a token and the rest.
proof fn lemma_first_apart(marks: Seq<Mark>, rest: Seq<Option<u8>>)
    requires
        marks.len() > 0,
    ensures
        model::events_of(text_of(marks)) + rest == model::events_of(marks[0].space) + (
        model::events_of(marks[0].bytes) + (model::events_of(text_of(marks.drop_first())) + rest)),
{
    assert(model::events_of(text_of(marks)) + rest =~= model::events_of(marks[0].space) + (
    model::events_of(marks[0].bytes) + (model::events_of(text_of(marks.drop_first())) + rest)));
}

/// How much of the text belongs to the first token. Whitespace after a string is used up
/// with it.
spec fn first_len(marks: Seq<Mark>, token: TokenView) -> int {
    marks[0].space.len() + marks[0].bytes.len() + (if token is String {
        marks[1].space.len() as int
    } else {
        0
    })
}

/// What is left of the marks after the first token.
spec fn first_gone(marks: Seq<Mark>, token: TokenView) -> Seq<Mark> {
    if token is String {
        marks.drop_first().update(0, Mark { space: Seq::empty(), bytes: marks[1].bytes })
    } else {
        marks.drop_first()
    }
}

/// A comma or a closing bracket is one byte.
proof fn lemma_parting_byte(bytes: Seq<u8>, token: TokenView)
    requires
        parts(token),
        writes(bytes, token),
    ensures
        bytes.len() == 1,
        bytes[0] == ',' as u8 || bytes[0] == '}' as u8 || bytes[0] == ']' as u8,
{
}

/// A token is read as it is written.
proof fn lemma_token_is_read(
    bytes: Seq<u8>,
    token: TokenView,
    tail: Seq<Option<u8>>,
    depth: int,
)
    requires
        writes(bytes, token),
        !open_ended(token),
        model::depth_after(depth, token) >= 0,
    ensures
        grammar::lex(model::events_of(bytes) + tail, depth) == (Lexed::Token {
            token,
            len: bytes.len() as int,
        }),
{
    match token {
        TokenView::Null => {
            token_laws::law_literal_is_read(Word::Null, tail, depth);
        },
        TokenView::Boolean(true) => {
            token_laws::law_literal_is_read(Word::True, tail, depth);
        },
        TokenView::Boolean(false) => {
            token_laws::law_literal_is_read(Word::False, tail, depth);
        },
        TokenView::Key(text) => {
            let space = choose|space: Seq<u8>| #[trigger]
                read_laws::blank(space) && quotes(bytes, text, space.push(':' as u8));
            let colon = space.push(':' as u8);
            let pieces = choose|pieces: Seq<Seq<u8>>| #[trigger]
                string_laws::spells_text(pieces, text) && bytes == string_laws::in_quotes(pieces)
                    + colon;
            string_laws::law_key_is_read(pieces, text, space, tail, depth);
            assert(model::events_of(bytes) + tail =~= model::events_of(
                string_laws::in_quotes(pieces),
            ) + (model::events_of(colon) + tail));
        },
        _ => {
            token_laws::law_punctuation_is_read(bytes[0], tail, depth);
            assert(model::events_of(bytes) =~= seq![Some(bytes[0])]);
        },
    }
}

/// A number or a string is read as it is written, before a comma or a closing bracket.
proof fn lemma_open_token_is_read(
    bytes: Seq<u8>,
    token: TokenView,
    space: Seq<u8>,
    next: u8,
    later: Seq<Option<u8>>,
    depth: int,
)
    requires
        writes(bytes, token),
        open_ended(token),
        read_laws::blank(space),
        next == ',' as u8 || next == '}' as u8 || next == ']' as u8,
    ensures
        grammar::lex(
            model::events_of(bytes) + (model::events_of(space) + (seq![Some(next)] + later)),
            depth,
        ) == (Lexed::Token {
            token,
            len: bytes.len() + (if token is String {
                space.len() as int
            } else {
                0
            }),
        }),
{
    let tail = model::events_of(space) + (seq![Some(next)] + later);
    let s = model::events_of(bytes) + tail;
    match token {
        TokenView::String(text) => {
            let pieces = choose|pieces: Seq<Seq<u8>>| #[trigger]
                string_laws::spells_text(pieces, text) && bytes == string_laws::in_quotes(pieces)
                    + Seq::<u8>::empty();
            assert(bytes =~= string_laws::in_quotes(pieces));
            string_laws::law_string_is_read(pieces, text, space, Some(next), later, depth);
        },
        TokenView::Number(text) => {
            lemma_number_is_ascii(text);
            assert forall|k: int| 0 <= k < text.len() implies s[0 + k] == Some(
                #[trigger] text[k] as u8,
            ) by {
                assert(s[k] == Some(bytes[k]));
            }
            assert(s[text.len() as int] == tail[0]);
            if space.len() > 0 {
                assert(tail[0] == Some(space[0]));
                assert(token_laws::white(space[0]));
            } else {
                assert(tail[0] == Some(next));
            }
            number_laws::law_number_is_read(s, text, depth);
        },
        _ => {},
    }
}

/// The first token of a text is read, and the others are left.
proof fn lemma_first_mark(
    marks: Seq<Mark>,
    tokens: Seq<TokenView>,
    rest: Seq<Option<u8>>,
    depth: int,
)
    requires
        tokens.len() > 0,
        writes_all(marks, tokens),
        parted(tokens),
        model::depth_after(depth, tokens[0]) >= 0,
    ensures
        ({
            let s = model::events_of(text_of(marks)) + rest;
            let gone = first_gone(marks, tokens[0]);
            &&& grammar::lex(s, depth) == (Lexed::Token {
                token: tokens[0],
                len: first_len(marks, tokens[0]),
            })
            &&& 0 <= first_len(marks, tokens[0]) <= s.len()
            &&& s.skip(first_len(marks, tokens[0])) == model::events_of(text_of(gone)) + rest
            &&& writes_all(gone, tokens.drop_first())
            &&& parted(tokens.drop_first())
        }),
{
    let s = model::events_of(text_of(marks)) + rest;
    let token = tokens[0];
    let others = marks.drop_first();
    let gone = first_gone(marks, token);
    let left = tokens.drop_first();
    let space = marks[0].space;
    let tail = model::events_of(text_of(others)) + rest;
    lemma_first_apart(marks, rest);
    token_laws::law_leading_whitespace(space, model::events_of(marks[0].bytes) + tail, depth);
    assert(read_laws::blank(marks[0].space));
    assert forall|k: int| 0 <= k < left.len() && open_ended(#[trigger] left[k]) implies k + 1
        < left.len() && parts(left[k + 1]) by {
        assert(left[k] == tokens[k + 1]);
    }
    assert forall|k: int| 0 <= k < left.len() implies read_laws::blank(
        (#[trigger] gone[k]).space,
    ) && writes(gone[k].bytes, left[k]) by {
        assert(left[k] == tokens[k + 1]);
        assert(read_laws::blank(marks[k + 1].space));
    }
    if open_ended(token) {
        let next = marks[1];
        assert(parts(tokens[1]));
        assert(read_laws::blank(marks[1].space));
        lemma_parting_byte(next.bytes, tokens[1]);
        let later = model::events_of(text_of(others.drop_first())) + rest;
        lemma_first_apart(others, rest);
        assert(model::events_of(next.bytes) =~= seq![Some(next.bytes[0])]);
        lemma_open_token_is_read(
            marks[0].bytes,
            token,
            next.space,
            next.bytes[0],
            later,
            depth,
        );
        if token is String {
            lemma_first_apart(gone, rest);
            assert(gone.drop_first() =~= others.drop_first());
        }
    } else {
        lemma_token_is_read(marks[0].bytes, token, tail, depth);
    }
    assert(s.skip(first_len(marks, token)) =~= model::events_of(text_of(gone)) + rest);
}

/// A text is read token by token.
proof fn lemma_text_comes(
    v: ReaderView,
    marks: Seq<Mark>,
    tokens: Seq<TokenView>,
    rest: Seq<Option<u8>>,
)
    requires
        v.sound(),
        v.stage is Idle,
        v.seen.len() == 0,
        v.input() == model::events_of(text_of(marks)) + rest,
        writes_all(marks, tokens),
        parted(tokens),
        value::above(tokens, v.depth, 0),
    ensures
        value::comes(v, tokens),
        value::after(v, tokens.len()).input() == rest,
    decreases tokens.len(),
{
    if tokens.len() == 0 {
        assert(model::events_of(text_of(marks)) + rest =~= rest);
    } else {
        lemma_first_mark(marks, tokens, rest, v.depth);
        let n = first_len(marks, tokens[0]);
        let w = model::next_token(v).1;
        assert(model::next_token(v).0 == Reply::Ready(Some(tokens[0])) && w.input() == v.past(
            n,
        ).input()) by {
            reveal(model::next_token);
        }
        chunk_laws::lemma_past(v, n);
        value::lemma_one(v, tokens[0]);
        lemma_text_comes(w, first_gone(marks, tokens[0]), tokens.drop_first(), rest);
    }
}

/// An array or an object, however it is written, is read as just its tokens, and what
/// follows its text is left.
pub proof fn law_text_is_read(
    v: ReaderView,
    json: Json,
    marks: Seq<Mark>,
    rest: Seq<Option<u8>>,
)
    requires
        v.sound(),
        v.at_rest(),
        v.depth >= 0,
        json is Array || json is Object,
        writes_all(marks, value::tokens_of(json)),
        v.input() == model::events_of(text_of(marks)) + rest,
    ensures
        value::comes(v, value::tokens_of(json)),
        value::after(v, value::tokens_of(json).len()).input() == rest,
{
    lemma_value_parted(json);
    value::lemma_value_level(json, v.depth, 0);
    lemma_text_comes(v, marks, value::tokens_of(json), rest);
}

/// An object, however it is written, is read whole: the parser is handed just its text,
/// the parser's result is the reply, and what follows the text is left.
pub proof fn law_object_text_is_deserialized(
    v: ReaderView,
    members: Seq<Member>,
    marks: Seq<Mark>,
    rest: Seq<Option<u8>>,
)
    requires
        v.sound(),
        v.at_rest(),
        v.depth >= 0,
        writes_all(marks, value::tokens_of(Json::Object(members))),
        v.input() == model::events_of(text_of(marks)) + rest,
    ensures
        model::deserialize_object(v).0 == model::object_reply(
            object::parsed_object(text_of(marks)),
            v.position,
        ),
        model::deserialize_object(v).1.input() == rest,
        model::deserialize_object(v).1.state is Object,
        model::deserialize_object(v).1.depth == v.depth,
{
    let json = Json::Object(members);
    let tokens = value::tokens_of(json);
    let x = value::after(v, tokens.len());
    law_text_is_read(v, json, marks, rest);
    value::lemma_comes_frame(v, tokens);
    value::lemma_value_level(json, v.depth, 0);
    value_laws::law_object_is_deserialized(v, tokens);
    let text = text_of(marks);
    let read = v.buffer.subrange(v.position, x.position);
    if v.ended && !x.ended {
        assert(v.input().last() is None);
        assert(v.input().last() == rest.last());
        assert(x.input() =~= model::events_of(v.buffer.skip(x.position)));
        assert(rest.last() is Some);
    }
    assert(read.len() == text.len());
    assert forall|k: int| 0 <= k < text.len() implies read[k] == #[trigger] text[k] by {
        assert(v.input()[k] == Some(text[k]));
        assert(v.input()[k] == Some(v.buffer.skip(v.position)[k]));
    }
    assert(read =~= text);
}

/// An object is read whole however it is written and however its bytes are cut into
/// reads: the reply is the parser's result for just its text, but for the position in an
/// error, and the bytes behind the object are still to come.
pub proof fn law_object_text_is_deserialized_over_reads(
    v: ReaderView,
    members: Seq<Member>,
    marks: Seq<Mark>,
    behind: Seq<u8>,
    reads: Seq<Seq<u8>>,
    left: nat,
)
    requires
        chunk_laws::valid(v),
        v.at_rest(),
        !v.ended,
        v.depth >= 0,
        read_laws::none_empty(reads),
        writes_all(marks, value::tokens_of(Json::Object(members))),
        v.buffer.skip(v.position) + string_laws::concatenated(reads) == text_of(marks) + behind,
    ensures
        ({
            let (reply, x, rest) = operation_laws::over(
                Operation::DeserializeObject,
                v,
                reads,
                left,
            );
            &&& match object::parsed_object(text_of(marks)) {
                Ok(map) => reply == Reply::Ready(Answer::Object(map)),
                Err(error) => reply matches Reply::Failed(found) && chunk_laws::same_error(
                    found,
                    model::object_reply(object::parsed_object(text_of(marks)), 0)->Failed_0,
                ),
            }
            &&& x.input() + model::events_of(string_laws::concatenated(rest)) == model::events_of(
                behind,
            )
        }),
{
    let w = operation_laws::with_all(v, reads);
    let bytes = string_laws::concatenated(reads);
    assert(w.buffer.skip(w.position) =~= v.buffer.skip(v.position) + bytes);
    assert(w.input() =~= model::events_of(text_of(marks)) + model::events_of(behind));
    law_object_text_is_deserialized(w, members, marks, model::events_of(behind));
    operation_laws::law_operation_over_reads(Operation::DeserializeObject, v, reads, left);
}

} // verus!
